//! The models: classifiers, autoencoders and a regressor.
pub mod autoencoder;
pub mod classification;
pub mod config;
pub mod ranking;
pub mod regression;

pub use autoencoder::{TMAutoEncoder, TMCoalescedAutoEncoder};
pub use classification::{
    CoalescedTsetlinMachine, ConvolutionalTsetlinMachine, TMCompositeClassifier, TMSparseClassifier,
    TsetlinMachine,
};
pub use regression::TMRegressor;
