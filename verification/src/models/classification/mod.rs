//! Classifiers.
pub mod coalesced_classifier;
pub mod composite_classifier;
pub mod convolutional_classifier;
pub mod data_parallel;
pub mod dp_seed;
pub mod patches;
pub mod sparse_classifier;
pub mod vanilla_classifier;

pub use coalesced_classifier::CoalescedTsetlinMachine;
pub use composite_classifier::TMCompositeClassifier;
pub use convolutional_classifier::ConvolutionalTsetlinMachine;
pub use sparse_classifier::TMSparseClassifier;
pub use vanilla_classifier::TsetlinMachine;
