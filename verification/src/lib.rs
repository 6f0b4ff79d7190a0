//! Bit-packed, weighted Tsetlin Machines.
pub mod bits;
pub mod booleanizer;
pub mod clause_bank;
pub mod clause_inspect;
pub mod data;
pub mod dyadic;
pub mod encoder;
pub mod gpu;
pub mod laws;
pub mod models;
pub mod rng;
pub mod sampling;
pub mod saved;
pub mod serial;
pub mod text;
pub mod vocabulary;

pub use booleanizer::Booleanizer;
pub use clause_inspect::ClauseInspect;
pub use encoder::{EncodedBatch, EncodedSample, Encoder};
pub use models::{
    CoalescedTsetlinMachine, ConvolutionalTsetlinMachine, TMAutoEncoder, TMCoalescedAutoEncoder,
    TMCompositeClassifier, TMRegressor, TMSparseClassifier, TsetlinMachine,
};
pub use rng::Rng;
pub use saved::save_load::SaveLoad;
