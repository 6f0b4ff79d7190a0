//! What the operations promise as a whole, each promise a proof function.
pub mod arithmetic;
pub mod batches;
pub mod bytes;
pub mod counting;
pub mod datasets;
pub mod device;
pub mod encoding;
pub mod epochs;
pub mod feedback;
pub mod images;
pub mod masks;
pub mod parsing;
pub mod pools;
pub mod rules;
pub mod seeds;
pub mod texts;
pub mod training;
pub mod views;
pub mod vocabularies;
pub mod voting;
