//! Clause banks: the automata behind every model.
pub mod automata;
pub mod dense;
pub mod feedback;
pub mod shared;
pub mod sparse;
