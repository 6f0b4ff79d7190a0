//! Regression.
pub mod target;
pub mod vanilla_regressor;

pub use vanilla_regressor::TMRegressor;
