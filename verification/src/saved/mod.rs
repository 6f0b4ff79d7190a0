//! Saved artifacts: what a model or an encoder is as bytes, and back.
pub mod artifact;
pub mod autoencoder;
pub mod coalesced;
pub mod coalesced_autoencoder;
pub mod composite;
pub mod convolutional;
pub mod dense;
pub mod encoder;
pub mod regressor;
pub mod save_load;
pub mod sparse;
pub mod stored;
pub mod vanilla;
