//! Autoencoders.
pub mod coalesced_autoencoder;
pub mod vanilla_autoencoder;

pub use coalesced_autoencoder::TMCoalescedAutoEncoder;
pub use vanilla_autoencoder::TMAutoEncoder;
