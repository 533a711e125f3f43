//! A WiSARD weightless neural classifier: rank-encoded RAM discriminators
//! behind a multi-class network, with a binary persistence format.

pub mod codec;
pub mod config;
pub mod discriminator;
pub mod error;
pub mod mnist;
pub mod network;
pub mod rank;
