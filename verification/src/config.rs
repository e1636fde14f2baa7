//! The replicated configuration store.

pub mod config_core;
pub mod config_index;
pub mod config_subscribe;
pub mod laws;
pub mod listener;
pub mod model;
pub mod wire;
