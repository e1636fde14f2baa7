//! Coordination core of a service registry with dynamic configuration:
//! the replicated configuration state machine with its long-poll listener
//! engine and subscription registry, and the peer table of the naming
//! cluster with its liveness tracking and hash routing.

pub mod config;
pub mod keyed;
pub mod naming;
pub mod starter;
pub mod text;
pub mod utils;
