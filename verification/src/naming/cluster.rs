//! The peer-to-peer fabric of the naming cluster.

pub mod model;
pub mod node_manage;
