//! The naming cluster: how the nodes of the cluster know and reach each other.

pub mod cluster;
