//! Members of a cluster: what they say to each other, backups, and the connections between them.

pub mod replication;
pub mod transport;
pub mod wire;
