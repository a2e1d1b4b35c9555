//! BonsaiGrid: the verified core of an in-memory data grid.

pub mod bench;
pub mod bytes;
pub mod checksum;
pub mod codecs;
pub mod jet;
pub mod member;
pub mod model;
pub mod number;
pub mod order;
pub mod persistence;
pub mod protocol;
pub mod query;
pub mod raft;
pub mod table;
pub mod text;
pub mod wire;
