//! A Raft consensus core and the replicated state machines that run on it.
//!
//! Pure and message-driven: no threads, no I/O, no clock. The caller feeds messages in, advances
//! logical time, proposes commands and drains what has committed.

pub mod atomiclong;
pub mod atomicref;
pub mod countdownlatch;
pub mod cp;
pub mod cp_group;
pub mod cp_wire;
pub mod cpmap;
pub mod fencedlock;
pub mod log;
pub mod node;
pub mod reply;
pub mod rules;
pub mod safety;
pub mod semaphore;
pub mod session;

pub use log::{Entry, RaftLog};
pub use node::{NodeId, RaftMsg, RaftNode};
