//! Client-protocol message and custom-type codecs.
//!
//! Custom composite types and collections of composites are wrapped in begin and end marker
//! frames. Lists of fixed-size scalars are a single frame of packed little-endian elements.

pub mod address;
pub mod atomiclong;
pub mod atomicref;
pub mod cpcount;
pub mod cpmap;
pub mod cpsession;
pub mod executor;
pub mod fencedlock;
pub mod layout;
pub mod mc;
pub mod member_info;
pub mod partition_table;

pub use layout::{begin_frame, end_frame};
