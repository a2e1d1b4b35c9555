//! The client protocol's envelope: messages made of frames, and the primitive fields in them.

pub mod fixed;
pub mod fragment;
pub mod frame;
pub mod message;
pub mod primitives;
