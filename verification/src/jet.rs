//! Streaming: processors that take items from an inbox and put items into an outbox.

pub mod codecs;
pub mod connectors;
pub mod dag;
pub mod join;
pub mod processor;
pub mod window;
pub mod window_results;
