//! A single-producer, single-consumer FIFO queue built as a singly linked
//! chain of nodes behind a payload-free sentinel.

pub mod laws;
mod queue;

pub use queue::{removed, Queue};
