//! A fixed-capacity arena whose blocks carry their own two-byte headers.
//!
//! The buffer is carved into a gapless chain of blocks. Each header packs
//! the free flag and the payload size into one byte and the offset of the
//! preceding block into the next; the offset of the following block is
//! derived from the size, rounded up to the chunk granularity.
pub mod chain;
pub mod meta;
pub mod stack;

pub use meta::{Meta, CHUNK_SIZE, MAX_BLOCK_SIZE, MAX_CAPACITY, META_SIZE};
pub use stack::{OutOfSpace, Stack};
