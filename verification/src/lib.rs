//! A single-file embedded key-value store with an ordered index.
//!
//! The store keeps the whole database file as one byte image: fixed-size
//! pages holding B-tree nodes, preceded by a header page and interleaved
//! with an append-only value log. All structural logic — the page codec,
//! the pager, the value log, and the B-tree engine — works on that image;
//! reading the image from disk and writing it back is the caller's part.
//!
//! Keys are compared byte-wise over their UTF-8 bytes. Storing a key
//! that is already present overwrites its data offset in place.

pub mod codec;
pub mod engine;
pub mod errors;
pub mod keys;
pub mod node;
