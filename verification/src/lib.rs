//! A small block-based file store: inode records, single-level indirect
//! addressing and byte-range reads and writes over an in-memory block image.

pub mod apart;
pub mod codec;
pub mod content;
pub mod error;
pub mod file;
pub mod inode;
pub mod layout;
pub mod resolve;
pub mod service;
pub mod sound;
pub mod span;
pub mod store;
pub mod text;
