//! A block-oriented storage primitive over a single file: a variable-length
//! integer codec and a block storage manager whose every decision is verified
//! against a model of the file it governs.

pub mod block_storage;
pub mod encoding;
pub mod file_image;
