//! A persistent, block-oriented B+-tree index mapping signed 64-bit search keys
//! to 32-bit payload identifiers.
//!
//! The library holds the file image in memory: node blocks are encoded and
//! decoded by [`codec`], mediated by a second-chance [`second_chance_cache`],
//! addressed by the [`file_store`], and organised into a tree by [`node`] and
//! [`tree`]. Reading and writing the image to a real file is left to callers.
use vstd::prelude::*;

pub mod codec;
pub mod file_store;
pub mod graphviz;
pub mod insert_proof;
pub mod laws;
pub mod node;
pub mod node_store;
pub mod second_chance_cache;
pub mod shape;
pub mod tree;
