//! A copy-on-write, indexable sequence of `usize`: a trie of 32-way blocks
//! with a tail buffer for the most recent elements. A snapshot taken with
//! `clone` shares every node with its source; a write copies the nodes on
//! its path and nothing else.
//!
//! - [`vec`]: the vector and its operations, each with a contract over
//!   the sequence of elements that the vector stands for.
//! - [`model`] and [`laws`]: that sequence under each operation, and what
//!   holds of runs of operations.
//! - [`tree`] and [`index`]: what a subtree holds, and how an index finds
//!   its way through it.
//! - [`leaf`] and [`branch`]: the fixed-capacity buffers of `arrayvec` that
//!   the nodes are made of, behind contracts that are stated, not proved.

pub mod branch;
pub mod index;
pub mod laws;
pub mod leaf;
pub mod model;
pub mod tree;
pub mod vec;

pub use crate::index::{MASK, NODE_SIZE, SHIFT};
pub use crate::vec::CowVec;
