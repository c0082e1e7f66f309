//! The document tree and its mathematical model.

pub mod block;
pub mod node;

pub use block::{Block, BlockContent, CodeBlockMeta, Document};
pub use node::{Link, Node};
