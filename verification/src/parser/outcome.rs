//! The mathematical value of what a parsing function returns.

use vstd::prelude::*;
use crate::ast::block::{blocks_view, Block, BlockModel};
use crate::ast::node::{nodes_view, Node, NodeModel};
use crate::error::{ParseError, ParseErrorModel};

verus! {

/// What a run of items yields when `done` has been read from its first
/// `offset` characters and `tail` is what the rest yields.
pub open spec fn resume<A>(done: Seq<A>, offset: int, tail: Result<Seq<A>, ParseErrorModel>) -> Result<
    Seq<A>,
    ParseErrorModel,
> {
    match tail {
        Ok(rest) => Ok(done + rest),
        Err(e) => Err(e.shifted(offset)),
    }
}

/// The model of a node, or of the failure in its place.
pub open spec fn node_outcome<T>(r: Result<Node<T>, ParseError>) -> Result<
    NodeModel<T>,
    ParseErrorModel,
> {
    match r {
        Ok(node) => Ok(node@),
        Err(e) => Err(e@),
    }
}

/// The model of a node with the number of characters it took up, or of the
/// failure in its place.
pub open spec fn step_outcome<T>(r: Result<(Node<T>, usize), ParseError>) -> Result<
    (NodeModel<T>, int),
    ParseErrorModel,
> {
    match r {
        Ok((node, used)) => Ok((node@, used as int)),
        Err(e) => Err(e@),
    }
}

/// What a function that moves a cursor returned, as a step: the model of
/// the node with the number of characters that the cursor moved from
/// `before` to `after`, or of the failure in its place.
pub open spec fn cursor_step<T>(
    r: Result<Node<T>, ParseError>,
    before: Seq<char>,
    after: Seq<char>,
) -> Result<(NodeModel<T>, int), ParseErrorModel> {
    match r {
        Ok(node) => Ok((node@, before.len() - after.len())),
        Err(e) => Err(e@),
    }
}

/// What a function that moves a cursor returned, as a step: the model of
/// the block with the number of characters that the cursor moved from
/// `before` to `after`, or of the failure in its place.
pub open spec fn block_cursor_step<T>(
    r: Result<Block<T>, ParseError>,
    before: Seq<char>,
    after: Seq<char>,
) -> Result<(BlockModel<T>, int), ParseErrorModel> {
    match r {
        Ok(block) => Ok((block@, before.len() - after.len())),
        Err(e) => Err(e@),
    }
}

/// The models of a run of nodes, or of the failure in its place.
pub open spec fn nodes_outcome<T>(r: Result<Vec<Node<T>>, ParseError>) -> Result<
    Seq<NodeModel<T>>,
    ParseErrorModel,
> {
    match r {
        Ok(nodes) => Ok(nodes_view(nodes@)),
        Err(e) => Err(e@),
    }
}

/// The model of a block, or of the failure in its place.
pub open spec fn block_outcome<T>(r: Result<Block<T>, ParseError>) -> Result<
    BlockModel<T>,
    ParseErrorModel,
> {
    match r {
        Ok(block) => Ok(block@),
        Err(e) => Err(e@),
    }
}

/// The model of a block with the number of characters it took up, or of
/// the failure in its place.
pub open spec fn block_step_outcome<T>(r: Result<(Block<T>, usize), ParseError>) -> Result<
    (BlockModel<T>, int),
    ParseErrorModel,
> {
    match r {
        Ok((block, used)) => Ok((block@, used as int)),
        Err(e) => Err(e@),
    }
}

/// The models of the blocks of a document, or of the failure in its place.
pub open spec fn document_outcome<T>(r: Result<Vec<Block<T>>, ParseError>) -> Result<
    Seq<BlockModel<T>>,
    ParseErrorModel,
> {
    match r {
        Ok(blocks) => Ok(blocks_view(blocks@)),
        Err(e) => Err(e@),
    }
}

} // verus!
