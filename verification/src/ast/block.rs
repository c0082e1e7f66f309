//! Block-level syntax tree: the line-based structure of a document.

use vstd::prelude::*;
use super::node::{Node, NodeModel, nodes_view};

verus! {

/// A document: its blocks in source order.
pub type Document<T> = Vec<Block<T>>;

/// One top-level unit of a document, tagged with its indentation.
#[derive(Debug, PartialEq, Clone)]
pub struct Block<T> {
    /// The number of leading space characters in front of the block.
    pub indent: usize,
    /// What the block holds.
    pub content: BlockContent<T>,
}

/// The content of a block.
#[derive(Debug, PartialEq, Clone)]
pub enum BlockContent<T> {
    /// An ordinary line of inline nodes.
    Line(Vec<Node<T>>),
    /// A code fence: its header, the indentation it was opened at and its
    /// raw text.
    CodeBlock { meta: CodeBlockMeta, indent: usize, content: String },
    /// A table: rows of cells, each cell a run of inline nodes.
    Table { name: String, rows: Vec<Vec<Vec<Node<T>>>> },
    /// A quoted line of inline nodes.
    Quote(Vec<Node<T>>),
    /// A block produced by the extension.
    Custom(T),
}

/// What the header line of a code fence names.
#[derive(Debug, PartialEq, Clone)]
pub enum CodeBlockMeta {
    /// The header names nothing.
    Absent,
    /// The header gives a single name: a file name or a file type.
    Either(String),
    /// The header gives a file name followed by a file type in parentheses.
    Both { filename: String, filetype: String },
}

/// The mathematical value of a [`CodeBlockMeta`].
pub ghost enum CodeBlockMetaModel {
    Absent,
    Either(Seq<char>),
    Both { filename: Seq<char>, filetype: Seq<char> },
}

/// The mathematical value of a [`BlockContent`].
pub ghost enum BlockContentModel<T> {
    Line(Seq<NodeModel<T>>),
    CodeBlock { meta: CodeBlockMetaModel, indent: nat, content: Seq<char> },
    Table { name: Seq<char>, rows: Seq<Seq<Seq<NodeModel<T>>>> },
    Quote(Seq<NodeModel<T>>),
    Custom(T),
}

/// The mathematical value of a [`Block`].
pub ghost struct BlockModel<T> {
    pub indent: nat,
    pub content: BlockContentModel<T>,
}

impl View for CodeBlockMeta {
    type V = CodeBlockMetaModel;

    open spec fn view(&self) -> CodeBlockMetaModel {
        match self {
            CodeBlockMeta::Absent => CodeBlockMetaModel::Absent,
            CodeBlockMeta::Either(name) => CodeBlockMetaModel::Either(name@),
            CodeBlockMeta::Both { filename, filetype } => CodeBlockMetaModel::Both {
                filename: filename@,
                filetype: filetype@,
            },
        }
    }
}

/// The models of the cells of one table row, in order.
pub open spec fn row_view<T>(row: Seq<Vec<Node<T>>>) -> Seq<Seq<NodeModel<T>>> {
    Seq::new(row.len(), |i: int| nodes_view(row[i]@))
}

/// The models of the rows of a table, in order.
pub open spec fn rows_view<T>(rows: Seq<Vec<Vec<Node<T>>>>) -> Seq<Seq<Seq<NodeModel<T>>>> {
    Seq::new(rows.len(), |i: int| row_view(rows[i]@))
}

impl<T> View for BlockContent<T> {
    type V = BlockContentModel<T>;

    open spec fn view(&self) -> BlockContentModel<T> {
        match self {
            BlockContent::Line(nodes) => BlockContentModel::Line(nodes_view(nodes@)),
            BlockContent::CodeBlock { meta, indent, content } => BlockContentModel::CodeBlock {
                meta: meta@,
                indent: *indent as nat,
                content: content@,
            },
            BlockContent::Table { name, rows } => BlockContentModel::Table {
                name: name@,
                rows: rows_view(rows@),
            },
            BlockContent::Quote(nodes) => BlockContentModel::Quote(nodes_view(nodes@)),
            BlockContent::Custom(v) => BlockContentModel::Custom(*v),
        }
    }
}

impl<T> View for Block<T> {
    type V = BlockModel<T>;

    open spec fn view(&self) -> BlockModel<T> {
        BlockModel { indent: self.indent as nat, content: self.content@ }
    }
}

/// Pushing a cell onto a row pushes its model onto the row's models.
pub proof fn lemma_row_view_push<T>(row: Seq<Vec<Node<T>>>, cell: Vec<Node<T>>)
    ensures
        row_view(row.push(cell)) == row_view(row).push(nodes_view(cell@)),
{
    assert(row_view(row.push(cell)) =~= row_view(row).push(nodes_view(cell@)));
}

/// Pushing a row onto a table pushes its model onto the table's models.
pub proof fn lemma_rows_view_push<T>(rows: Seq<Vec<Vec<Node<T>>>>, row: Vec<Vec<Node<T>>>)
    ensures
        rows_view(rows.push(row)) == rows_view(rows).push(row_view(row@)),
{
    assert(rows_view(rows.push(row)) =~= rows_view(rows).push(row_view(row@)));
}

/// Pushing a block onto a document pushes its model onto the document's
/// models.
pub proof fn lemma_blocks_view_push<T>(blocks: Seq<Block<T>>, block: Block<T>)
    ensures
        blocks_view(blocks.push(block)) == blocks_view(blocks).push(block@),
{
    assert(blocks_view(blocks.push(block)) =~= blocks_view(blocks).push(block@));
}

/// The models of the blocks of a document, in order.
pub open spec fn blocks_view<T>(blocks: Seq<Block<T>>) -> Seq<BlockModel<T>> {
    Seq::new(blocks.len(), |i: int| blocks[i]@)
}

} // verus!
