//! A parser for a line-oriented wiki markup: bracketed links and decorations,
//! code fences, tables and quotes, with a hook for custom bracket syntax.
//!
//! [`parse`] turns a text into a [`Document`]: a sequence of blocks, each a
//! line, a code block, a table or a quote, whose inline content is a
//! sequence of nodes. A [`CosyParserExtension`] is asked first about the
//! text of every bracket and may put a value of its own in its place.
//!
//! What the parser returns is stated over a mathematical model of the
//! grammar: `parser::document` and the functions it is made of give, for a
//! text and the answers of the hook, the blocks that the text stands for.
//! `parser::laws` holds what follows for every text.

pub mod ast;
pub mod chars;
pub mod error;
pub mod extension;
pub mod parser;
pub mod tokens;
pub mod url;

pub use ast::{Block, BlockContent, CodeBlockMeta, Document, Link, Node};
pub use error::{ParseError, ParseErrorKind};
pub use extension::CosyParserExtension;
pub use parser::block::parse_block;
pub use parser::bracket::{classify_bracket, parse_bracket};
pub use parser::code::parse_code_block;
pub use parser::code_inline::{parse_inline_code, parse_math};
pub use parser::line::parse_line;
pub use parser::node::parse_nodes;
pub use parser::parse;
pub use parser::quote::parse_quote;
pub use parser::table::parse_table;
pub use parser::text::parse_text;
pub use url::{infer_url_kind, is_image_url, is_url, UrlKind};
