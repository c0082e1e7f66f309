//! The inline grammar as a function from a span of text to its nodes.
//!
//! A span is a line, a table cell, the body of a decoration or the label of
//! a link. It is read from left to right: a `$` or a backtick opens a span
//! that its next occurrence closes, a `[` opens a bracket that the next `]`
//! closes, and anything else starts a run of plain text.
//!
//! The functions take the extension's bracket hook as a mathematical
//! function, and with each span the position `base` at which it starts in
//! the input, which is where the hook learns the position of a bracket
//! from.

use vstd::prelude::*;
use crate::ast::node::{LinkModel, NodeModel};
use crate::chars::{first_in, leading_whitespace, lemma_first_in, lemma_trim, trim};
use crate::error::{no_match, unterminated, ParseErrorModel};
use crate::extension::Hook;
use crate::parser::text::text_len;
use crate::tokens::{decoration_char, BACKTICK, DOLLAR, ICON_SUFFIX, LBRACKET, RBRACKET};
use crate::url::{image_url_like, url_like};

verus! {

/// For a span `s` that opens a delimiter with its first character: the
/// index of the first `close` after it, if there is one.
pub open spec fn closing_index(s: Seq<char>, close: char) -> Option<int> {
    let k = 1 + first_in(s.skip(1), set![close]);
    if 0 < s.len() && k < s.len() {
        Some(k)
    } else {
        None
    }
}

/// The index of the space that ends the markers of a decoration, where
/// `content` is one: it starts with a decoration character, holds a space,
/// and everything before its first space is a decoration character.
pub open spec fn decoration_split(content: Seq<char>) -> Option<int> {
    let sp = first_in(content, set![' ']);
    if content.len() > 0 && decoration_char(content[0]) && sp < content.len() && (forall|i: int|
        0 <= i < sp ==> decoration_char(#[trigger] content[i])) {
        Some(sp)
    } else {
        None
    }
}

/// The node that the built-in rules give for the text between a pair of
/// brackets:
///
/// - mathematics, trimmed, where the text starts with `$`;
/// - a decoration where it starts with decoration characters up to its
///   first space, with what follows that space as its nodes;
/// - an icon where it ends in `.icon`;
/// - where it holds a space: a labelled link if the trimmed text before or
///   after the first space is an address, the other being the label, and
///   else the page of that name;
/// - without a space: an image, an address or the page of that name.
pub open spec fn builtin_bracket_node<T>(hook: Hook<T>, base: int, content: Seq<char>) -> Result<
    NodeModel<T>,
    ParseErrorModel,
>
    decreases content.len(), 0int,
{
    let sp = first_in(content, set![' ']);
    let left = content.take(sp);
    let right = content.skip(sp + 1);
    if content.len() > 0 && content[0] == DOLLAR {
        Ok(NodeModel::Math(trim(content.skip(1))))
    } else if decoration_split(content) is Some {
        proof {
            lemma_first_in(content, set![' ']);
        }
        match inline_nodes(hook, base + sp + 1, right) {
            Ok(nodes) => Ok(NodeModel::Decoration { decos: left, nodes }),
            Err(e) => Err(e.shifted(sp + 1)),
        }
    } else if ICON_SUFFIX@.is_suffix_of(content) {
        Ok(NodeModel::Icon { name: content.take(content.len() - ICON_SUFFIX@.len()), count: 1 })
    } else if sp < content.len() {
        proof {
            lemma_first_in(content, set![' ']);
            lemma_trim(left);
            lemma_trim(right);
        }
        if url_like(trim(left)) {
            match inline_nodes(hook, base + sp + 1 + leading_whitespace(right), trim(right)) {
                Ok(label) => Ok(NodeModel::Link(LinkModel::WithLabel { href: trim(left), label })),
                Err(e) => Err(e.shifted(sp + 1 + leading_whitespace(right))),
            }
        } else if url_like(trim(right)) {
            match inline_nodes(hook, base + leading_whitespace(left), trim(left)) {
                Ok(label) => Ok(NodeModel::Link(LinkModel::WithLabel { href: trim(right), label })),
                Err(e) => Err(e.shifted(leading_whitespace(left))),
            }
        } else {
            Ok(NodeModel::Link(LinkModel::Page(content)))
        }
    } else if image_url_like(content) {
        Ok(NodeModel::Image(content))
    } else if url_like(content) {
        Ok(NodeModel::Link(LinkModel::Url(content)))
    } else {
        Ok(NodeModel::Link(LinkModel::Page(content)))
    }
}

/// The node for the text between a pair of brackets, given the answer of
/// the extension's hook for that text: the value that the hook gave,
/// whatever the built-in rules would make of the text, or else what they
/// make of it.
pub open spec fn answered_bracket_node<T>(
    hook: Hook<T>,
    base: int,
    content: Seq<char>,
    answer: Option<T>,
) -> Result<NodeModel<T>, ParseErrorModel>
    decreases content.len(), 1int,
{
    match answer {
        Some(v) => Ok(NodeModel::Custom(v)),
        None => builtin_bracket_node(hook, base, content),
    }
}

/// The node of the bracket that `s` opens with and the number of characters
/// up to and including its `]`, given the answer of the extension's hook
/// for the text between the two.
pub open spec fn answered_bracket<T>(hook: Hook<T>, base: int, s: Seq<char>, answer: Option<T>) -> Result<
    (NodeModel<T>, int),
    ParseErrorModel,
>
    decreases s.len(), 0int,
{
    match closing_index(s, RBRACKET) {
        Some(k) => {
            proof {
                lemma_first_in(s.skip(1), set![RBRACKET]);
            }
            match answered_bracket_node(hook, base + 1, s.subrange(1, k), answer) {
                Ok(node) => Ok((node, k + 1)),
                Err(e) => Err(e.shifted(1)),
            }
        },
        None => Err(unterminated(0)),
    }
}

/// The answer of the hook for the bracket that `s` opens with.
pub open spec fn bracket_answer<T>(hook: Hook<T>, base: int, s: Seq<char>) -> Option<T> {
    match closing_index(s, RBRACKET) {
        Some(k) => hook(base, s.subrange(1, k)),
        None => None,
    }
}

/// The first node of the non-empty span `s` and the number of characters
/// it takes up.
pub open spec fn inline_step<T>(hook: Hook<T>, base: int, s: Seq<char>) -> Result<
    (NodeModel<T>, int),
    ParseErrorModel,
>
    decreases s.len(), 1int,
{
    if s.len() == 0 {
        Err(no_match(0))
    } else if s[0] == DOLLAR {
        match closing_index(s, DOLLAR) {
            Some(k) => Ok((NodeModel::Math(s.subrange(1, k)), k + 1)),
            None => Err(unterminated(0)),
        }
    } else if s[0] == BACKTICK {
        match closing_index(s, BACKTICK) {
            Some(k) => Ok((NodeModel::InlineCode(s.subrange(1, k)), k + 1)),
            None => Err(unterminated(0)),
        }
    } else if s[0] == LBRACKET {
        answered_bracket(hook, base, s, bracket_answer(hook, base, s))
    } else {
        Ok((NodeModel::Text(s.take(text_len(s))), text_len(s)))
    }
}

/// The nodes of the span `s`, or the first failure in it. Every node takes
/// up at least one character, so the span is used up node by node.
pub open spec fn inline_nodes<T>(hook: Hook<T>, base: int, s: Seq<char>) -> Result<
    Seq<NodeModel<T>>,
    ParseErrorModel,
>
    decreases s.len(), 2int,
{
    if s.len() == 0 {
        Ok(Seq::empty())
    } else {
        match inline_step(hook, base, s) {
            Err(e) => Err(e),
            Ok((node, used)) => {
                if 0 < used <= s.len() {
                    match inline_nodes(hook, base + used, s.skip(used)) {
                        Ok(rest) => Ok(seq![node] + rest),
                        Err(e) => Err(e.shifted(used)),
                    }
                } else {
                    Err(no_match(0))
                }
            },
        }
    }
}

} // verus!
