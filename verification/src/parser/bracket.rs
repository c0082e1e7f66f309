//! The bracket content analyzer: what the text between `[` and the next `]`
//! stands for.

use vstd::prelude::*;
use vstd::string::*;
use crate::ast::node::{lemma_decoration_view, lemma_label_view, Link, Node, NodeModel};
use crate::chars::{
    chars_of, ends_with, find_char, lemma_first_in, lemma_trim, string_of, trim_slice,
};
use crate::error::{no_match, ParseError, ParseErrorKind};
use crate::extension::{
    fits, hook_of, lemma_fits_both, lemma_replay_fits, recorded, replay, within, Asked,
    CosyParserExtension, Hook,
};
use crate::parser::cursor::advance;
use crate::parser::grammar::{
    answered_bracket_node, bracket_answer, builtin_bracket_node, decoration_split, inline_step,
};
use crate::parser::node::nodes_of;
use crate::parser::outcome::{cursor_step, node_outcome, step_outcome};
use crate::tokens::{decoration_char, is_decoration_char, DOLLAR, ICON_SUFFIX, LBRACKET, RBRACKET};
use crate::url::{is_image_url_chars, is_url_chars};

verus! {

/// Whether every character of `s` marks a decoration.
fn all_decoration(s: &[char]) -> (r: bool)
    ensures
        r == forall|i: int| 0 <= i < s@.len() ==> decoration_char(#[trigger] s@[i]),
{
    let mut i: usize = 0;
    while i < s.len()
        invariant
            i <= s@.len(),
            forall|j: int| 0 <= j < i ==> decoration_char(#[trigger] s@[j]),
        decreases s@.len() - i,
    {
        if !is_decoration_char(s[i]) {
            return false;
        }
        i += 1;
    }
    true
}

/// The index of the space that ends the markers of a decoration, where
/// `content` is one.
fn split_decoration(content: &[char]) -> (r: Option<usize>)
    ensures
        r matches Some(sp) ==> (decoration_split(content@) == Some(sp as int) && sp
            < content@.len()),
        r is None ==> decoration_split(content@) is None,
{
    let n = content.len();
    let sp = find_char(content, ' ');
    if n > 0 && is_decoration_char(content[0]) && sp < n && all_decoration(&content[0..sp]) {
        assert forall|i: int| 0 <= i < sp implies decoration_char(#[trigger] content@[i]) by {
            assert(content@[i] == content@.subrange(0, sp as int)[i]);
        }
        Some(sp)
    } else {
        proof {
            if n > 0 && decoration_char(content@[0]) && sp < n {
                let i = choose|i: int|
                    0 <= i < sp && !decoration_char(
                        #[trigger] content@.subrange(0, sp as int)[i],
                    );
                assert(content@[i] == content@.subrange(0, sp as int)[i]);
            }
        }
        None
    }
}

/// Applies the built-in rules to the text between a pair of brackets,
/// which starts at position `base` of the input. With the node comes the
/// record of the brackets that the hook was asked about on the way.
pub(crate) fn builtin_bracket<E: CosyParserExtension>(
    content: &[char],
    extension: &E,
    Ghost(base): Ghost<int>,
) -> (out: (Result<Node<E::Output>, ParseError>, Ghost<Asked<E::Output>>))
    ensures
        recorded(extension, out.1@, base, base + content@.len()),
        forall|hook: Hook<E::Output>| #[trigger]
            fits(hook, out.1@) ==> node_outcome(out.0) == builtin_bracket_node(
                hook,
                base,
                content@,
            ),
        out.0 matches Err(e) ==> (e.kind == ParseErrorKind::UnterminatedDelimiter && e.position
            < content@.len()),
    decreases content@.len(), 0int,
{
    let n = content.len();
    let ghost none: Asked<E::Output> = Map::empty();
    if n > 0 && content[0] == DOLLAR {
        let (_, body) = trim_slice(&content[1..n]);
        return (Ok(Node::Math(string_of(body))), Ghost(none));
    }
    let sp = find_char(content, ' ');
    proof {
        lemma_first_in(content@, set![' ']);
    }
    if let Some(split) = split_decoration(content) {
        let body = &content[sp + 1..n];
        let (nodes, Ghost(asked)) = nodes_of(body, extension, Ghost(base + sp + 1));
        return match nodes {
            Ok(nodes) => {
                let decos = string_of(&content[0..sp]);
                proof {
                    lemma_decoration_view(decos, nodes);
                }
                (Ok(Node::Decoration { decos, nodes }), Ghost(asked))
            },
            Err(e) => (Err(e.shifted(sp + 1)), Ghost(asked)),
        };
    }
    if ends_with(content, ICON_SUFFIX) {
        let m = ICON_SUFFIX.unicode_len();
        return (Ok(Node::Icon { name: string_of(&content[0..n - m]), count: 1 }), Ghost(none));
    }
    if sp < n {
        let left = &content[0..sp];
        let right = &content[sp + 1..n];
        let (left_start, left_text) = trim_slice(left);
        let (right_start, right_text) = trim_slice(right);
        proof {
            lemma_trim(left@);
            lemma_trim(right@);
        }
        if is_url_chars(left_text) {
            let (label, Ghost(asked)) = nodes_of(
                right_text,
                extension,
                Ghost(base + sp + 1 + right_start),
            );
            match label {
                Ok(label) => {
                    let href = string_of(left_text);
                    proof {
                        lemma_label_view(href, label);
                    }
                    (Ok(Node::Link(Link::WithLabel { href, label })), Ghost(asked))
                },
                Err(e) => (Err(e.shifted(sp + 1 + right_start)), Ghost(asked)),
            }
        } else if is_url_chars(right_text) {
            let (label, Ghost(asked)) = nodes_of(left_text, extension, Ghost(base + left_start));
            match label {
                Ok(label) => {
                    let href = string_of(right_text);
                    proof {
                        lemma_label_view(href, label);
                    }
                    (Ok(Node::Link(Link::WithLabel { href, label })), Ghost(asked))
                },
                Err(e) => (Err(e.shifted(left_start)), Ghost(asked)),
            }
        } else {
            (Ok(Node::Link(Link::Page(string_of(content)))), Ghost(none))
        }
    } else if is_image_url_chars(content) {
        (Ok(Node::Image(string_of(content))), Ghost(none))
    } else if is_url_chars(content) {
        (Ok(Node::Link(Link::Url(string_of(content)))), Ghost(none))
    } else {
        (Ok(Node::Link(Link::Page(string_of(content)))), Ghost(none))
    }
}

/// The node for the text between a pair of brackets, which starts at
/// position `base` of the input, given what the hook made of that text.
pub(crate) fn answered_bracket_of<E: CosyParserExtension>(
    content: &[char],
    hook_output: Option<E::Output>,
    extension: &E,
    Ghost(base): Ghost<int>,
) -> (out: (Result<Node<E::Output>, ParseError>, Ghost<Asked<E::Output>>))
    ensures
        recorded(extension, out.1@, base, base + content@.len()),
        forall|hook: Hook<E::Output>| #[trigger]
            fits(hook, out.1@) ==> node_outcome(out.0) == answered_bracket_node(
                hook,
                base,
                content@,
                hook_output,
            ),
        hook_output matches Some(v) ==> (out.0 matches Ok(node) && node@ == NodeModel::Custom(v)),
        out.0 matches Err(e) ==> (e.kind == ParseErrorKind::UnterminatedDelimiter && e.position
            < content@.len()),
    decreases content@.len(), 1int,
{
    match hook_output {
        Some(v) => (Ok(Node::Custom(v)), Ghost(Map::empty())),
        None => builtin_bracket(content, extension, Ghost(base)),
    }
}

/// The node for the text between a pair of brackets, given what the
/// extension's hook made of that text: the hook's value where it gave one,
/// whatever the built-in rules would say, and else what they say.
///
/// The built-in rules read the body of a decoration and the label of a
/// link as spans of their own. For the brackets in those, `extension` is
/// asked; the result is what the grammar gives for the answers it gets.
pub fn classify_bracket<E: CosyParserExtension>(
    content: &[char],
    hook_output: Option<E::Output>,
    extension: &E,
) -> (r: Result<Node<E::Output>, ParseError>)
    ensures
        hook_output matches Some(v) ==> (r matches Ok(node) && node@ == NodeModel::Custom(v)),
        exists|hook: Hook<E::Output>|
            node_outcome(r) == #[trigger] answered_bracket_node(hook, 0, content@, hook_output),
        E::obeys_hook_spec() ==> node_outcome(r) == answered_bracket_node(
            hook_of(extension),
            0,
            content@,
            hook_output,
        ),
        r matches Err(e) ==> (e.kind == ParseErrorKind::UnterminatedDelimiter && e.position
            < content@.len()),
{
    let ghost answer = hook_output;
    let (r, Ghost(asked)) = answered_bracket_of(content, hook_output, extension, Ghost(0));
    proof {
        lemma_replay_fits(asked);
        assert(node_outcome(r) == answered_bracket_node(replay(asked), 0, content@, answer));
    }
    r
}

/// Reads the bracket that `s` opens with at position `base` of the input:
/// the node it stands for and the number of characters up to and including
/// the closing `]`.
pub(crate) fn bracket_of<E: CosyParserExtension>(
    s: &[char],
    extension: &E,
    Ghost(base): Ghost<int>,
) -> (out: (Result<(Node<E::Output>, usize), ParseError>, Ghost<Asked<E::Output>>))
    requires
        s@.len() > 0,
        s@[0] == LBRACKET,
    ensures
        recorded(extension, out.1@, base, base + s@.len()),
        out.0 matches Ok((_, used)) ==> (0 < used <= s@.len() && within(
            out.1@,
            base,
            base + used,
        )),
        forall|hook: Hook<E::Output>| #[trigger]
            fits(hook, out.1@) ==> step_outcome(out.0) == inline_step(hook, base, s@),
        out.0 matches Err(e) ==> (e.kind == ParseErrorKind::UnterminatedDelimiter && e.position
            < s@.len()),
    decreases s@.len(), 2int,
{
    let rest = &s[1..s.len()];
    let k = find_char(rest, RBRACKET);
    assert(rest@ == s@.skip(1));
    proof {
        lemma_first_in(rest@, set![RBRACKET]);
    }
    if k >= rest.len() {
        return (
            Err(ParseError { kind: ParseErrorKind::UnterminatedDelimiter, position: 0 }),
            Ghost(Map::empty()),
        );
    }
    let content = &rest[0..k];
    assert(content@ == s@.subrange(1, 1 + k));
    let text = string_of(content);
    let hook_output = extension.parse_bracket(text.as_str());
    let ghost answer = hook_output;
    let ghost here: Asked<E::Output> = map![base => (content@, answer)];
    let (node, Ghost(inside)) = answered_bracket_of(content, hook_output, extension, Ghost(base + 1));
    let ghost asked = here.union_prefer_right(inside);
    let r = match node {
        Ok(node) => Ok((node, k + 2)),
        Err(e) => Err(e.shifted(1)),
    };
    proof {
        assert(within(here, base, base + 1));
        lemma_fits_both(hook_of(extension), here, inside, base, base + 1, base + k + 1);
        assert(fits(hook_of(extension), here) <== E::obeys_hook_spec());
        assert forall|hook: Hook<E::Output>| #[trigger] fits(hook, asked) implies step_outcome(r)
            == inline_step(hook, base, s@) by {
            lemma_fits_both(hook, here, inside, base, base + 1, base + k + 1);
            assert(here.dom().contains(base));
            assert(bracket_answer(hook, base, s@) == answer);
        }
    }
    (r, Ghost(asked))
}

/// Reads the bracket at the cursor: `[`, the text up to the next `]`, and
/// that `]`. The cursor moves past the bracket; on failure it stays.
///
/// The node is that of the grammar for the answer that the hook gave: for
/// some hook in general, and for the hook of `extension` where that is
/// known to be the function it names.
pub fn parse_bracket<'s, E: CosyParserExtension>(input: &mut &'s str, extension: &E) -> (r: Result<
    Node<E::Output>,
    ParseError,
>)
    ensures
        old(input)@.len() > 0 && old(input)@[0] == LBRACKET ==> exists|hook: Hook<E::Output>|
            cursor_step(r, old(input)@, final(input)@) == #[trigger] inline_step(
                hook,
                0,
                old(input)@,
            ),
        E::obeys_hook_spec() && old(input)@.len() > 0 && old(input)@[0] == LBRACKET
            ==> cursor_step(r, old(input)@, final(input)@) == inline_step(
            hook_of(extension),
            0,
            old(input)@,
        ),
        old(input)@.len() == 0 || old(input)@[0] != LBRACKET ==> (r matches Err(e) && e@
            == no_match(0)),
        r matches Err(e) ==> (final(input)@ == old(input)@ && (e@ == no_match(0) || e.kind
            == ParseErrorKind::UnterminatedDelimiter && e.position < old(input)@.len())),
        r is Ok ==> final(input)@.len() < old(input)@.len(),
{
    let chars = chars_of(*input);
    if chars.len() == 0 || chars[0] != LBRACKET {
        return Err(ParseError { kind: ParseErrorKind::NoAlternativeMatched, position: 0 });
    }
    let (step, Ghost(asked)) = bracket_of(chars.as_slice(), extension, Ghost(0));
    let r = match step {
        Ok((node, used)) => {
            advance(input, used, chars.len());
            Ok(node)
        },
        Err(e) => Err(e),
    };
    proof {
        lemma_replay_fits(asked);
        assert(cursor_step(r, old(input)@, input@) == inline_step(replay(asked), 0, old(input)@));
    }
    r
}

} // verus!
