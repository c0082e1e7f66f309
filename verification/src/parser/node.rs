//! The inline node parser: the nodes of a span of text.

use vstd::prelude::*;
use vstd::string::*;
use crate::ast::node::{lemma_nodes_view_push, nodes_view, Node, NodeModel};
use crate::chars::{chars_of, find_char, lemma_first_in, string_of};
use crate::error::{ParseError, ParseErrorKind};
use crate::extension::{
    fits, hook_of, lemma_fits_both, lemma_replay_fits, recorded, replay, within, Asked,
    CosyParserExtension, Hook,
};
use crate::parser::bracket::bracket_of;
use crate::parser::cursor::advance;
use crate::parser::grammar::{closing_index, inline_nodes, inline_step};
use crate::parser::outcome::{nodes_outcome, resume, step_outcome};
use crate::parser::text::{markers, scan_text, text_len};
use crate::tokens::{BACKTICK, DOLLAR, LBRACKET};

verus! {

/// For a span that opens a delimiter with its first character: the index of
/// the first `close` after it, if there is one.
pub(crate) fn find_closing(s: &[char], close: char) -> (r: Option<usize>)
    requires
        s@.len() > 0,
    ensures
        r matches Some(k) ==> (closing_index(s@, close) == Some(k as int) && 0 < k < s@.len()),
        r is None ==> closing_index(s@, close) is None,
{
    let rest = &s[1..s.len()];
    assert(rest@ == s@.skip(1));
    let k = find_char(rest, close);
    if k < rest.len() {
        Some(k + 1)
    } else {
        None
    }
}

/// Reads the first node of the non-empty span `s`, which starts at position
/// `base` of the input: the node and the number of characters it takes up.
pub(crate) fn step_of<E: CosyParserExtension>(
    s: &[char],
    extension: &E,
    Ghost(base): Ghost<int>,
) -> (out: (Result<(Node<E::Output>, usize), ParseError>, Ghost<Asked<E::Output>>))
    requires
        s@.len() > 0,
    ensures
        recorded(extension, out.1@, base, base + s@.len()),
        out.0 matches Ok((_, used)) ==> (0 < used <= s@.len() && within(
            out.1@,
            base,
            base + used,
        )),
        forall|hook: Hook<E::Output>| #[trigger]
            fits(hook, out.1@) ==> step_outcome(out.0) == inline_step(hook, base, s@),
        out.0 matches Err(e) ==> (e.kind == ParseErrorKind::UnterminatedDelimiter && e.position
            < s@.len()),
    decreases s@.len(), 3int,
{
    let c = s[0];
    if c == DOLLAR {
        match find_closing(s, DOLLAR) {
            Some(k) => (Ok((Node::Math(string_of(&s[1..k])), k + 1)), Ghost(Map::empty())),
            None => (
                Err(ParseError { kind: ParseErrorKind::UnterminatedDelimiter, position: 0 }),
                Ghost(Map::empty()),
            ),
        }
    } else if c == BACKTICK {
        match find_closing(s, BACKTICK) {
            Some(k) => (Ok((Node::InlineCode(string_of(&s[1..k])), k + 1)), Ghost(Map::empty())),
            None => (
                Err(ParseError { kind: ParseErrorKind::UnterminatedDelimiter, position: 0 }),
                Ghost(Map::empty()),
            ),
        }
    } else if c == LBRACKET {
        bracket_of(s, extension, Ghost(base))
    } else {
        let k = scan_text(s);
        proof {
            lemma_first_in(s@, markers());
        }
        assert(s@.subrange(0, k as int) == s@.take(text_len(s@)));
        (Ok((Node::Text(string_of(&s[0..k])), k)), Ghost(Map::empty()))
    }
}

/// Reads the nodes of the span `s`, which starts at position `base` of the
/// input. With the nodes comes the record of the brackets that the hook was
/// asked about.
pub(crate) fn nodes_of<E: CosyParserExtension>(
    s: &[char],
    extension: &E,
    Ghost(base): Ghost<int>,
) -> (out: (Result<Vec<Node<E::Output>>, ParseError>, Ghost<Asked<E::Output>>))
    ensures
        recorded(extension, out.1@, base, base + s@.len()),
        forall|hook: Hook<E::Output>| #[trigger]
            fits(hook, out.1@) ==> nodes_outcome(out.0) == inline_nodes(hook, base, s@),
        out.0 matches Err(e) ==> (e.kind == ParseErrorKind::UnterminatedDelimiter && e.position
            < s@.len()),
    decreases s@.len(), 4int,
{
    let mut nodes: Vec<Node<E::Output>> = Vec::new();
    let mut pos: usize = 0;
    let n = s.len();
    let ghost mut asked: Asked<E::Output> = Map::empty();
    proof {
        assert(s@.skip(0) =~= s@);
        assert forall|hook: Hook<E::Output>| #[trigger] fits(hook, asked) implies inline_nodes(
            hook,
            base,
            s@,
        ) == resume(nodes_view(nodes@), 0, inline_nodes(hook, base, s@.skip(0))) by {
            match inline_nodes(hook, base, s@) {
                Ok(rest) => {
                    assert(nodes_view(nodes@) + rest =~= rest);
                },
                Err(e) => {},
            }
        }
    }
    while pos < n
        invariant
            pos <= n,
            n == s@.len(),
            recorded(extension, asked, base, base + pos),
            forall|hook: Hook<E::Output>| #[trigger]
                fits(hook, asked) ==> inline_nodes(hook, base, s@) == resume(
                    nodes_view(nodes@),
                    pos as int,
                    inline_nodes(hook, base + pos, s@.skip(pos as int)),
                ),
        decreases n - pos,
    {
        let rest = &s[pos..n];
        assert(rest@ == s@.skip(pos as int));
        let (step, Ghost(more)) = step_of(rest, extension, Ghost(base + pos));
        let ghost before = asked;
        proof {
            asked = before.union_prefer_right(more);
        }
        match step {
            Ok((node, used)) => {
                proof {
                    lemma_nodes_view_push(nodes@, node);
                    assert(rest@.skip(used as int) =~= s@.skip(pos + used));
                    lemma_fits_both(hook_of(extension), before, more, base, base + pos, base + pos + used);
                    assert forall|hook: Hook<E::Output>| #[trigger]
                        fits(hook, asked) implies inline_nodes(hook, base, s@) == resume(
                        nodes_view(nodes@.push(node)),
                        pos + used,
                        inline_nodes(hook, base + pos + used, s@.skip(pos + used)),
                    ) by {
                        lemma_fits_both(hook, before, more, base, base + pos, base + pos + used);
                        match inline_nodes(hook, base + pos + used, s@.skip(pos + used)) {
                            Ok(tail) => {
                                assert(nodes_view(nodes@) + (seq![node@] + tail) =~= nodes_view(
                                    nodes@,
                                ).push(node@) + tail);
                            },
                            Err(e) => {},
                        }
                    }
                }
                nodes.push(node);
                pos = pos + used;
            },
            Err(e) => {
                proof {
                    lemma_fits_both(hook_of(extension), before, more, base, base + pos, base + n);
                    assert forall|hook: Hook<E::Output>| #[trigger]
                        fits(hook, asked) implies inline_nodes(hook, base, s@) == Err::<
                        Seq<NodeModel<E::Output>>,
                        _,
                    >(e@.shifted(pos as int)) by {
                        lemma_fits_both(hook, before, more, base, base + pos, base + n);
                    }
                }
                return (Err(e.shifted(pos)), Ghost(asked));
            },
        }
    }
    proof {
        assert(s@.skip(pos as int).len() == 0);
        assert(nodes_view(nodes@) + Seq::<NodeModel<E::Output>>::empty() =~= nodes_view(nodes@));
    }
    (Ok(nodes), Ghost(asked))
}

/// Reads the span at the cursor to its end. On success the cursor stands at
/// the end of the input; on failure it stays.
///
/// The nodes are those of the grammar for the answers that the hook gave:
/// for some hook in general, and for the hook of `extension` where that is
/// known to be the function it names.
pub fn parse_nodes<'s, E: CosyParserExtension>(input: &mut &'s str, extension: &E) -> (r: Result<
    Vec<Node<E::Output>>,
    ParseError,
>)
    ensures
        exists|hook: Hook<E::Output>|
            nodes_outcome(r) == #[trigger] inline_nodes(hook, 0, old(input)@),
        E::obeys_hook_spec() ==> nodes_outcome(r) == inline_nodes(
            hook_of(extension),
            0,
            old(input)@,
        ),
        r is Ok ==> final(input)@.len() == 0,
        r matches Err(e) ==> (final(input)@ == old(input)@ && e.kind
            == ParseErrorKind::UnterminatedDelimiter && e.position < old(input)@.len()),
{
    let chars = chars_of(*input);
    let (r, Ghost(asked)) = nodes_of(chars.as_slice(), extension, Ghost(0));
    proof {
        lemma_replay_fits(asked);
        assert(nodes_outcome(r) == inline_nodes(replay(asked), 0, old(input)@));
    }
    match r {
        Ok(nodes) => {
            advance(input, chars.len(), chars.len());
            Ok(nodes)
        },
        Err(e) => Err(e),
    }
}

} // verus!
