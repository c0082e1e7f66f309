//! The parsing engine, from the text scanner up to the document parser.

pub mod block;
pub mod bracket;
pub mod code;
pub mod code_inline;
pub mod cursor;
pub mod grammar;
pub mod laws;
pub mod line;
pub mod node;
pub mod outcome;
pub mod quote;
pub mod table;
pub mod text;

use vstd::prelude::*;
use vstd::string::*;
use crate::ast::block::{blocks_view, lemma_blocks_view_push, Block, BlockModel};
use crate::chars::{chars_of, leading_spaces};
use crate::error::{no_match, ParseError, ParseErrorKind, ParseErrorModel};
use crate::extension::{
    fits, hook_of, lemma_fits_both, lemma_replay_fits, recorded, replay, Asked, CosyParserExtension,
    Hook,
};
use self::block::{block_of, block_span, block_step};
use self::cursor::advance;
use self::outcome::{document_outcome, resume};

verus! {

/// The blocks of the input `s`, in source order, or the first failure in
/// it. Every block takes up at least one character, so the input is used
/// up block by block.
pub open spec fn document<T>(hook: Hook<T>, base: int, s: Seq<char>) -> Result<
    Seq<BlockModel<T>>,
    ParseErrorModel,
>
    decreases s.len(),
{
    if s.len() == 0 {
        Ok(Seq::empty())
    } else {
        match block_step(hook, base, s) {
            Err(e) => Err(e),
            Ok((block, used)) => {
                if 0 < used <= s.len() {
                    match document(hook, base + used, s.skip(used)) {
                        Ok(rest) => Ok(seq![block] + rest),
                        Err(e) => Err(e.shifted(used)),
                    }
                } else {
                    Err(no_match(0))
                }
            },
        }
    }
}

/// The indentation of each block of `s`, in order. It depends on the layout
/// of `s` alone.
pub open spec fn block_indents(s: Seq<char>) -> Seq<int>
    decreases s.len(),
{
    if s.len() > 0 && 0 < block_span(s) <= s.len() {
        seq![leading_spaces(s)] + block_indents(s.skip(block_span(s)))
    } else {
        Seq::empty()
    }
}

/// The indentation of each of `blocks`, in order.
pub open spec fn indents_of<T>(blocks: Seq<Block<T>>) -> Seq<int> {
    Seq::new(blocks.len(), |i: int| blocks[i].indent as int)
}

/// Reads the blocks of `s`, which starts at position `base` of the input.
/// With the blocks comes the record of the brackets that the hook was asked
/// about.
pub(crate) fn blocks_of<E: CosyParserExtension>(
    s: &[char],
    extension: &E,
    Ghost(base): Ghost<int>,
) -> (out: (Result<Vec<Block<E::Output>>, ParseError>, Ghost<Asked<E::Output>>))
    ensures
        recorded(extension, out.1@, base, base + s@.len()),
        forall|hook: Hook<E::Output>| #[trigger]
            fits(hook, out.1@) ==> document_outcome(out.0) == document(hook, base, s@),
        out.0 matches Ok(blocks) ==> indents_of(blocks@) == block_indents(s@),
        out.0 matches Err(e) ==> (e.kind == ParseErrorKind::UnterminatedDelimiter && e.position
            < s@.len()),
{
    let n = s.len();
    let mut blocks: Vec<Block<E::Output>> = Vec::new();
    let mut pos: usize = 0;
    let ghost mut asked: Asked<E::Output> = Map::empty();
    proof {
        assert(s@.skip(0) =~= s@);
        assert forall|hook: Hook<E::Output>| #[trigger] fits(hook, asked) implies document(
            hook,
            base,
            s@,
        ) == resume(blocks_view(blocks@), 0, document(hook, base, s@.skip(0))) by {
            match document(hook, base, s@) {
                Ok(rest) => {
                    assert(blocks_view(blocks@) + rest =~= rest);
                },
                Err(e) => {},
            }
        }
        assert(indents_of(blocks@) + block_indents(s@) =~= block_indents(s@));
    }
    while pos < n
        invariant
            pos <= n,
            n == s@.len(),
            recorded(extension, asked, base, base + pos),
            forall|hook: Hook<E::Output>| #[trigger]
                fits(hook, asked) ==> document(hook, base, s@) == resume(
                    blocks_view(blocks@),
                    pos as int,
                    document(hook, base + pos, s@.skip(pos as int)),
                ),
            block_indents(s@) == indents_of(blocks@) + block_indents(s@.skip(pos as int)),
        decreases n - pos,
    {
        let rest = &s[pos..n];
        assert(rest@ == s@.skip(pos as int));
        let (step, Ghost(more)) = block_of(rest, extension, Ghost(base + pos));
        let ghost before = asked;
        proof {
            asked = before.union_prefer_right(more);
        }
        match step {
            Ok((block, used)) => {
                proof {
                    lemma_blocks_view_push(blocks@, block);
                    assert(rest@.skip(used as int) =~= s@.skip(pos + used));
                    assert(indents_of(blocks@) + (seq![block.indent as int] + block_indents(
                        s@.skip(pos + used),
                    )) =~= indents_of(blocks@.push(block)) + block_indents(s@.skip(pos + used)));
                    lemma_fits_both(hook_of(extension), before, more, base, base + pos, base + pos + used);
                    assert forall|hook: Hook<E::Output>| #[trigger]
                        fits(hook, asked) implies document(hook, base, s@) == resume(
                        blocks_view(blocks@.push(block)),
                        pos + used,
                        document(hook, base + pos + used, s@.skip(pos + used)),
                    ) by {
                        lemma_fits_both(hook, before, more, base, base + pos, base + pos + used);
                        match document(hook, base + pos + used, s@.skip(pos + used)) {
                            Ok(tail) => {
                                assert(blocks_view(blocks@) + (seq![block@] + tail) =~= blocks_view(
                                    blocks@,
                                ).push(block@) + tail);
                            },
                            Err(e) => {},
                        }
                    }
                }
                blocks.push(block);
                pos = pos + used;
            },
            Err(e) => {
                proof {
                    lemma_fits_both(hook_of(extension), before, more, base, base + pos, base + n);
                    assert forall|hook: Hook<E::Output>| #[trigger]
                        fits(hook, asked) implies document(hook, base, s@) == Err::<
                        Seq<BlockModel<E::Output>>,
                        _,
                    >(e@.shifted(pos as int)) by {
                        lemma_fits_both(hook, before, more, base, base + pos, base + n);
                    }
                }
                return (Err(e.shifted(pos)), Ghost(asked));
            },
        }
    }
    proof {
        assert(blocks_view(blocks@) + Seq::<BlockModel<E::Output>>::empty() =~= blocks_view(
            blocks@,
        ));
        assert(indents_of(blocks@) + Seq::<int>::empty() =~= indents_of(blocks@));
    }
    (Ok(blocks), Ghost(asked))
}

/// Reads the whole input as a document: block after block until the input
/// is used up. On success the cursor stands at the end of the input; on
/// failure no document is returned and the cursor stays.
///
/// The document is that of the grammar for the answers that the hook gave:
/// for some hook in general, and for the hook of `extension` where that is
/// known to be the function it names. How many blocks there are and how
/// each is indented depends on the layout of the input alone.
pub fn parse<'s, E: CosyParserExtension>(input: &mut &'s str, extension: &E) -> (r: Result<
    Vec<Block<E::Output>>,
    ParseError,
>)
    ensures
        exists|hook: Hook<E::Output>|
            document_outcome(r) == #[trigger] document(hook, 0, old(input)@),
        E::obeys_hook_spec() ==> document_outcome(r) == document(
            hook_of(extension),
            0,
            old(input)@,
        ),
        r matches Ok(blocks) ==> (final(input)@.len() == 0 && indents_of(blocks@) == block_indents(
            old(input)@,
        )),
        r matches Err(e) ==> (final(input)@ == old(input)@ && e.kind
            == ParseErrorKind::UnterminatedDelimiter && e.position < old(input)@.len()),
{
    let chars = chars_of(*input);
    let (r, Ghost(asked)) = blocks_of(chars.as_slice(), extension, Ghost(0));
    proof {
        lemma_replay_fits(asked);
        assert(document_outcome(r) == document(replay(asked), 0, old(input)@));
    }
    match r {
        Ok(blocks) => {
            advance(input, chars.len(), chars.len());
            Ok(blocks)
        },
        Err(e) => Err(e),
    }
}

} // verus!
