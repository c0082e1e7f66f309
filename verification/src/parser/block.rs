//! The block classifier: the indentation of a block and the scanner that
//! reads it.

use vstd::prelude::*;
use vstd::string::*;
use crate::ast::block::{Block, BlockModel};
use crate::chars::{chars_of, count_leading_spaces, leading_spaces, line_span, starts_with};
use crate::error::{end_of_input, ParseError, ParseErrorKind, ParseErrorModel};
use crate::extension::{
    fits, hook_of, lemma_replay_fits, recorded, replay, within, Asked, CosyParserExtension, Hook,
};
use crate::parser::code::{code_block, code_block_of, headed_span};
use crate::parser::cursor::advance;
use crate::parser::line::{line_block, line_of};
use crate::parser::outcome::{block_cursor_step, block_step_outcome};
use crate::parser::quote::{quote_block, quote_of};
use crate::parser::table::{table_block, table_of};
use crate::tokens::{CODE_PREFIX, GT, TABLE_PREFIX};

verus! {

/// The block that `s` starts with after its indentation: a code block where
/// `s` starts with `code:`, else a table where it starts with `table:`,
/// else a quote where it starts with `>`, and else a line.
pub open spec fn classified_block<T>(hook: Hook<T>, base: int, s: Seq<char>, indent: nat) -> Result<
    (BlockModel<T>, int),
    ParseErrorModel,
> {
    if CODE_PREFIX@.is_prefix_of(s) {
        code_block(s, indent)
    } else if TABLE_PREFIX@.is_prefix_of(s) {
        table_block(hook, base, s, indent)
    } else if s.len() > 0 && s[0] == GT {
        quote_block(hook, base, s, indent)
    } else {
        line_block(hook, base, s, indent)
    }
}

/// The number of characters that the block takes up which starts `s` after
/// an indentation of `indent` spaces.
pub open spec fn classified_span(s: Seq<char>, indent: nat) -> int {
    if CODE_PREFIX@.is_prefix_of(s) {
        headed_span(s, CODE_PREFIX@.len() as int, indent)
    } else if TABLE_PREFIX@.is_prefix_of(s) {
        headed_span(s, TABLE_PREFIX@.len() as int, indent)
    } else if s.len() > 0 && s[0] == GT {
        1 + line_span(s.skip(1))
    } else {
        line_span(s)
    }
}

/// The number of characters that the first block of `s` takes up, its
/// indentation included. It depends on the layout of `s` alone: on its
/// leading spaces, its literal prefixes and its newlines.
pub open spec fn block_span(s: Seq<char>) -> int {
    leading_spaces(s) + classified_span(s.skip(leading_spaces(s)), leading_spaces(s) as nat)
}

/// The first block of `s` and the number of characters it takes up, its
/// indentation included. The indentation is the number of spaces in front
/// of the block.
pub open spec fn block_step<T>(hook: Hook<T>, base: int, s: Seq<char>) -> Result<
    (BlockModel<T>, int),
    ParseErrorModel,
> {
    let n = leading_spaces(s);
    if s.len() == 0 {
        Err(end_of_input(0))
    } else {
        match classified_block(hook, base + n, s.skip(n), n as nat) {
            Ok((block, used)) => Ok((block, n + used)),
            Err(e) => Err(e.shifted(n)),
        }
    }
}

/// Reads the first block of `s`, which starts at position `base` of the
/// input: the block and the number of characters it takes up.
pub(crate) fn block_of<E: CosyParserExtension>(
    s: &[char],
    extension: &E,
    Ghost(base): Ghost<int>,
) -> (out: (Result<(Block<E::Output>, usize), ParseError>, Ghost<Asked<E::Output>>))
    ensures
        recorded(extension, out.1@, base, base + s@.len()),
        forall|hook: Hook<E::Output>| #[trigger]
            fits(hook, out.1@) ==> block_step_outcome(out.0) == block_step(hook, base, s@),
        s@.len() == 0 ==> (out.0 matches Err(e) && e@ == end_of_input(0)),
        out.0 matches Ok((block, used)) ==> (0 < used <= s@.len() && used == block_span(s@)
            && block.indent == leading_spaces(s@) && !(block.content is Custom) && within(
            out.1@,
            base,
            base + used,
        )),
        s@.len() > 0 ==> (out.0 matches Err(e) ==> e.kind == ParseErrorKind::UnterminatedDelimiter
            && e.position < s@.len()),
{
    if s.len() == 0 {
        return (
            Err(ParseError { kind: ParseErrorKind::UnexpectedEndOfInput, position: 0 }),
            Ghost(Map::empty()),
        );
    }
    let indent = count_leading_spaces(s);
    let rest = &s[indent..s.len()];
    assert(rest@ == s@.skip(indent as int));
    let (r, Ghost(asked)) = if starts_with(rest, CODE_PREFIX) {
        (code_block_of::<E::Output>(rest, indent), Ghost(Map::empty()))
    } else if starts_with(rest, TABLE_PREFIX) {
        table_of(rest, extension, indent, Ghost(base + indent))
    } else if rest.len() > 0 && rest[0] == GT {
        quote_of(rest, extension, indent, Ghost(base + indent))
    } else {
        line_of(rest, extension, indent, Ghost(base + indent))
    };
    match r {
        Ok((block, used)) => (Ok((block, indent + used)), Ghost(asked)),
        Err(e) => (Err(e.shifted(indent)), Ghost(asked)),
    }
}

/// Reads the block at the cursor: its indentation, then the code block,
/// table, quote or line that follows. The cursor moves past the block; on
/// failure it stays. At the end of the input there is no block to read.
///
/// The block is that of the grammar for the answers that the hook gave:
/// for some hook in general, and for the hook of `extension` where that is
/// known to be the function it names. Its indentation and the number of
/// characters it takes up depend on the layout of the input alone.
pub fn parse_block<'s, E: CosyParserExtension>(input: &mut &'s str, extension: &E) -> (r: Result<
    Block<E::Output>,
    ParseError,
>)
    ensures
        exists|hook: Hook<E::Output>|
            block_cursor_step(r, old(input)@, final(input)@) == #[trigger] block_step(
                hook,
                0,
                old(input)@,
            ),
        E::obeys_hook_spec() ==> block_cursor_step(r, old(input)@, final(input)@) == block_step(
            hook_of(extension),
            0,
            old(input)@,
        ),
        old(input)@.len() == 0 ==> (r matches Err(e) && e@ == end_of_input(0)),
        r matches Ok(block) ==> (block.indent == leading_spaces(old(input)@) && !(block.content
            is Custom) && final(input)@ == old(input)@.skip(block_span(old(input)@))
            && final(input)@.len() < old(input)@.len()),
        old(input)@.len() > 0 ==> (r matches Err(e) ==> e.kind
            == ParseErrorKind::UnterminatedDelimiter && e.position < old(input)@.len()),
        r is Err ==> final(input)@ == old(input)@,
{
    let chars = chars_of(*input);
    let (step, Ghost(asked)) = block_of(chars.as_slice(), extension, Ghost(0));
    let r = match step {
        Ok((block, used)) => {
            advance(input, used, chars.len());
            Ok(block)
        },
        Err(e) => Err(e),
    };
    proof {
        lemma_replay_fits(asked);
        assert(block_cursor_step(r, old(input)@, input@) == block_step(
            replay(asked),
            0,
            old(input)@,
        ));
    }
    r
}

} // verus!
