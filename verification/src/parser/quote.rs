//! The quote parser: a `>` and the rest of its line as inline nodes.

use vstd::prelude::*;
use vstd::string::*;
use crate::ast::block::{Block, BlockContent, BlockContentModel, BlockModel};
use crate::chars::{chars_of, find_char, line_len, line_span};
use crate::error::{no_match, ParseError, ParseErrorKind, ParseErrorModel};
use crate::extension::{
    fits, hook_of, lemma_replay_fits, recorded, replay, within, Asked, CosyParserExtension, Hook,
};
use crate::parser::cursor::advance;
use crate::parser::grammar::inline_nodes;
use crate::parser::node::nodes_of;
use crate::parser::outcome::{block_cursor_step, block_step_outcome};
use crate::tokens::GT;

verus! {

/// The number of characters in front of the text of a quote whose line,
/// after the `>`, is `line`: one where the line starts with a space, which
/// is not part of the text, and else none.
pub open spec fn quote_gap(line: Seq<char>) -> int {
    if line.len() > 0 && line[0] == ' ' {
        1
    } else {
        0
    }
}

/// The quote block that `s` starts with, at indent `indent`, and the number
/// of characters it takes up: the `>`, the rest of the line and its newline.
pub open spec fn quote_block<T>(hook: Hook<T>, base: int, s: Seq<char>, indent: nat) -> Result<
    (BlockModel<T>, int),
    ParseErrorModel,
> {
    let rest = s.skip(1);
    let line = rest.take(line_len(rest));
    if s.len() == 0 || s[0] != GT {
        Err(no_match(0))
    } else {
        match inline_nodes(hook, base + 1 + quote_gap(line), line.skip(quote_gap(line))) {
            Ok(nodes) => Ok(
                (BlockModel { indent, content: BlockContentModel::Quote(nodes) }, 1 + line_span(rest)),
            ),
            Err(e) => Err(e.shifted(1 + quote_gap(line))),
        }
    }
}

/// Reads the quote block that `s` starts with at position `base` of the
/// input, at indent `indent`: the block and the number of characters it
/// takes up.
pub(crate) fn quote_of<E: CosyParserExtension>(
    s: &[char],
    extension: &E,
    indent: usize,
    Ghost(base): Ghost<int>,
) -> (out: (Result<(Block<E::Output>, usize), ParseError>, Ghost<Asked<E::Output>>))
    ensures
        recorded(extension, out.1@, base, base + s@.len()),
        forall|hook: Hook<E::Output>| #[trigger]
            fits(hook, out.1@) ==> block_step_outcome(out.0) == quote_block(
                hook,
                base,
                s@,
                indent as nat,
            ),
        s@.len() == 0 || s@[0] != GT ==> (out.0 matches Err(e) && e@ == no_match(0)),
        out.0 matches Ok((block, used)) ==> (block.indent == indent && block.content is Quote
            && s@.len() > 0 && s@[0] == GT && used == 1 + line_span(s@.skip(1)) && 0 < used
            <= s@.len() && within(out.1@, base, base + used)),
        out.0 matches Err(e) ==> (e.position < s@.len() || e@ == no_match(0)),
        s@.len() > 0 && s@[0] == GT ==> (out.0 matches Err(e) ==> e.kind
            == ParseErrorKind::UnterminatedDelimiter),
{
    if s.len() == 0 || s[0] != GT {
        return (
            Err(ParseError { kind: ParseErrorKind::NoAlternativeMatched, position: 0 }),
            Ghost(Map::empty()),
        );
    }
    let rest = &s[1..s.len()];
    assert(rest@ == s@.skip(1));
    let len = find_char(rest, '\n');
    let line = &rest[0..len];
    assert(line@ == rest@.take(len as int));
    let span = if len < rest.len() {
        len + 1
    } else {
        len
    };
    let gap: usize = if len > 0 && line[0] == ' ' {
        1
    } else {
        0
    };
    let text = &line[gap..len];
    assert(text@ == line@.skip(gap as int));
    let (nodes, Ghost(asked)) = nodes_of(text, extension, Ghost(base + 1 + gap));
    match nodes {
        Ok(nodes) => (
            Ok((Block { indent, content: BlockContent::Quote(nodes) }, 1 + span)),
            Ghost(asked),
        ),
        Err(e) => (Err(e.shifted(1 + gap)), Ghost(asked)),
    }
}

/// Reads the quote at the cursor as a block at indent `indent`: a single
/// line that starts with `>`. The cursor moves past the line and its
/// newline; on failure it stays.
///
/// The block is that of the grammar for the answers that the hook gave:
/// for some hook in general, and for the hook of `extension` where that is
/// known to be the function it names.
pub fn parse_quote<'s, E: CosyParserExtension>(
    input: &mut &'s str,
    extension: &E,
    indent: usize,
) -> (r: Result<Block<E::Output>, ParseError>)
    ensures
        exists|hook: Hook<E::Output>|
            block_cursor_step(r, old(input)@, final(input)@) == #[trigger] quote_block(
                hook,
                0,
                old(input)@,
                indent as nat,
            ),
        E::obeys_hook_spec() ==> block_cursor_step(r, old(input)@, final(input)@) == quote_block(
            hook_of(extension),
            0,
            old(input)@,
            indent as nat,
        ),
        old(input)@.len() == 0 || old(input)@[0] != GT ==> (r matches Err(e) && e@ == no_match(0)),
        r matches Ok(block) ==> (block.indent == indent && block.content is Quote && final(input)@
            == old(input)@.skip(1 + line_span(old(input)@.skip(1)))),
        r matches Err(e) ==> (final(input)@ == old(input)@ && (e@ == no_match(0) || e.kind
            == ParseErrorKind::UnterminatedDelimiter && e.position < old(input)@.len())),
{
    let chars = chars_of(*input);
    let (step, Ghost(asked)) = quote_of(chars.as_slice(), extension, indent, Ghost(0));
    let r = match step {
        Ok((block, used)) => {
            advance(input, used, chars.len());
            Ok(block)
        },
        Err(e) => Err(e),
    };
    proof {
        lemma_replay_fits(asked);
        assert(block_cursor_step(r, old(input)@, input@) == quote_block(
            replay(asked),
            0,
            old(input)@,
            indent as nat,
        ));
    }
    r
}

} // verus!
