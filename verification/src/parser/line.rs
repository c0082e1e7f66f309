//! The line parser: the rest of the current line as inline nodes.

use vstd::prelude::*;
use vstd::string::*;
use crate::ast::block::{Block, BlockContent, BlockContentModel, BlockModel};
use crate::chars::{chars_of, find_char, line_len, line_span};
use crate::error::{ParseError, ParseErrorKind, ParseErrorModel};
use crate::extension::{
    fits, hook_of, lemma_replay_fits, recorded, replay, within, Asked, CosyParserExtension, Hook,
};
use crate::parser::cursor::advance;
use crate::parser::grammar::inline_nodes;
use crate::parser::node::nodes_of;
use crate::parser::outcome::{block_cursor_step, block_step_outcome};

verus! {

/// The line block that `s` starts with, at indent `indent`, and the number
/// of characters it takes up: the first line of `s` with its newline.
pub open spec fn line_block<T>(hook: Hook<T>, base: int, s: Seq<char>, indent: nat) -> Result<
    (BlockModel<T>, int),
    ParseErrorModel,
> {
    match inline_nodes(hook, base, s.take(line_len(s))) {
        Ok(nodes) => Ok((BlockModel { indent, content: BlockContentModel::Line(nodes) }, line_span(s))),
        Err(e) => Err(e),
    }
}

/// Reads the line block that `s` starts with at position `base` of the
/// input, at indent `indent`: the block and the number of characters it
/// takes up.
pub(crate) fn line_of<E: CosyParserExtension>(
    s: &[char],
    extension: &E,
    indent: usize,
    Ghost(base): Ghost<int>,
) -> (out: (Result<(Block<E::Output>, usize), ParseError>, Ghost<Asked<E::Output>>))
    ensures
        recorded(extension, out.1@, base, base + s@.len()),
        forall|hook: Hook<E::Output>| #[trigger]
            fits(hook, out.1@) ==> block_step_outcome(out.0) == line_block(
                hook,
                base,
                s@,
                indent as nat,
            ),
        out.0 matches Ok((block, used)) ==> (block.indent == indent && block.content is Line
            && used == line_span(s@) && used <= s@.len() && (s@.len() > 0 ==> used > 0) && within(
            out.1@,
            base,
            base + used,
        )),
        out.0 matches Err(e) ==> (e.kind == ParseErrorKind::UnterminatedDelimiter && e.position
            < s@.len()),
{
    let len = find_char(s, '\n');
    let line = &s[0..len];
    assert(line@ == s@.take(len as int));
    let span = if len < s.len() {
        len + 1
    } else {
        len
    };
    let (nodes, Ghost(asked)) = nodes_of(line, extension, Ghost(base));
    match nodes {
        Ok(nodes) => (Ok((Block { indent, content: BlockContent::Line(nodes) }, span)), Ghost(asked)),
        Err(e) => (Err(e), Ghost(asked)),
    }
}

/// Reads the rest of the current line as a line block at indent `indent`.
/// The cursor moves past the line and its newline; on failure it stays.
///
/// The block is that of the grammar for the answers that the hook gave:
/// for some hook in general, and for the hook of `extension` where that is
/// known to be the function it names.
pub fn parse_line<'s, E: CosyParserExtension>(
    input: &mut &'s str,
    extension: &E,
    indent: usize,
) -> (r: Result<Block<E::Output>, ParseError>)
    ensures
        exists|hook: Hook<E::Output>|
            block_cursor_step(r, old(input)@, final(input)@) == #[trigger] line_block(
                hook,
                0,
                old(input)@,
                indent as nat,
            ),
        E::obeys_hook_spec() ==> block_cursor_step(r, old(input)@, final(input)@) == line_block(
            hook_of(extension),
            0,
            old(input)@,
            indent as nat,
        ),
        r matches Ok(block) ==> (block.indent == indent && block.content is Line && final(input)@
            == old(input)@.skip(line_span(old(input)@))),
        r matches Err(e) ==> (final(input)@ == old(input)@ && e.kind
            == ParseErrorKind::UnterminatedDelimiter && e.position < old(input)@.len()),
{
    let chars = chars_of(*input);
    let (step, Ghost(asked)) = line_of(chars.as_slice(), extension, indent, Ghost(0));
    let r = match step {
        Ok((block, used)) => {
            advance(input, used, chars.len());
            Ok(block)
        },
        Err(e) => Err(e),
    };
    proof {
        lemma_replay_fits(asked);
        assert(block_cursor_step(r, old(input)@, input@) == line_block(
            replay(asked),
            0,
            old(input)@,
            indent as nat,
        ));
    }
    r
}

} // verus!
