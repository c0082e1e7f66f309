//! The table scanner: a `table:` header and the more deeply indented lines
//! under it, each split on tabs into cells of inline nodes.

use vstd::prelude::*;
use vstd::string::*;
use crate::ast::block::{
    lemma_row_view_push, lemma_rows_view_push, row_view, rows_view, Block, BlockContent,
    BlockContentModel, BlockModel,
};
use crate::ast::node::{nodes_view, Node, NodeModel};
use crate::chars::{
    all_but, chars_of, count_leading_spaces, find_char, first_in, leading_spaces, lemma_first_in,
    line_len, line_span, starts_with, string_of, trim, trim_slice,
};
use crate::error::{no_match, ParseError, ParseErrorKind, ParseErrorModel};
use crate::extension::{
    fits, hook_of, lemma_fits_both, lemma_replay_fits, recorded, replay, within, Asked,
    CosyParserExtension, Hook,
};
use crate::parser::code::{continuation_len, headed_span};
use crate::parser::cursor::advance;
use crate::parser::grammar::inline_nodes;
use crate::parser::node::nodes_of;
use crate::parser::outcome::{block_cursor_step, block_step_outcome, resume};
use crate::tokens::TABLE_PREFIX;

verus! {

/// The cells of one table line: the stretches between its tabs, each read
/// as inline nodes.
pub open spec fn row_cells<T>(hook: Hook<T>, base: int, line: Seq<char>) -> Result<
    Seq<Seq<NodeModel<T>>>,
    ParseErrorModel,
>
    decreases line.len(),
{
    let t = first_in(line, set!['\t']);
    match inline_nodes(hook, base, line.take(t)) {
        Err(e) => Err(e),
        Ok(cell) => {
            if t < line.len() {
                proof {
                    lemma_first_in(line, set!['\t']);
                }
                match row_cells(hook, base + t + 1, line.skip(t + 1)) {
                    Ok(cells) => Ok(seq![cell] + cells),
                    Err(e) => Err(e.shifted(t + 1)),
                }
            } else {
                Ok(seq![cell])
            }
        },
    }
}

/// The rows of a table opened at indent `k` whose first row, if any,
/// starts `s`: one row for every line up to the first whose count of
/// leading spaces is at most `k`, or up to the end of `s`.
pub open spec fn table_rows<T>(hook: Hook<T>, base: int, s: Seq<char>, k: nat) -> Result<
    Seq<Seq<Seq<NodeModel<T>>>>,
    ParseErrorModel,
>
    decreases s.len(),
{
    let n = leading_spaces(s);
    let body = s.skip(n);
    let len = line_len(body);
    if n <= k {
        Ok(Seq::empty())
    } else {
        match row_cells(hook, base + n, body.take(len)) {
            Err(e) => Err(e.shifted(n)),
            Ok(row) => {
                if len < body.len() {
                    proof {
                        lemma_first_in(s, all_but(' '));
                        lemma_first_in(body, set!['\n']);
                    }
                    match table_rows(hook, base + n + len + 1, body.skip(len + 1), k) {
                        Ok(rows) => Ok(seq![row] + rows),
                        Err(e) => Err(e.shifted(n + len + 1)),
                    }
                } else {
                    Ok(seq![row])
                }
            },
        }
    }
}

/// The table that `s` starts with, opened at indent `indent`, and the
/// number of characters it takes up.
pub open spec fn table_block<T>(hook: Hook<T>, base: int, s: Seq<char>, indent: nat) -> Result<
    (BlockModel<T>, int),
    ParseErrorModel,
> {
    let after = s.skip(TABLE_PREFIX@.len() as int);
    let start = TABLE_PREFIX@.len() + line_span(after);
    if TABLE_PREFIX@.is_prefix_of(s) {
        match table_rows(hook, base + start, after.skip(line_span(after)), indent) {
            Ok(rows) => Ok(
                (
                    BlockModel {
                        indent,
                        content: BlockContentModel::Table {
                            name: trim(after.take(line_len(after))),
                            rows,
                        },
                    },
                    headed_span(s, TABLE_PREFIX@.len() as int, indent),
                ),
            ),
            Err(e) => Err(e.shifted(start)),
        }
    } else {
        Err(no_match(0))
    }
}

/// Reads the cells of one table line, which starts at position `base` of
/// the input.
pub(crate) fn cells_of<E: CosyParserExtension>(
    line: &[char],
    extension: &E,
    Ghost(base): Ghost<int>,
) -> (out: (Result<Vec<Vec<Node<E::Output>>>, ParseError>, Ghost<Asked<E::Output>>))
    ensures
        recorded(extension, out.1@, base, base + line@.len()),
        forall|hook: Hook<E::Output>| #[trigger]
            fits(hook, out.1@) ==> match out.0 {
                Ok(cells) => row_cells(hook, base, line@) == Ok::<_, ParseErrorModel>(
                    row_view(cells@),
                ),
                Err(e) => row_cells(hook, base, line@) == Err::<Seq<Seq<NodeModel<E::Output>>>, _>(
                    e@,
                ),
            },
        out.0 matches Err(e) ==> (e.kind == ParseErrorKind::UnterminatedDelimiter && e.position
            < line@.len()),
{
    let n = line.len();
    let mut cells: Vec<Vec<Node<E::Output>>> = Vec::new();
    let mut pos: usize = 0;
    let ghost mut asked: Asked<E::Output> = Map::empty();
    proof {
        assert(line@.skip(0) =~= line@);
        assert forall|hook: Hook<E::Output>| #[trigger] fits(hook, asked) implies row_cells(
            hook,
            base,
            line@,
        ) == resume(row_view(cells@), 0, row_cells(hook, base, line@.skip(0))) by {
            match row_cells(hook, base, line@) {
                Ok(rest) => {
                    assert(row_view(cells@) + rest =~= rest);
                },
                Err(e) => {},
            }
        }
    }
    loop
        invariant
            pos <= n,
            n == line@.len(),
            recorded(extension, asked, base, base + pos),
            forall|hook: Hook<E::Output>| #[trigger]
                fits(hook, asked) ==> row_cells(hook, base, line@) == resume(
                    row_view(cells@),
                    pos as int,
                    row_cells(hook, base + pos, line@.skip(pos as int)),
                ),
        decreases n - pos,
    {
        let rest = &line[pos..n];
        assert(rest@ == line@.skip(pos as int));
        let t = find_char(rest, '\t');
        let text = &rest[0..t];
        assert(text@ == rest@.take(t as int));
        let (cell, Ghost(more)) = nodes_of(text, extension, Ghost(base + pos));
        let ghost before = asked;
        proof {
            asked = before.union_prefer_right(more);
            lemma_fits_both(hook_of(extension), before, more, base, base + pos, base + pos + t);
        }
        match cell {
            Err(e) => {
                proof {
                    assert forall|hook: Hook<E::Output>| #[trigger]
                        fits(hook, asked) implies row_cells(hook, base, line@) == Err::<
                        Seq<Seq<NodeModel<E::Output>>>,
                        _,
                    >(e@.shifted(pos as int)) by {
                        lemma_fits_both(hook, before, more, base, base + pos, base + pos + t);
                    }
                }
                return (Err(e.shifted(pos)), Ghost(asked));
            },
            Ok(cell) => {
                proof {
                    lemma_row_view_push(cells@, cell);
                    if t < rest@.len() {
                        assert(rest@.skip(t + 1) =~= line@.skip(pos + t + 1));
                    }
                    assert forall|hook: Hook<E::Output>| #[trigger]
                        fits(hook, asked) implies row_cells(hook, base, line@) == (if t < rest@.len() {
                        resume(
                            row_view(cells@.push(cell)),
                            pos + t + 1,
                            row_cells(hook, base + pos + t + 1, line@.skip(pos + t + 1)),
                        )
                    } else {
                        Ok::<_, ParseErrorModel>(row_view(cells@.push(cell)))
                    }) by {
                        lemma_fits_both(hook, before, more, base, base + pos, base + pos + t);
                        if t < rest@.len() {
                            match row_cells(hook, base + pos + t + 1, line@.skip(pos + t + 1)) {
                                Ok(tail) => {
                                    assert(row_view(cells@) + (seq![nodes_view(cell@)] + tail)
                                        =~= row_view(cells@).push(nodes_view(cell@)) + tail);
                                },
                                Err(e) => {},
                            }
                        } else {
                            assert(row_view(cells@) + seq![nodes_view(cell@)] =~= row_view(
                                cells@,
                            ).push(nodes_view(cell@)));
                        }
                    }
                }
                cells.push(cell);
                if t < rest.len() {
                    pos = pos + t + 1;
                } else {
                    return (Ok(cells), Ghost(asked));
                }
            },
        }
    }
}

/// Reads the rows of a table opened at indent `k` whose first row, if any,
/// starts `s` at position `base` of the input: the rows and the number of
/// characters they take up.
pub(crate) fn rows_of<E: CosyParserExtension>(
    s: &[char],
    extension: &E,
    k: usize,
    Ghost(base): Ghost<int>,
) -> (out: (Result<(Vec<Vec<Vec<Node<E::Output>>>>, usize), ParseError>, Ghost<Asked<E::Output>>))
    ensures
        recorded(extension, out.1@, base, base + s@.len()),
        forall|hook: Hook<E::Output>| #[trigger]
            fits(hook, out.1@) ==> match out.0 {
                Ok((rows, used)) => table_rows(hook, base, s@, k as nat) == Ok::<
                    _,
                    ParseErrorModel,
                >(rows_view(rows@)),
                Err(e) => table_rows(hook, base, s@, k as nat) == Err::<
                    Seq<Seq<Seq<NodeModel<E::Output>>>>,
                    _,
                >(e@),
            },
        out.0 matches Ok((_, used)) ==> (used == continuation_len(s@, k as nat) && used <= s@.len()
            && within(out.1@, base, base + used)),
        out.0 matches Err(e) ==> (e.kind == ParseErrorKind::UnterminatedDelimiter && e.position
            < s@.len()),
{
    let n = s.len();
    let mut rows: Vec<Vec<Vec<Node<E::Output>>>> = Vec::new();
    let mut pos: usize = 0;
    let ghost mut asked: Asked<E::Output> = Map::empty();
    proof {
        assert(s@.skip(0) =~= s@);
        assert forall|hook: Hook<E::Output>| #[trigger] fits(hook, asked) implies table_rows(
            hook,
            base,
            s@,
            k as nat,
        ) == resume(rows_view(rows@), 0, table_rows(hook, base, s@.skip(0), k as nat)) by {
            match table_rows(hook, base, s@, k as nat) {
                Ok(rest) => {
                    assert(rows_view(rows@) + rest =~= rest);
                },
                Err(e) => {},
            }
        }
    }
    loop
        invariant
            pos <= n,
            n == s@.len(),
            recorded(extension, asked, base, base + pos),
            forall|hook: Hook<E::Output>| #[trigger]
                fits(hook, asked) ==> table_rows(hook, base, s@, k as nat) == resume(
                    rows_view(rows@),
                    pos as int,
                    table_rows(hook, base + pos, s@.skip(pos as int), k as nat),
                ),
            continuation_len(s@, k as nat) == pos + continuation_len(s@.skip(pos as int), k as nat),
        decreases n - pos,
    {
        let rest = &s[pos..n];
        assert(rest@ == s@.skip(pos as int));
        let indent = count_leading_spaces(rest);
        if indent <= k {
            proof {
                assert(rows_view(rows@) + Seq::<Seq<Seq<NodeModel<E::Output>>>>::empty()
                    =~= rows_view(rows@));
            }
            return (Ok((rows, pos)), Ghost(asked));
        }
        let body = &rest[indent..rest.len()];
        assert(body@ == rest@.skip(indent as int));
        let len = find_char(body, '\n');
        let line = &body[0..len];
        assert(line@ == body@.take(len as int));
        let (row, Ghost(more)) = cells_of(line, extension, Ghost(base + pos + indent));
        let ghost before = asked;
        let ghost end = base + pos + indent + len;
        proof {
            asked = before.union_prefer_right(more);
            lemma_fits_both(hook_of(extension), before, more, base, base + pos + indent, end);
        }
        match row {
            Err(e) => {
                proof {
                    assert forall|hook: Hook<E::Output>| #[trigger]
                        fits(hook, asked) implies table_rows(hook, base, s@, k as nat) == Err::<
                        Seq<Seq<Seq<NodeModel<E::Output>>>>,
                        _,
                    >(e@.shifted(pos + indent)) by {
                        lemma_fits_both(hook, before, more, base, base + pos + indent, end);
                    }
                }
                return (Err(e.shifted(pos + indent)), Ghost(asked));
            },
            Ok(row) => {
                proof {
                    lemma_rows_view_push(rows@, row);
                    let next = body@.skip(len + 1);
                    if len < body@.len() {
                        assert(next =~= s@.skip(pos + indent + len + 1));
                    }
                    assert forall|hook: Hook<E::Output>| #[trigger]
                        fits(hook, asked) implies table_rows(hook, base, s@, k as nat) == (if len
                        < body@.len() {
                        resume(
                            rows_view(rows@.push(row)),
                            pos + indent + len + 1,
                            table_rows(hook, end + 1, s@.skip(pos + indent + len + 1), k as nat),
                        )
                    } else {
                        Ok::<_, ParseErrorModel>(rows_view(rows@.push(row)))
                    }) by {
                        lemma_fits_both(hook, before, more, base, base + pos + indent, end);
                        if len < body@.len() {
                            match table_rows(hook, end + 1, next, k as nat) {
                                Ok(tail) => {
                                    assert(rows_view(rows@) + (seq![row_view(row@)] + tail)
                                        =~= rows_view(rows@).push(row_view(row@)) + tail);
                                },
                                Err(e) => {},
                            }
                        } else {
                            assert(rows_view(rows@) + seq![row_view(row@)] =~= rows_view(
                                rows@,
                            ).push(row_view(row@)));
                        }
                    }
                }
                rows.push(row);
                if len < body.len() {
                    pos = pos + indent + len + 1;
                } else {
                    return (Ok((rows, n)), Ghost(asked));
                }
            },
        }
    }
}

/// Reads the table that `s` starts with at position `base` of the input,
/// opened at indent `indent`: the block and the number of characters it
/// takes up.
pub(crate) fn table_of<E: CosyParserExtension>(
    s: &[char],
    extension: &E,
    indent: usize,
    Ghost(base): Ghost<int>,
) -> (out: (Result<(Block<E::Output>, usize), ParseError>, Ghost<Asked<E::Output>>))
    ensures
        recorded(extension, out.1@, base, base + s@.len()),
        forall|hook: Hook<E::Output>| #[trigger]
            fits(hook, out.1@) ==> block_step_outcome(out.0) == table_block(
                hook,
                base,
                s@,
                indent as nat,
            ),
        !TABLE_PREFIX@.is_prefix_of(s@) ==> (out.0 matches Err(e) && e@ == no_match(0)),
        out.0 matches Ok((block, used)) ==> (block.indent == indent && block.content is Table
            && TABLE_PREFIX@.is_prefix_of(s@) && 0 < used <= s@.len() && used == headed_span(
            s@,
            TABLE_PREFIX@.len() as int,
            indent as nat,
        ) && within(out.1@, base, base + used)),
        out.0 matches Err(e) ==> (e.position < s@.len() || e@ == no_match(0)),
        TABLE_PREFIX@.is_prefix_of(s@) ==> (out.0 matches Err(e) ==> e.kind
            == ParseErrorKind::UnterminatedDelimiter),
{
    if !starts_with(s, TABLE_PREFIX) {
        return (
            Err(ParseError { kind: ParseErrorKind::NoAlternativeMatched, position: 0 }),
            Ghost(Map::empty()),
        );
    }
    let n = s.len();
    let p = TABLE_PREFIX.unicode_len();
    proof {
        reveal_strlit("table:");
    }
    let after = &s[p..n];
    assert(after@ == s@.skip(p as int));
    let len = find_char(after, '\n');
    let (_, name) = trim_slice(&after[0..len]);
    assert(after@.subrange(0, len as int) == after@.take(len as int));
    let span = if len < after.len() {
        len + 1
    } else {
        len
    };
    let body = &after[span..after.len()];
    assert(body@ == after@.skip(span as int));
    let (rows, Ghost(asked)) = rows_of(body, extension, indent, Ghost(base + p + span));
    match rows {
        Ok((rows, used)) => (
            Ok(
                (
                    Block { indent, content: BlockContent::Table { name: string_of(name), rows } },
                    p + span + used,
                ),
            ),
            Ghost(asked),
        ),
        Err(e) => (Err(e.shifted(p + span)), Ghost(asked)),
    }
}

/// Reads the table at the cursor, opened at indent `indent`: the `table:`
/// header line and the lines under it that are indented by more than
/// `indent` spaces. The cursor moves past the table; on failure it stays.
///
/// The block is that of the grammar for the answers that the hook gave:
/// for some hook in general, and for the hook of `extension` where that is
/// known to be the function it names.
pub fn parse_table<'s, E: CosyParserExtension>(
    input: &mut &'s str,
    extension: &E,
    indent: usize,
) -> (r: Result<Block<E::Output>, ParseError>)
    ensures
        exists|hook: Hook<E::Output>|
            block_cursor_step(r, old(input)@, final(input)@) == #[trigger] table_block(
                hook,
                0,
                old(input)@,
                indent as nat,
            ),
        E::obeys_hook_spec() ==> block_cursor_step(r, old(input)@, final(input)@) == table_block(
            hook_of(extension),
            0,
            old(input)@,
            indent as nat,
        ),
        !TABLE_PREFIX@.is_prefix_of(old(input)@) ==> (r matches Err(e) && e@ == no_match(0)),
        r matches Ok(block) ==> (block.indent == indent && block.content is Table && final(input)@
            == old(input)@.skip(headed_span(old(input)@, TABLE_PREFIX@.len() as int, indent as nat))),
        r matches Err(e) ==> (final(input)@ == old(input)@ && (e@ == no_match(0) || e.kind
            == ParseErrorKind::UnterminatedDelimiter && e.position < old(input)@.len())),
{
    let chars = chars_of(*input);
    let (step, Ghost(asked)) = table_of(chars.as_slice(), extension, indent, Ghost(0));
    let r = match step {
        Ok((block, used)) => {
            advance(input, used, chars.len());
            Ok(block)
        },
        Err(e) => Err(e),
    };
    proof {
        lemma_replay_fits(asked);
        assert(block_cursor_step(r, old(input)@, input@) == table_block(
            replay(asked),
            0,
            old(input)@,
            indent as nat,
        ));
    }
    r
}

} // verus!
