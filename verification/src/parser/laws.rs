//! What holds of the grammar as a whole.

use vstd::prelude::*;
use crate::ast::block::{BlockContentModel, BlockModel};
use crate::ast::node::NodeModel;
use crate::chars::{
    all_but, first_in, leading_spaces, leading_whitespace, lemma_first_in, lemma_first_in_unique,
    lemma_trim, line_len, line_span, trim,
};
use crate::error::{ParseErrorKind, ParseErrorModel};
use crate::extension::Hook;
use crate::parser::block::{block_span, block_step, classified_block, classified_span};
use crate::parser::code::{continuation_len, continuation_lines, lemma_continuation_len};
use crate::parser::document;
use crate::parser::grammar::{
    answered_bracket_node, builtin_bracket_node, closing_index, decoration_split, inline_nodes,
    inline_step,
};

use crate::parser::quote::quote_gap;
use crate::parser::table::{row_cells, table_rows};
use crate::parser::text::markers;
use crate::tokens::{BACKTICK, CODE_PREFIX, DOLLAR, GT, LBRACKET, RBRACKET, TABLE_PREFIX};

verus! {

/// Whether `e` reports an unterminated delimiter at a position of `s` that
/// holds one of the three opening characters.
pub open spec fn points_at_opener(s: Seq<char>, e: ParseErrorModel) -> bool {
    &&& e.kind == ParseErrorKind::UnterminatedDelimiter
    &&& 0 <= e.position < s.len()
    &&& markers().contains(s[e.position])
}

/// The built-in bracket rules fail only on an unterminated delimiter, and
/// the failure points at the character that opened it.
pub proof fn lemma_builtin_bracket_failure<T>(hook: Hook<T>, base: int, content: Seq<char>)
    ensures
        builtin_bracket_node(hook, base, content) matches Err(e) ==> points_at_opener(content, e),
    decreases content.len(), 0int,
{
    let sp = first_in(content, set![' ']);
    let left = content.take(sp);
    let right = content.skip(sp + 1);
    lemma_first_in(content, set![' ']);
    if content.len() > 0 && content[0] == DOLLAR {
    } else if decoration_split(content) is Some {
        lemma_inline_nodes_failure(hook, base + sp + 1, right);
    } else if sp < content.len() {
        lemma_trim(left);
        lemma_trim(right);
        let right_base = base + sp + 1 + leading_whitespace(right);
        let left_base = base + leading_whitespace(left);
        lemma_inline_nodes_failure(hook, right_base, trim(right));
        lemma_inline_nodes_failure(hook, left_base, trim(left));
        if let Err(e) = inline_nodes(hook, right_base, trim(right)) {
            assert(trim(right)[e.position] == right[leading_whitespace(right) + e.position]);
        }
        if let Err(e) = inline_nodes(hook, left_base, trim(left)) {
            assert(trim(left)[e.position] == left[leading_whitespace(left) + e.position]);
        }
    }
}

/// Every alternative of the inline grammar takes up at least one character,
/// and fails only on an unterminated delimiter.
pub proof fn lemma_inline_step<T>(hook: Hook<T>, base: int, s: Seq<char>)
    requires
        s.len() > 0,
    ensures
        match inline_step(hook, base, s) {
            Ok((_, used)) => 0 < used <= s.len(),
            Err(e) => points_at_opener(s, e),
        },
    decreases s.len(), 1int,
{
    lemma_first_in(s.skip(1), set![DOLLAR]);
    lemma_first_in(s.skip(1), set![BACKTICK]);
    lemma_first_in(s.skip(1), set![RBRACKET]);
    lemma_first_in(s, markers());
    if s[0] == LBRACKET {
        if let Some(k) = closing_index(s, RBRACKET) {
            let content = s.subrange(1, k);
            lemma_builtin_bracket_failure(hook, base + 1, content);
            if let Err(e) = builtin_bracket_node(hook, base + 1, content) {
                assert(content[e.position] == s[1 + e.position]);
            }
        }
    } else if s[0] != DOLLAR && s[0] != BACKTICK {
        assert(!markers().contains(s[0]));
    }
}

/// A span fails only on an unterminated delimiter, and the failure points
/// at the character that opened it. So a span in which every opened
/// delimiter is closed has nodes, and a span without any of the three
/// opening characters always has.
pub proof fn lemma_inline_nodes_failure<T>(hook: Hook<T>, base: int, s: Seq<char>)
    ensures
        inline_nodes(hook, base, s) matches Err(e) ==> points_at_opener(s, e),
    decreases s.len(), 2int,
{
    if s.len() > 0 {
        lemma_inline_step(hook, base, s);
        if let Ok((_, used)) = inline_step(hook, base, s) {
            let rest = s.skip(used);
            lemma_inline_nodes_failure(hook, base + used, rest);
            if let Err(e) = inline_nodes(hook, base + used, rest) {
                assert(rest[e.position] == s[used + e.position]);
            }
        }
    }
}

/// The cells of a table line fail only on an unterminated delimiter in one
/// of them.
pub proof fn lemma_row_cells_failure<T>(hook: Hook<T>, base: int, line: Seq<char>)
    ensures
        row_cells(hook, base, line) matches Err(e) ==> points_at_opener(line, e),
    decreases line.len(),
{
    let t = first_in(line, set!['\t']);
    lemma_first_in(line, set!['\t']);
    let cell = line.take(t);
    lemma_inline_nodes_failure(hook, base, cell);
    if let Err(e) = inline_nodes(hook, base, cell) {
        assert(cell[e.position] == line[e.position]);
    } else if t < line.len() {
        let rest = line.skip(t + 1);
        lemma_row_cells_failure(hook, base + t + 1, rest);
        if let Err(e) = row_cells(hook, base + t + 1, rest) {
            assert(rest[e.position] == line[t + 1 + e.position]);
        }
    }
}

/// The rows of a table fail only on an unterminated delimiter in one of
/// their cells.
pub proof fn lemma_table_rows_failure<T>(hook: Hook<T>, base: int, s: Seq<char>, k: nat)
    ensures
        table_rows(hook, base, s, k) matches Err(e) ==> points_at_opener(s, e),
    decreases s.len(),
{
    let n = leading_spaces(s);
    let body = s.skip(n);
    let len = line_len(body);
    lemma_first_in(s, all_but(' '));
    lemma_first_in(body, set!['\n']);
    if n > k {
        let line = body.take(len);
        lemma_row_cells_failure(hook, base + n, line);
        if let Err(e) = row_cells(hook, base + n, line) {
            assert(line[e.position] == s[n + e.position]);
        } else if len < body.len() {
            let rest = body.skip(len + 1);
            lemma_table_rows_failure(hook, base + n + len + 1, rest, k);
            if let Err(e) = table_rows(hook, base + n + len + 1, rest, k) {
                assert(rest[e.position] == s[n + len + 1 + e.position]);
            }
        }
    }
}

/// A block after its indentation takes up at least one character of a
/// non-empty input, as many as its layout says, and fails only on an
/// unterminated delimiter. It is never a block of the extension.
pub proof fn lemma_classified_block<T>(hook: Hook<T>, base: int, s: Seq<char>, indent: nat)
    ensures
        match classified_block(hook, base, s, indent) {
            Ok((block, used)) => 0 <= used <= s.len() && (s.len() > 0 ==> used > 0) && used
                == classified_span(s, indent) && block.indent == indent && !(block.content
                is Custom),
            Err(e) => points_at_opener(s, e),
        },
{
    reveal_strlit("code:");
    reveal_strlit("table:");
    lemma_first_in(s, set!['\n']);
    if CODE_PREFIX@.is_prefix_of(s) {
        let after = s.skip(CODE_PREFIX@.len() as int);
        lemma_first_in(after, set!['\n']);
        lemma_continuation_len(after.skip(line_span(after)), indent);
    } else if TABLE_PREFIX@.is_prefix_of(s) {
        let after = s.skip(TABLE_PREFIX@.len() as int);
        lemma_first_in(after, set!['\n']);
        let body = after.skip(line_span(after));
        let start = TABLE_PREFIX@.len() + line_span(after);
        lemma_continuation_len(body, indent);
        lemma_table_rows_failure(hook, base + start, body, indent);
        if let Err(e) = table_rows(hook, base + start, body, indent) {
            assert(body[e.position] == s[start + e.position]);
        }
    } else if s.len() > 0 && s[0] == GT {
        let rest = s.skip(1);
        lemma_first_in(rest, set!['\n']);
        let line = rest.take(line_len(rest));
        let text = line.skip(quote_gap(line));
        lemma_inline_nodes_failure(hook, base + 1 + quote_gap(line), text);
        if let Err(e) = inline_nodes(hook, base + 1 + quote_gap(line), text) {
            assert(text[e.position] == s[1 + quote_gap(line) + e.position]);
        }
    } else {
        let line = s.take(line_len(s));
        lemma_inline_nodes_failure(hook, base, line);
        if let Err(e) = inline_nodes(hook, base, line) {
            assert(line[e.position] == s[e.position]);
        }
    }
}

/// The first block of a non-empty input takes up at least one character,
/// as many as its layout says, is indented by the number of spaces in front
/// of it, is never a block of the extension, and fails only on an
/// unterminated delimiter.
pub proof fn lemma_block_step<T>(hook: Hook<T>, base: int, s: Seq<char>)
    requires
        s.len() > 0,
    ensures
        match block_step(hook, base, s) {
            Ok((block, used)) => 0 < used <= s.len() && used == block_span(s) && block.indent
                == leading_spaces(s) && !(block.content is Custom),
            Err(e) => points_at_opener(s, e),
        },
{
    let n = leading_spaces(s);
    lemma_first_in(s, all_but(' '));
    let rest = s.skip(n);
    lemma_classified_block(hook, base + n, rest, n as nat);
    if let Err(e) = classified_block(hook, base + n, rest, n as nat) {
        assert(rest[e.position] == s[n + e.position]);
    }
}

/// Parsing fails only on an unterminated delimiter, and the failure points
/// at a `[`, a `$` or a backtick of the input: the one that was opened and
/// not closed. This holds whatever the hook answers.
pub proof fn lemma_document_failure<T>(hook: Hook<T>, base: int, s: Seq<char>)
    ensures
        document(hook, base, s) matches Err(e) ==> points_at_opener(s, e),
    decreases s.len(),
{
    if s.len() > 0 {
        lemma_block_step(hook, base, s);
        if let Ok((_, used)) = block_step(hook, base, s) {
            let rest = s.skip(used);
            lemma_document_failure(hook, base + used, rest);
            if let Err(e) = document(hook, base + used, rest) {
                assert(rest[e.position] == s[used + e.position]);
            }
        }
    }
}

/// An input that holds no `[`, no `$` and no backtick parses: it has no
/// delimiter that could be left open.
pub proof fn lemma_document_without_openers<T>(hook: Hook<T>, base: int, s: Seq<char>)
    requires
        forall|i: int| 0 <= i < s.len() ==> !markers().contains(#[trigger] s[i]),
    ensures
        document(hook, base, s) is Ok,
{
    lemma_document_failure(hook, base, s);
}

/// A line without special characters is one line block with a single text
/// node that holds the line: a non-empty line without `[`, `$`, backtick or
/// newline that starts neither with a space nor with `>`, `code:` or
/// `table:`, whether or not a newline ends it.
pub proof fn lemma_plain_line<T>(hook: Hook<T>, base: int, line: Seq<char>)
    requires
        line.len() > 0,
        forall|i: int|
            0 <= i < line.len() ==> !markers().contains(#[trigger] line[i]) && line[i] != '\n',
        line[0] != ' ',
        line[0] != GT,
        !CODE_PREFIX@.is_prefix_of(line),
        !TABLE_PREFIX@.is_prefix_of(line),
    ensures
        document(hook, base, line) == Ok::<_, ParseErrorModel>(
            seq![
                BlockModel {
                    indent: 0,
                    content: BlockContentModel::Line(seq![NodeModel::<T>::Text(line)]),
                },
            ],
        ),
        document(hook, base, line.push('\n')) == document(hook, base, line),
{
    let plain = BlockModel {
        indent: 0,
        content: BlockContentModel::Line(seq![NodeModel::<T>::Text(line)]),
    };
    let n = line.len() as int;
    reveal_strlit("code:");
    reveal_strlit("table:");
    lemma_first_in_unique(line, markers(), n);
    assert(line.take(n) =~= line);
    assert(line.skip(n) =~= Seq::<char>::empty());
    assert(inline_step(hook, base, line) == Ok::<_, ParseErrorModel>(
        (NodeModel::<T>::Text(line), n),
    ));
    assert(inline_nodes(hook, base + n, line.skip(n)) == Ok::<_, ParseErrorModel>(
        Seq::<NodeModel<T>>::empty(),
    ));
    assert(seq![NodeModel::<T>::Text(line)] + Seq::<NodeModel<T>>::empty()
        =~= seq![NodeModel::<T>::Text(line)]);
    assert(inline_nodes(hook, base, line) == Ok::<_, ParseErrorModel>(
        seq![NodeModel::<T>::Text(line)],
    ));
    assert(seq![plain] + Seq::<BlockModel<T>>::empty() =~= seq![plain]);

    // The line alone.
    lemma_first_in_unique(line, all_but(' '), 0);
    lemma_first_in_unique(line, set!['\n'], n);
    assert(line.skip(0) =~= line);
    assert(block_step(hook, base, line) == Ok::<_, ParseErrorModel>((plain, n)));
    assert(document(hook, base + n, line.skip(n)) == Ok::<_, ParseErrorModel>(
        Seq::<BlockModel<T>>::empty(),
    ));

    // The line with its newline.
    let ended = line.push('\n');
    lemma_first_in_unique(ended, all_but(' '), 0);
    lemma_first_in_unique(ended, set!['\n'], n);
    assert(ended.skip(0) =~= ended);
    assert(ended.take(n) =~= line);
    assert(ended.skip(n + 1) =~= Seq::<char>::empty());
    if CODE_PREFIX@.is_prefix_of(ended) {
        assert(CODE_PREFIX@ =~= ended.subrange(0, 5));
        if n < 5 {
            assert(ended.subrange(0, 5)[n] == '\n');
            assert(false);
        }
        assert(CODE_PREFIX@ =~= line.subrange(0, 5));
    }
    if TABLE_PREFIX@.is_prefix_of(ended) {
        assert(TABLE_PREFIX@ =~= ended.subrange(0, 6));
        if n < 6 {
            assert(ended.subrange(0, 6)[n] == '\n');
            assert(false);
        }
        assert(TABLE_PREFIX@ =~= line.subrange(0, 6));
    }
    assert(block_step(hook, base, ended) == Ok::<_, ParseErrorModel>((plain, n + 1)));
    assert(document(hook, base + n + 1, ended.skip(n + 1)) == Ok::<_, ParseErrorModel>(
        Seq::<BlockModel<T>>::empty(),
    ));
}

/// The indentation of a block is the number of spaces in front of it: where
/// exactly `n` spaces start the input and a character that is not a space
/// follows them, the first block has indent `n`. A tab is such a character,
/// and is never counted.
pub proof fn lemma_indent_counts_spaces<T>(hook: Hook<T>, base: int, s: Seq<char>, n: int)
    requires
        0 <= n < s.len(),
        forall|i: int| 0 <= i < n ==> #[trigger] s[i] == ' ',
        s[n] != ' ',
    ensures
        leading_spaces(s) == n,
        block_step(hook, base, s) matches Ok((block, used)) ==> block.indent == n,
{
    lemma_first_in_unique(s, all_but(' '), n);
    lemma_block_step(hook, base, s);
}

/// The lines of `s`: the stretches between its newlines.
pub open spec fn lines_of(s: Seq<char>) -> Seq<Seq<char>>
    decreases s.len(),
{
    if line_len(s) < s.len() {
        proof {
            lemma_first_in(s, set!['\n']);
        }
        seq![s.take(line_len(s))] + lines_of(s.skip(line_len(s) + 1))
    } else {
        seq![s]
    }
}

/// The number of lines at the start of `lines` that are indented by more
/// than `k` spaces.
pub open spec fn deeper_lines(lines: Seq<Seq<char>>, k: nat) -> int
    decreases lines.len(),
{
    if lines.len() > 0 && leading_spaces(lines[0]) > k {
        1 + deeper_lines(lines.skip(1), k)
    } else {
        0
    }
}

/// `deeper_lines` counts a run at the start: every line of it is indented
/// by more than `k` spaces, and the line after it, if any, is not.
pub proof fn lemma_deeper_lines(lines: Seq<Seq<char>>, k: nat)
    ensures
        0 <= deeper_lines(lines, k) <= lines.len(),
        forall|i: int| 0 <= i < deeper_lines(lines, k) ==> leading_spaces(#[trigger] lines[i]) > k,
        deeper_lines(lines, k) < lines.len() ==> leading_spaces(lines[deeper_lines(lines, k)])
            <= k,
    decreases lines.len(),
{
    if lines.len() > 0 && leading_spaces(lines[0]) > k {
        let rest = lines.skip(1);
        lemma_deeper_lines(rest, k);
        assert forall|i: int| 0 <= i < deeper_lines(lines, k) implies leading_spaces(
            #[trigger] lines[i],
        ) > k by {
            if i > 0 {
                assert(lines[i] == rest[i - 1]);
            }
        }
        if deeper_lines(lines, k) < lines.len() {
            assert(lines[deeper_lines(lines, k)] == rest[deeper_lines(rest, k)]);
        }
    }
}

/// The spaces in front of an input are the spaces in front of its first
/// line, and what follows them on that line is the first line of what
/// follows them in the input.
pub proof fn lemma_first_line_indent(s: Seq<char>)
    ensures
        leading_spaces(s.take(line_len(s))) == leading_spaces(s),
        leading_spaces(s) <= line_len(s),
        line_len(s.skip(leading_spaces(s))) == line_len(s) - leading_spaces(s),
{
    let n = leading_spaces(s);
    let len = line_len(s);
    let line = s.take(len);
    lemma_first_in(s, all_but(' '));
    lemma_first_in(s, set!['\n']);
    if len < n {
        assert(set!['\n'].contains(s[len]));
        assert(!all_but(' ').contains(s[len]));
    }
    assert forall|i: int| 0 <= i < n implies !all_but(' ').contains(#[trigger] line[i]) by {
        assert(line[i] == s[i]);
    }
    if n < len {
        assert(line[n] == s[n]);
    }
    lemma_first_in_unique(line, all_but(' '), n);
    let body = s.skip(n);
    assert forall|i: int| 0 <= i < len - n implies !set!['\n'].contains(#[trigger] body[i]) by {
        assert(body[i] == s[n + i]);
    }
    if len < s.len() {
        assert(body[len - n] == s[len]);
    }
    lemma_first_in_unique(body, set!['\n'], len - n);
}

/// A block opened at indent `k` continues over every immediately following
/// line that is indented by more than `k` spaces, and ends in front of the
/// first line that is not, or at the end of the input: its lines are the
/// run of deeper lines at the start of the input, each without the spaces
/// in front of it, and what it leaves is the lines after that run.
pub proof fn lemma_continuation_follows_lines(s: Seq<char>, k: nat)
    ensures
        continuation_lines(s, k).len() == deeper_lines(lines_of(s), k),
        forall|i: int|
            0 <= i < deeper_lines(lines_of(s), k) ==> #[trigger] continuation_lines(s, k)[i]
                == lines_of(s)[i].skip(leading_spaces(lines_of(s)[i])),
        deeper_lines(lines_of(s), k) < lines_of(s).len() ==> lines_of(
            s.skip(continuation_len(s, k)),
        ) == lines_of(s).skip(deeper_lines(lines_of(s), k)),
        deeper_lines(lines_of(s), k) == lines_of(s).len() ==> continuation_len(s, k) == s.len(),
    decreases s.len(),
{
    let n = leading_spaces(s);
    let len = line_len(s);
    let body = s.skip(n);
    let lines = lines_of(s);
    let m = deeper_lines(lines, k);
    lemma_first_in(s, all_but(' '));
    lemma_first_in(s, set!['\n']);
    lemma_first_line_indent(s);
    lemma_deeper_lines(lines, k);
    assert(lines[0] == s.take(len));
    assert(s.take(len).skip(n) =~= body.take(len - n));
    if n <= k {
        assert(m == 0);
        assert(s.skip(0) =~= s);
        assert(lines.skip(0) =~= lines);
    } else if len < s.len() {
        let rest = s.skip(len + 1);
        assert(body.skip(len - n + 1) =~= rest);
        lemma_continuation_follows_lines(rest, k);
        assert(lines.skip(1) =~= lines_of(rest));
        assert(m == 1 + deeper_lines(lines_of(rest), k));
        assert(continuation_lines(s, k) == seq![body.take(len - n)] + continuation_lines(rest, k));
        assert forall|i: int| 0 <= i < m implies #[trigger] continuation_lines(s, k)[i]
            == lines[i].skip(leading_spaces(lines[i])) by {
            if i > 0 {
                assert(continuation_lines(s, k)[i] == continuation_lines(rest, k)[i - 1]);
                assert(lines[i] == lines.skip(1)[i - 1]);
            }
        }
        lemma_continuation_len(rest, k);
        assert(continuation_len(s, k) == len + 1 + continuation_len(rest, k));
        assert(s.skip(len + 1 + continuation_len(rest, k)) =~= rest.skip(
            continuation_len(rest, k),
        ));
        if m < lines.len() {
            assert(lines.skip(m) =~= lines_of(rest).skip(m - 1));
        }
    } else {
        assert(body.take(len - n) =~= body);
        assert(lines =~= seq![s]);
        assert(lines.skip(1) =~= Seq::<Seq<char>>::empty());
        assert(deeper_lines(lines.skip(1), k) == 0);
        assert(m == 1);
        assert(continuation_lines(s, k) =~= seq![body]);
    }
}

/// The index in `s` at which each of the lines that continue a block starts,
/// after the spaces in front of it.
pub open spec fn continuation_starts(s: Seq<char>, k: nat) -> Seq<int>
    decreases s.len(),
{
    let n = leading_spaces(s);
    let body = s.skip(n);
    if n <= k {
        Seq::empty()
    } else if line_len(body) < body.len() {
        proof {
            lemma_first_in(s, all_but(' '));
            lemma_first_in(body, set!['\n']);
        }
        seq![n] + continuation_starts(body.skip(line_len(body) + 1), k).map_values(
            |i: int| n + line_len(body) + 1 + i,
        )
    } else {
        seq![n]
    }
}

/// A table continues as a code block does: it has one row for each of the
/// lines that continue it, made of the cells of that line.
pub proof fn lemma_table_rows_follow_lines<T>(hook: Hook<T>, base: int, s: Seq<char>, k: nat)
    ensures
        continuation_starts(s, k).len() == continuation_lines(s, k).len(),
        table_rows(hook, base, s, k) matches Ok(rows) ==> rows.len() == continuation_lines(
            s,
            k,
        ).len() && forall|i: int|
            0 <= i < rows.len() ==> row_cells(
                hook,
                base + continuation_starts(s, k)[i],
                #[trigger] continuation_lines(s, k)[i],
            ) == Ok::<_, ParseErrorModel>(rows[i]),
    decreases s.len(),
{
    let n = leading_spaces(s);
    let body = s.skip(n);
    let len = line_len(body);
    lemma_first_in(s, all_but(' '));
    lemma_first_in(body, set!['\n']);
    if n > k && len < body.len() {
        let rest = body.skip(len + 1);
        lemma_table_rows_follow_lines(hook, base + n + len + 1, rest, k);
        let lines = continuation_lines(s, k);
        let starts = continuation_starts(s, k);
        if let Ok(rows) = table_rows(hook, base, s, k) {
            assert forall|i: int| 0 <= i < rows.len() implies row_cells(
                hook,
                base + starts[i],
                #[trigger] lines[i],
            ) == Ok::<_, ParseErrorModel>(rows[i]) by {
                if i > 0 {
                    assert(lines[i] == continuation_lines(rest, k)[i - 1]);
                    assert(starts[i] == n + len + 1 + continuation_starts(rest, k)[i - 1]);
                    assert(rows[i] == table_rows(hook, base + n + len + 1, rest, k)->Ok_0[i - 1]);
                }
            }
        }
    } else if n > k {
        assert(body.take(len) =~= body);
    }
}

/// Whatever the hook answers for a bracket stands in the place of that
/// bracket, whatever the built-in rules would make of the text between the
/// `[` and the `]`.
pub proof fn lemma_extension_precedence<T>(hook: Hook<T>, base: int, s: Seq<char>, k: int, v: T)
    requires
        s.len() > 0,
        s[0] == LBRACKET,
        closing_index(s, RBRACKET) == Some(k),
        hook(base, s.subrange(1, k)) == Some(v),
    ensures
        answered_bracket_node(hook, base + 1, s.subrange(1, k), Some(v)) == Ok::<
            _,
            ParseErrorModel,
        >(NodeModel::Custom(v)),
        inline_step(hook, base, s) == Ok::<_, ParseErrorModel>((NodeModel::Custom(v), k + 1)),
{
}

/// Where a text holds no `[`, no hook is asked about it: its document is
/// the same for every hook.
pub proof fn lemma_document_without_brackets<T>(
    hook: Hook<T>,
    other: Hook<T>,
    base: int,
    s: Seq<char>,
)
    requires
        forall|i: int| 0 <= i < s.len() ==> #[trigger] s[i] != LBRACKET,
    ensures
        document(hook, base, s) == document(other, base, s),
    decreases s.len(),
{
    if s.len() > 0 {
        lemma_block_step_without_brackets(hook, other, base, s);
        lemma_block_step(hook, base, s);
        if let Ok((_, used)) = block_step(hook, base, s) {
            let rest = s.skip(used);
            assert forall|i: int| 0 <= i < rest.len() implies #[trigger] rest[i] != LBRACKET by {
                assert(rest[i] == s[used + i]);
            }
            lemma_document_without_brackets(hook, other, base + used, rest);
        }
    }
}

/// Where a span holds no `[`, its nodes are the same for every hook.
pub proof fn lemma_inline_nodes_without_brackets<T>(
    hook: Hook<T>,
    other: Hook<T>,
    base: int,
    s: Seq<char>,
)
    requires
        forall|i: int| 0 <= i < s.len() ==> #[trigger] s[i] != LBRACKET,
    ensures
        inline_nodes(hook, base, s) == inline_nodes(other, base, s),
    decreases s.len(),
{
    if s.len() > 0 {
        assert(s[0] != LBRACKET);
        assert(inline_step(hook, base, s) == inline_step(other, base, s));
        lemma_inline_step(hook, base, s);
        if let Ok((_, used)) = inline_step(hook, base, s) {
            let rest = s.skip(used);
            assert forall|i: int| 0 <= i < rest.len() implies #[trigger] rest[i] != LBRACKET by {
                assert(rest[i] == s[used + i]);
            }
            lemma_inline_nodes_without_brackets(hook, other, base + used, rest);
        }
    }
}

/// Where a table line holds no `[`, its cells are the same for every hook.
pub proof fn lemma_row_cells_without_brackets<T>(
    hook: Hook<T>,
    other: Hook<T>,
    base: int,
    line: Seq<char>,
)
    requires
        forall|i: int| 0 <= i < line.len() ==> #[trigger] line[i] != LBRACKET,
    ensures
        row_cells(hook, base, line) == row_cells(other, base, line),
    decreases line.len(),
{
    let t = first_in(line, set!['\t']);
    lemma_first_in(line, set!['\t']);
    let cell = line.take(t);
    assert forall|i: int| 0 <= i < cell.len() implies #[trigger] cell[i] != LBRACKET by {
        assert(cell[i] == line[i]);
    }
    lemma_inline_nodes_without_brackets(hook, other, base, cell);
    if t < line.len() {
        let rest = line.skip(t + 1);
        assert forall|i: int| 0 <= i < rest.len() implies #[trigger] rest[i] != LBRACKET by {
            assert(rest[i] == line[t + 1 + i]);
        }
        lemma_row_cells_without_brackets(hook, other, base + t + 1, rest);
    }
}

/// Where the lines under a table header hold no `[`, the rows are the same
/// for every hook.
pub proof fn lemma_table_rows_without_brackets<T>(
    hook: Hook<T>,
    other: Hook<T>,
    base: int,
    s: Seq<char>,
    k: nat,
)
    requires
        forall|i: int| 0 <= i < s.len() ==> #[trigger] s[i] != LBRACKET,
    ensures
        table_rows(hook, base, s, k) == table_rows(other, base, s, k),
    decreases s.len(),
{
    let n = leading_spaces(s);
    let body = s.skip(n);
    let len = line_len(body);
    lemma_first_in(s, all_but(' '));
    lemma_first_in(body, set!['\n']);
    if n > k {
        let line = body.take(len);
        assert forall|i: int| 0 <= i < line.len() implies #[trigger] line[i] != LBRACKET by {
            assert(line[i] == s[n + i]);
        }
        lemma_row_cells_without_brackets(hook, other, base + n, line);
        if len < body.len() {
            let rest = body.skip(len + 1);
            assert forall|i: int| 0 <= i < rest.len() implies #[trigger] rest[i] != LBRACKET by {
                assert(rest[i] == s[n + len + 1 + i]);
            }
            lemma_table_rows_without_brackets(hook, other, base + n + len + 1, rest, k);
        }
    }
}

/// Where a text holds no `[`, its first block is the same for every hook.
pub proof fn lemma_block_step_without_brackets<T>(
    hook: Hook<T>,
    other: Hook<T>,
    base: int,
    s: Seq<char>,
)
    requires
        forall|i: int| 0 <= i < s.len() ==> #[trigger] s[i] != LBRACKET,
    ensures
        block_step(hook, base, s) == block_step(other, base, s),
{
    let n = leading_spaces(s);
    lemma_first_in(s, all_but(' '));
    let rest = s.skip(n);
    lemma_first_in(rest, set!['\n']);
    if s.len() == 0 || CODE_PREFIX@.is_prefix_of(rest) {
    } else if TABLE_PREFIX@.is_prefix_of(rest) {
        let after = rest.skip(TABLE_PREFIX@.len() as int);
        lemma_first_in(after, set!['\n']);
        let start = TABLE_PREFIX@.len() + line_span(after);
        let body = after.skip(line_span(after));
        assert forall|i: int| 0 <= i < body.len() implies #[trigger] body[i] != LBRACKET by {
            assert(body[i] == s[n + start + i]);
        }
        lemma_table_rows_without_brackets(hook, other, base + n + start, body, n as nat);
    } else if rest.len() > 0 && rest[0] == GT {
        let tail = rest.skip(1);
        lemma_first_in(tail, set!['\n']);
        let line = tail.take(line_len(tail));
        let text = line.skip(quote_gap(line));
        assert forall|i: int| 0 <= i < text.len() implies #[trigger] text[i] != LBRACKET by {
            assert(text[i] == s[n + 1 + quote_gap(line) + i]);
        }
        lemma_inline_nodes_without_brackets(hook, other, base + n + 1 + quote_gap(line), text);
    } else {
        let line = rest.take(line_len(rest));
        assert forall|i: int| 0 <= i < line.len() implies #[trigger] line[i] != LBRACKET by {
            assert(line[i] == s[n + i]);
        }
        lemma_inline_nodes_without_brackets(hook, other, base + n, line);
    }
}

} // verus!
