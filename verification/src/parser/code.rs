//! The code block scanner: a `code:` header and the more deeply indented
//! lines under it, kept as raw text.

use vstd::prelude::*;
use vstd::string::*;
use crate::ast::block::{
    Block, BlockContent, BlockContentModel, BlockModel, CodeBlockMeta, CodeBlockMetaModel,
};
use crate::chars::{
    all_but, chars_of, count_leading_spaces, find_char, last_index, leading_spaces,
    lemma_first_in, lemma_last_index, line_len, line_span, push_char, push_chars, rfind_char,
    starts_with, string_of, trim, trim_slice,
};
use crate::error::{no_match, ParseError, ParseErrorKind, ParseErrorModel};
use crate::extension::CosyParserExtension;
use crate::parser::cursor::advance;
use crate::tokens::CODE_PREFIX;

verus! {

/// What the header line of a code fence names.
///
/// A blank header names nothing. A header that ends in `)` and holds a `(`
/// is split at its last `(` into a file name and a file type; where one of
/// the two is blank the other stands alone. Any other header is a single
/// name.
pub open spec fn code_meta(header: Seq<char>) -> CodeBlockMetaModel {
    let h = trim(header);
    let open = last_index(h, '(');
    let filename = trim(h.take(open));
    let filetype = trim(h.subrange(open + 1, h.len() - 1));
    if h.len() == 0 {
        CodeBlockMetaModel::Absent
    } else if h.last() == ')' && open >= 0 {
        if filename.len() > 0 && filetype.len() > 0 {
            CodeBlockMetaModel::Both { filename, filetype }
        } else if filename.len() > 0 {
            CodeBlockMetaModel::Either(filename)
        } else if filetype.len() > 0 {
            CodeBlockMetaModel::Either(filetype)
        } else {
            CodeBlockMetaModel::Absent
        }
    } else {
        CodeBlockMetaModel::Either(h)
    }
}

/// The lines at the start of `s` that continue a block opened at indent
/// `k`, each without its leading spaces: every line up to the first whose
/// count of leading spaces is at most `k`, or up to the end of `s`.
pub open spec fn continuation_lines(s: Seq<char>, k: nat) -> Seq<Seq<char>>
    decreases s.len(),
{
    let n = leading_spaces(s);
    let body = s.skip(n);
    if n <= k {
        Seq::empty()
    } else if line_len(body) < body.len() {
        proof {
            lemma_first_in(s, all_but(' '));
            lemma_first_in(body, set!['\n']);
        }
        seq![body.take(line_len(body))] + continuation_lines(body.skip(line_len(body) + 1), k)
    } else {
        seq![body]
    }
}

/// The number of characters that the lines of `continuation_lines` take up
/// in `s`, their leading spaces and newlines included.
pub open spec fn continuation_len(s: Seq<char>, k: nat) -> int
    decreases s.len(),
{
    let n = leading_spaces(s);
    let body = s.skip(n);
    if n <= k {
        0
    } else if line_len(body) < body.len() {
        proof {
            lemma_first_in(s, all_but(' '));
            lemma_first_in(body, set!['\n']);
        }
        n + line_len(body) + 1 + continuation_len(body.skip(line_len(body) + 1), k)
    } else {
        s.len() as int
    }
}

/// The lines joined by newlines.
pub open spec fn join_lines(lines: Seq<Seq<char>>) -> Seq<char>
    decreases lines.len(),
{
    if lines.len() == 0 {
        Seq::empty()
    } else if lines.len() == 1 {
        lines[0]
    } else {
        join_lines(lines.drop_last()) + seq!['\n'] + lines.last()
    }
}

/// The number of characters that a block takes up which starts `s` with a
/// header line after a prefix of `prefix` characters and continues over the
/// lines under it that are indented by more than `indent` spaces.
pub open spec fn headed_span(s: Seq<char>, prefix: int, indent: nat) -> int {
    let after = s.skip(prefix);
    prefix + line_span(after) + continuation_len(after.skip(line_span(after)), indent)
}

/// The code block that `s` starts with, opened at indent `indent`, and the
/// number of characters it takes up.
pub open spec fn code_block<T>(s: Seq<char>, indent: nat) -> Result<
    (BlockModel<T>, int),
    ParseErrorModel,
> {
    let after = s.skip(CODE_PREFIX@.len() as int);
    let body = after.skip(line_span(after));
    if CODE_PREFIX@.is_prefix_of(s) {
        Ok(
            (
                BlockModel {
                    indent,
                    content: BlockContentModel::CodeBlock {
                        meta: code_meta(after.take(line_len(after))),
                        indent,
                        content: join_lines(continuation_lines(body, indent)),
                    },
                },
                headed_span(s, CODE_PREFIX@.len() as int, indent),
            ),
        )
    } else {
        Err(no_match(0))
    }
}

/// The lines that continue a block take up no more than the input.
pub proof fn lemma_continuation_len(s: Seq<char>, k: nat)
    ensures
        0 <= continuation_len(s, k) <= s.len(),
    decreases s.len(),
{
    let n = leading_spaces(s);
    let body = s.skip(n);
    lemma_first_in(s, all_but(' '));
    lemma_first_in(body, set!['\n']);
    if n > k && line_len(body) < body.len() {
        lemma_continuation_len(body.skip(line_len(body) + 1), k);
    }
}

/// Reads the header line of a code fence.
pub(crate) fn read_code_meta(header: &[char]) -> (meta: CodeBlockMeta)
    ensures
        meta@ == code_meta(header@),
{
    let (_, h) = trim_slice(header);
    let n = h.len();
    if n == 0 {
        return CodeBlockMeta::Absent;
    }
    if h[n - 1] == ')' {
        if let Some(open) = rfind_char(h, '(') {
            proof {
                lemma_last_index(h@, '(');
            }
            let (_, filename) = trim_slice(&h[0..open]);
            let (_, filetype) = trim_slice(&h[open + 1..n - 1]);
            assert(h@.subrange(0, open as int) == h@.take(open as int));
            return if filename.len() > 0 && filetype.len() > 0 {
                CodeBlockMeta::Both { filename: string_of(filename), filetype: string_of(filetype) }
            } else if filename.len() > 0 {
                CodeBlockMeta::Either(string_of(filename))
            } else if filetype.len() > 0 {
                CodeBlockMeta::Either(string_of(filetype))
            } else {
                CodeBlockMeta::Absent
            };
        }
    }
    CodeBlockMeta::Either(string_of(h))
}

/// Reads the lines at the start of `s` that continue a block opened at
/// indent `k`: their text joined by newlines, and the number of characters
/// they take up.
pub(crate) fn read_continuation(s: &[char], k: usize) -> (r: (String, usize))
    ensures
        r.0@ == join_lines(continuation_lines(s@, k as nat)),
        r.1 == continuation_len(s@, k as nat),
        r.1 <= s@.len(),
{
    let n = s.len();
    let mut content = String::new();
    let mut pos: usize = 0;
    let ghost mut done: Seq<Seq<char>> = Seq::empty();
    proof {
        assert(s@.skip(0) =~= s@);
        assert(done + continuation_lines(s@, k as nat) =~= continuation_lines(s@, k as nat));
    }
    loop
        invariant_except_break
            continuation_lines(s@, k as nat) == done + continuation_lines(
                s@.skip(pos as int),
                k as nat,
            ),
            continuation_len(s@, k as nat) == pos + continuation_len(s@.skip(pos as int), k as nat),
        invariant
            pos <= n,
            n == s@.len(),
            content@ == join_lines(done),
            pos > 0 <==> done.len() > 0,
        ensures
            continuation_lines(s@, k as nat) == done,
            continuation_len(s@, k as nat) == pos,
        decreases n - pos,
    {
        let rest = &s[pos..n];
        assert(rest@ == s@.skip(pos as int));
        let indent = count_leading_spaces(rest);
        if indent <= k {
            proof {
                assert(done + Seq::<Seq<char>>::empty() =~= done);
            }
            break ;
        }
        let body = &rest[indent..rest.len()];
        assert(body@ == rest@.skip(indent as int));
        let len = find_char(body, '\n');
        let line = &body[0..len];
        assert(line@ == body@.take(len as int));
        if pos > 0 {
            push_char(&mut content, '\n');
        }
        push_chars(&mut content, line);
        proof {
            let longer = done.push(line@);
            assert(longer.drop_last() =~= done);
            if done.len() > 0 {
                assert(join_lines(longer) == join_lines(done) + seq!['\n'] + line@);
            } else {
                assert(join_lines(done) =~= Seq::<char>::empty());
                assert(Seq::<char>::empty() + line@ =~= line@);
            }
        }
        if len < body.len() {
            proof {
                let next = body@.skip(len + 1);
                assert(next =~= s@.skip(pos + indent + len + 1));
                assert(done + (seq![line@] + continuation_lines(next, k as nat)) =~= done.push(
                    line@,
                ) + continuation_lines(next, k as nat));
                done = done.push(line@);
            }
            pos = pos + indent + len + 1;
        } else {
            proof {
                assert(line@ =~= body@);
                assert(done + seq![body@] =~= done.push(line@));
                done = done.push(line@);
            }
            pos = n;
            break ;
        }
    }
    (content, pos)
}

/// Reads the code block that `s` starts with, opened at indent `indent`:
/// the block and the number of characters it takes up.
pub(crate) fn code_block_of<T>(s: &[char], indent: usize) -> (r: Result<(Block<T>, usize), ParseError>)
    ensures
        match r {
            Ok((block, used)) => code_block::<T>(s@, indent as nat) == Ok::<_, ParseErrorModel>(
                (block@, used as int),
            ) && 0 < used <= s@.len(),
            Err(e) => code_block::<T>(s@, indent as nat) == Err::<(BlockModel<T>, int), _>(e@)
                && e@ == no_match(0),
        },
{
    if !starts_with(s, CODE_PREFIX) {
        return Err(ParseError { kind: ParseErrorKind::NoAlternativeMatched, position: 0 });
    }
    let n = s.len();
    let p = CODE_PREFIX.unicode_len();
    proof {
        reveal_strlit("code:");
    }
    let after = &s[p..n];
    assert(after@ == s@.skip(p as int));
    let len = find_char(after, '\n');
    let meta = read_code_meta(&after[0..len]);
    assert(after@.subrange(0, len as int) == after@.take(len as int));
    let span = if len < after.len() {
        len + 1
    } else {
        len
    };
    let body = &after[span..after.len()];
    assert(body@ == after@.skip(span as int));
    let (content, used) = read_continuation(body, indent);
    Ok((Block { indent, content: BlockContent::CodeBlock { meta, indent, content } }, p + span + used))
}

/// Reads the code block at the cursor, opened at indent `indent`: the
/// `code:` header line and the lines under it that are indented by more
/// than `indent` spaces. The cursor moves past the block; where the input
/// does not start with `code:` it stays.
pub fn parse_code_block<'s, E: CosyParserExtension>(input: &mut &'s str, indent: usize) -> (r:
    Result<Block<E::Output>, ParseError>)
    ensures
        match r {
            Ok(block) => code_block::<E::Output>(old(input)@, indent as nat) matches Ok(
                (model, used),
            ) && block@ == model && final(input)@ == old(input)@.skip(used),
            Err(e) => code_block::<E::Output>(old(input)@, indent as nat) == Err::<
                (BlockModel<E::Output>, int),
                _,
            >(e@) && final(input)@ == old(input)@,
        },
{
    let chars = chars_of(*input);
    match code_block_of::<E::Output>(chars.as_slice(), indent) {
        Ok((block, used)) => {
            advance(input, used, chars.len());
            Ok(block)
        },
        Err(e) => Err(e),
    }
}

} // verus!
