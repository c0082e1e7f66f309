//! The delimited-span scanners: inline code between backticks and
//! mathematics between dollar signs.

use vstd::prelude::*;
use vstd::string::*;
use crate::ast::node::{Node, NodeModel};
use crate::chars::{chars_of, string_of};
use crate::error::{no_match, unterminated, ParseError, ParseErrorKind, ParseErrorModel};
use crate::parser::cursor::advance;
use crate::parser::grammar::closing_index;
use crate::parser::node::find_closing;
use crate::tokens::{BACKTICK, DOLLAR};

verus! {

/// The text of the span that `s` opens with `delimiter` and the number of
/// characters the span takes up, both delimiters included. Where `s` does
/// not start with `delimiter` the rule does not match; where it does and no
/// second `delimiter` follows, the span is unterminated.
pub open spec fn delimited_span(s: Seq<char>, delimiter: char) -> Result<
    (Seq<char>, int),
    ParseErrorModel,
> {
    if s.len() == 0 || s[0] != delimiter {
        Err(no_match(0))
    } else {
        match closing_index(s, delimiter) {
            Some(k) => Ok((s.subrange(1, k), k + 1)),
            None => Err(unterminated(0)),
        }
    }
}

/// Reads the span that `s` opens with `delimiter`: its text and the number
/// of characters it takes up.
pub(crate) fn span_of(s: &[char], delimiter: char) -> (r: Result<(String, usize), ParseError>)
    ensures
        match r {
            Ok((text, used)) => delimited_span(s@, delimiter) == Ok::<_, ParseErrorModel>(
                (text@, used as int),
            ) && 0 < used <= s@.len(),
            Err(e) => delimited_span(s@, delimiter) == Err::<(Seq<char>, int), _>(e@),
        },
{
    if s.len() == 0 || s[0] != delimiter {
        return Err(ParseError { kind: ParseErrorKind::NoAlternativeMatched, position: 0 });
    }
    match find_closing(s, delimiter) {
        Some(k) => Ok((string_of(&s[1..k]), k + 1)),
        None => Err(ParseError { kind: ParseErrorKind::UnterminatedDelimiter, position: 0 }),
    }
}

/// Reads the inline code at the cursor: a backtick, the text up to the next
/// backtick, and that backtick. The cursor moves past the span; on failure
/// it stays.
pub fn parse_inline_code<'s, T>(input: &mut &'s str) -> (r: Result<Node<T>, ParseError>)
    ensures
        match r {
            Ok(node) => delimited_span(old(input)@, BACKTICK) matches Ok((text, used)) && node@
                == NodeModel::<T>::InlineCode(text) && final(input)@ == old(input)@.skip(used),
            Err(e) => delimited_span(old(input)@, BACKTICK) == Err::<(Seq<char>, int), _>(e@)
                && final(input)@ == old(input)@,
        },
{
    let chars = chars_of(*input);
    match span_of(chars.as_slice(), BACKTICK) {
        Ok((text, used)) => {
            advance(input, used, chars.len());
            Ok(Node::InlineCode(text))
        },
        Err(e) => Err(e),
    }
}

/// Reads the mathematics at the cursor: a `$`, the text up to the next `$`,
/// and that `$`. The cursor moves past the span; on failure it stays.
pub fn parse_math<'s, T>(input: &mut &'s str) -> (r: Result<Node<T>, ParseError>)
    ensures
        match r {
            Ok(node) => delimited_span(old(input)@, DOLLAR) matches Ok((text, used)) && node@
                == NodeModel::<T>::Math(text) && final(input)@ == old(input)@.skip(used),
            Err(e) => delimited_span(old(input)@, DOLLAR) == Err::<(Seq<char>, int), _>(e@)
                && final(input)@ == old(input)@,
        },
{
    let chars = chars_of(*input);
    match span_of(chars.as_slice(), DOLLAR) {
        Ok((text, used)) => {
            advance(input, used, chars.len());
            Ok(Node::Math(text))
        },
        Err(e) => Err(e),
    }
}

} // verus!
