//! The text scanner: a maximal run of plain characters.

use vstd::prelude::*;
use vstd::string::*;
use crate::ast::node::{Node, NodeModel};
use crate::chars::{chars_of, first_in, lemma_first_in_unique, string_of};
use crate::error::{no_match, ParseError, ParseErrorKind};
use crate::parser::cursor::advance;
use crate::tokens::{BACKTICK, DOLLAR, LBRACKET};

verus! {

/// The characters at which plain text ends: the three that open a
/// delimited span.
pub open spec fn markers() -> Set<char> {
    set![LBRACKET, DOLLAR, BACKTICK]
}

/// The length of the run of plain text at the start of `s`.
pub open spec fn text_len(s: Seq<char>) -> int {
    first_in(s, markers())
}

/// The length of the run of plain text at the start of `s`.
pub(crate) fn scan_text(s: &[char]) -> (k: usize)
    ensures
        k == text_len(s@),
        k <= s@.len(),
{
    let mut i: usize = 0;
    while i < s.len() && s[i] != LBRACKET && s[i] != DOLLAR && s[i] != BACKTICK
        invariant
            i <= s@.len(),
            forall|j: int| 0 <= j < i ==> !markers().contains(#[trigger] s@[j]),
        decreases s@.len() - i,
    {
        i += 1;
    }
    proof {
        lemma_first_in_unique(s@, markers(), i as int);
    }
    i
}

/// Reads the plain text at the cursor: one or more characters up to, and
/// not including, the next `[`, `$` or backtick. The cursor moves past the
/// text; where the text would be empty the rule does not match and the
/// cursor stays.
pub fn parse_text<'s, T>(input: &mut &'s str) -> (r: Result<Node<T>, ParseError>)
    ensures
        match r {
            Ok(node) => text_len(old(input)@) > 0 && node@ == NodeModel::<T>::Text(
                old(input)@.take(text_len(old(input)@)),
            ) && final(input)@ == old(input)@.skip(text_len(old(input)@)),
            Err(e) => text_len(old(input)@) == 0 && e@ == no_match(0) && final(input)@ == old(
                input,
            )@,
        },
{
    let chars = chars_of(*input);
    let k = scan_text(chars.as_slice());
    if k == 0 {
        return Err(ParseError { kind: ParseErrorKind::NoAlternativeMatched, position: 0 });
    }
    let text = string_of(&chars.as_slice()[0..k]);
    advance(input, k, chars.len());
    Ok(Node::Text(text))
}

} // verus!
