//! Character sequences: scanning, trimming and conversion between strings
//! and the character slices that the parser works on.

use vstd::prelude::*;
use vstd::string::*;

verus! {

/// The index of the first character of `s` that is in `stops`, or the
/// length of `s` when there is none.
pub open spec fn first_in(s: Seq<char>, stops: Set<char>) -> int
    decreases s.len(),
{
    if s.len() == 0 || stops.contains(s[0]) {
        0
    } else {
        1 + first_in(s.skip(1), stops)
    }
}

/// `first_in` lies within the sequence, nothing before it is in `stops`, and
/// the character at it, if any, is.
pub proof fn lemma_first_in(s: Seq<char>, stops: Set<char>)
    ensures
        0 <= first_in(s, stops) <= s.len(),
        forall|i: int| 0 <= i < first_in(s, stops) ==> !stops.contains(#[trigger] s[i]),
        first_in(s, stops) < s.len() ==> stops.contains(s[first_in(s, stops)]),
    decreases s.len(),
{
    if s.len() != 0 && !stops.contains(s[0]) {
        let t = s.skip(1);
        lemma_first_in(t, stops);
        assert forall|i: int| 0 <= i < first_in(s, stops) implies !stops.contains(
            #[trigger] s[i],
        ) by {
            if i > 0 {
                assert(s[i] == t[i - 1]);
            }
        }
        assert(first_in(t, stops) < t.len() ==> s[first_in(s, stops)] == t[first_in(t, stops)]);
    }
}

/// An index with the three properties of `first_in` is `first_in`.
pub proof fn lemma_first_in_unique(s: Seq<char>, stops: Set<char>, k: int)
    requires
        0 <= k <= s.len(),
        forall|i: int| 0 <= i < k ==> !stops.contains(#[trigger] s[i]),
        k < s.len() ==> stops.contains(s[k]),
    ensures
        first_in(s, stops) == k,
    decreases s.len(),
{
    if s.len() != 0 && !stops.contains(s[0]) {
        let t = s.skip(1);
        assert forall|i: int| 0 <= i < k - 1 implies !stops.contains(#[trigger] t[i]) by {
            assert(t[i] == s[i + 1]);
        }
        lemma_first_in_unique(t, stops, k - 1);
    } else if s.len() != 0 {
        if k > 0 {
            assert(!stops.contains(s[0]));
        }
    }
}

/// The characters that are not `c`.
pub open spec fn all_but(c: char) -> Set<char> {
    Set::new(|x: char| x != c)
}

/// The number of space characters at the start of `s`. No other character
/// counts: a tab ends the run.
pub open spec fn leading_spaces(s: Seq<char>) -> int {
    first_in(s, all_but(' '))
}

/// The length of the first line of `s`: the index of its first newline, or
/// its length.
pub open spec fn line_len(s: Seq<char>) -> int {
    first_in(s, set!['\n'])
}

/// The length of the first line of `s` together with the newline that ends
/// it, if there is one.
pub open spec fn line_span(s: Seq<char>) -> int {
    if line_len(s) < s.len() {
        line_len(s) + 1
    } else {
        line_len(s)
    }
}

/// The index of the last `c` in `s`, or -1 when there is none.
pub open spec fn last_index(s: Seq<char>, c: char) -> int
    decreases s.len(),
{
    if s.len() == 0 {
        -1
    } else if s.last() == c {
        s.len() - 1
    } else {
        last_index(s.drop_last(), c)
    }
}

/// `last_index` lies within the sequence or is -1, the character at it is
/// `c`, and no `c` follows it.
pub proof fn lemma_last_index(s: Seq<char>, c: char)
    ensures
        -1 <= last_index(s, c) < s.len(),
        last_index(s, c) >= 0 ==> s[last_index(s, c)] == c,
        forall|i: int| last_index(s, c) < i < s.len() ==> #[trigger] s[i] != c,
    decreases s.len(),
{
    if s.len() != 0 && s.last() != c {
        let t = s.drop_last();
        lemma_last_index(t, c);
        assert forall|i: int| last_index(s, c) < i < s.len() implies #[trigger] s[i] != c by {
            if i < t.len() {
                assert(s[i] == t[i]);
            }
        }
        assert(last_index(t, c) >= 0 ==> s[last_index(s, c)] == t[last_index(t, c)]);
    }
}

/// An index with the properties of `last_index` is `last_index`.
pub proof fn lemma_last_index_unique(s: Seq<char>, c: char, k: int)
    requires
        -1 <= k < s.len(),
        k >= 0 ==> s[k] == c,
        forall|i: int| k < i < s.len() ==> #[trigger] s[i] != c,
    ensures
        last_index(s, c) == k,
    decreases s.len(),
{
    if s.len() != 0 && s.last() != c {
        let t = s.drop_last();
        assert forall|i: int| k < i < t.len() implies #[trigger] t[i] != c by {
            assert(t[i] == s[i]);
        }
        if k >= 0 {
            assert(t[k] == s[k]);
        }
        lemma_last_index_unique(t, c, k);
    } else if s.len() != 0 {
        if k < s.len() - 1 {
            assert(s[s.len() - 1] != c);
        }
    }
}

/// Whether `c` is white space: a character with the Unicode property
/// `White_Space`.
pub open spec fn is_whitespace(c: char) -> bool {
    ||| '\u{9}' <= c <= '\u{d}'
    ||| c == ' '
    ||| c == '\u{85}'
    ||| c == '\u{a0}'
    ||| c == '\u{1680}'
    ||| '\u{2000}' <= c <= '\u{200a}'
    ||| c == '\u{2028}'
    ||| c == '\u{2029}'
    ||| c == '\u{202f}'
    ||| c == '\u{205f}'
    ||| c == '\u{3000}'
}

/// The characters that are not white space.
pub open spec fn non_whitespace() -> Set<char> {
    Set::new(|c: char| !is_whitespace(c))
}

/// The number of white-space characters at the start of `s`.
pub open spec fn leading_whitespace(s: Seq<char>) -> int {
    first_in(s, non_whitespace())
}

/// `s` without the white space at its end.
pub open spec fn trim_end(s: Seq<char>) -> Seq<char>
    decreases s.len(),
{
    if s.len() > 0 && is_whitespace(s.last()) {
        trim_end(s.drop_last())
    } else {
        s
    }
}

/// `s` without the white space at its start and at its end.
pub open spec fn trim(s: Seq<char>) -> Seq<char> {
    trim_end(s.skip(leading_whitespace(s)))
}

/// `trim_end` keeps a prefix of the sequence.
pub proof fn lemma_trim_end(s: Seq<char>)
    ensures
        trim_end(s).len() <= s.len(),
        trim_end(s) == s.take(trim_end(s).len() as int),
        trim_end(s).len() > 0 ==> !is_whitespace(trim_end(s).last()),
        forall|i: int| trim_end(s).len() <= i < s.len() ==> is_whitespace(#[trigger] s[i]),
    decreases s.len(),
{
    if s.len() > 0 && is_whitespace(s.last()) {
        let t = s.drop_last();
        lemma_trim_end(t);
        assert(trim_end(s) =~= s.take(trim_end(s).len() as int));
        assert forall|i: int| trim_end(s).len() <= i < s.len() implies is_whitespace(
            #[trigger] s[i],
        ) by {
            if i < t.len() {
                assert(s[i] == t[i]);
            }
        }
    } else {
        assert(s =~= s.take(s.len() as int));
    }
}

/// A prefix of `s` that neither ends in white space nor is followed by
/// anything but white space is `trim_end(s)`.
pub proof fn lemma_trim_end_unique(s: Seq<char>, k: int)
    requires
        0 <= k <= s.len(),
        k > 0 ==> !is_whitespace(s[k - 1]),
        forall|i: int| k <= i < s.len() ==> is_whitespace(#[trigger] s[i]),
    ensures
        trim_end(s) == s.take(k),
    decreases s.len(),
{
    if s.len() > 0 && is_whitespace(s.last()) {
        let t = s.drop_last();
        assert(k < s.len());
        assert forall|i: int| k <= i < t.len() implies is_whitespace(#[trigger] t[i]) by {
            assert(t[i] == s[i]);
        }
        lemma_trim_end_unique(t, k);
        assert(t.take(k) =~= s.take(k));
    } else {
        if k < s.len() {
            assert(is_whitespace(s[s.len() - 1]));
        }
        assert(s =~= s.take(k));
    }
}

/// `trim` keeps a stretch of the sequence that starts after its leading
/// white space.
pub proof fn lemma_trim(s: Seq<char>)
    ensures
        0 <= leading_whitespace(s) <= s.len(),
        leading_whitespace(s) + trim(s).len() <= s.len(),
        trim(s) == s.subrange(leading_whitespace(s), leading_whitespace(s) + trim(s).len()),
{
    lemma_first_in(s, non_whitespace());
    let t = s.skip(leading_whitespace(s));
    lemma_trim_end(t);
    assert(t.take(trim_end(t).len() as int) =~= s.subrange(
        leading_whitespace(s),
        leading_whitespace(s) + trim(s).len(),
    ));
}

/// Whether `c` is white space.
pub(crate) fn char_is_whitespace(c: char) -> (r: bool)
    ensures
        r == is_whitespace(c),
{
    ('\u{9}' <= c && c <= '\u{d}') || c == ' ' || c == '\u{85}' || c == '\u{a0}' || c
        == '\u{1680}' || ('\u{2000}' <= c && c <= '\u{200a}') || c == '\u{2028}' || c
        == '\u{2029}' || c == '\u{202f}' || c == '\u{205f}' || c == '\u{3000}'
}

/// The index of the first `c` in `s`, or the length of `s`.
pub(crate) fn find_char(s: &[char], c: char) -> (k: usize)
    ensures
        k == first_in(s@, set![c]),
        k <= s@.len(),
{
    let mut i: usize = 0;
    while i < s.len() && s[i] != c
        invariant
            i <= s@.len(),
            forall|j: int| 0 <= j < i ==> !set![c].contains(#[trigger] s@[j]),
        decreases s@.len() - i,
    {
        i += 1;
    }
    proof {
        lemma_first_in_unique(s@, set![c], i as int);
    }
    i
}

/// The index of the last `c` in `s`, if there is one.
pub(crate) fn rfind_char(s: &[char], c: char) -> (r: Option<usize>)
    ensures
        r matches Some(k) ==> (k == last_index(s@, c) && k < s@.len()),
        r is None ==> last_index(s@, c) == -1,
{
    let mut i: usize = s.len();
    while i > 0 && s[i - 1] != c
        invariant
            i <= s@.len(),
            forall|j: int| i <= j < s@.len() ==> #[trigger] s@[j] != c,
        decreases i,
    {
        i -= 1;
    }
    proof {
        lemma_last_index_unique(s@, c, i - 1);
    }
    if i > 0 {
        Some(i - 1)
    } else {
        None
    }
}

/// The number of space characters at the start of `s`.
pub(crate) fn count_leading_spaces(s: &[char]) -> (k: usize)
    ensures
        k == leading_spaces(s@),
        k <= s@.len(),
{
    let mut i: usize = 0;
    while i < s.len() && s[i] == ' '
        invariant
            i <= s@.len(),
            forall|j: int| 0 <= j < i ==> !all_but(' ').contains(#[trigger] s@[j]),
        decreases s@.len() - i,
    {
        i += 1;
    }
    proof {
        lemma_first_in_unique(s@, all_but(' '), i as int);
    }
    i
}

/// The part of `s` between the white space at its start and at its end,
/// with the index at which it starts.
pub(crate) fn trim_slice(s: &[char]) -> (r: (usize, &[char]))
    ensures
        r.0 == leading_whitespace(s@),
        r.1@ == trim(s@),
        r.0 + r.1@.len() <= s@.len(),
{
    let mut start: usize = 0;
    while start < s.len() && char_is_whitespace(s[start])
        invariant
            start <= s@.len(),
            forall|j: int| 0 <= j < start ==> !non_whitespace().contains(#[trigger] s@[j]),
        decreases s@.len() - start,
    {
        start += 1;
    }
    proof {
        lemma_first_in_unique(s@, non_whitespace(), start as int);
    }
    let mut end: usize = s.len();
    while end > start && char_is_whitespace(s[end - 1])
        invariant
            start <= end <= s@.len(),
            forall|j: int| end <= j < s@.len() ==> is_whitespace(#[trigger] s@[j]),
        decreases end,
    {
        end -= 1;
    }
    proof {
        let t = s@.skip(start as int);
        assert forall|i: int| end - start <= i < t.len() implies is_whitespace(
            #[trigger] t[i],
        ) by {
            assert(t[i] == s@[i + start]);
        }
        if end > start {
            assert(t[end - start - 1] == s@[end - 1]);
        } else if start < s@.len() {
            assert(non_whitespace().contains(s@[start as int]));
        }
        lemma_trim_end_unique(t, end - start);
        assert(t.take(end - start) =~= s@.subrange(start as int, end as int));
    }
    (start, &s[start..end])
}

/// Whether `s` starts with the characters of `prefix`.
pub(crate) fn starts_with(s: &[char], prefix: &str) -> (r: bool)
    ensures
        r == prefix@.is_prefix_of(s@),
{
    let n = prefix.unicode_len();
    if s.len() < n {
        return false;
    }
    let mut i: usize = 0;
    while i < n
        invariant
            i <= n,
            n == prefix@.len(),
            n <= s@.len(),
            forall|j: int| 0 <= j < i ==> prefix@[j] == s@[j],
        decreases n - i,
    {
        if prefix.get_char(i) != s[i] {
            assert(prefix@[i as int] != s@.subrange(0, n as int)[i as int]);
            return false;
        }
        i += 1;
    }
    true
}

/// Whether `s` ends with the characters of `suffix`.
pub(crate) fn ends_with(s: &[char], suffix: &str) -> (r: bool)
    ensures
        r == suffix@.is_suffix_of(s@),
{
    let n = suffix.unicode_len();
    if s.len() < n {
        return false;
    }
    let base = s.len() - n;
    let mut i: usize = 0;
    while i < n
        invariant
            i <= n,
            n == suffix@.len(),
            base + n == s@.len(),
            base + n <= usize::MAX,
            forall|j: int| 0 <= j < i ==> suffix@[j] == s@[base + j],
        decreases n - i,
    {
        if suffix.get_char(i) != s[base + i] {
            assert(suffix@[i as int] != s@.subrange(base as int, s@.len() as int)[i as int]);
            return false;
        }
        i += 1;
    }
    true
}

/// `String::push`: the string afterwards is the string before with `c`
/// appended.
#[verifier::external_body]
pub(crate) fn push_char(s: &mut String, c: char)
    ensures
        final(s)@ == old(s)@.push(c),
{
    s.push(c)
}

/// Appends the characters of `chars` to `s`.
pub(crate) fn push_chars(s: &mut String, chars: &[char])
    ensures
        final(s)@ == old(s)@ + chars@,
{
    let mut i: usize = 0;
    while i < chars.len()
        invariant
            i <= chars@.len(),
            s@ == old(s)@ + chars@.take(i as int),
        decreases chars@.len() - i,
    {
        push_char(s, chars[i]);
        i += 1;
        assert(chars@.take(i as int) =~= chars@.take(i - 1).push(chars@[i - 1]));
    }
    assert(chars@.take(i as int) =~= chars@);
}

/// The string made of the characters of `chars`.
pub(crate) fn string_of(chars: &[char]) -> (s: String)
    ensures
        s@ == chars@,
{
    let mut s = String::new();
    push_chars(&mut s, chars);
    s
}

/// The characters of `s`.
pub(crate) fn chars_of(s: &str) -> (v: Vec<char>)
    ensures
        v@ == s@,
{
    let mut v: Vec<char> = Vec::new();
    for c in it: s.chars()
        invariant
            it.seq() == s@,
            v@ == it.history(),
    {
        v.push(c);
    }
    v
}

} // verus!
