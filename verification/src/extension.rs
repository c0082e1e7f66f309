//! The hook through which a caller reinterprets bracketed or block-level
//! syntax before the built-in grammar runs.

use vstd::prelude::*;

verus! {

/// A caller-supplied reader of custom syntax.
///
/// An extension that is verified says with `bracket_output` and
/// `block_output` what its hooks return for a text, and states with
/// `obeys_hook_spec` that they do. Of any other extension nothing is
/// taken for granted.
pub trait CosyParserExtension {
    /// The values the extension produces.
    type Output;

    /// Whether the hooks are the functions that `bracket_output` and
    /// `block_output` describe.
    open spec fn obeys_hook_spec() -> bool {
        false
    }

    /// What `parse_bracket` returns for the text between a pair of brackets.
    open spec fn bracket_output(&self, content: Seq<char>) -> Option<Self::Output> {
        None
    }

    /// What `parse_block` returns for the text of a block.
    open spec fn block_output(&self, content: Seq<char>) -> Option<Self::Output> {
        None
    }

    /// Reads the text between `[` and `]`. `None` leaves the text to the
    /// built-in rules.
    fn parse_bracket(&self, content: &str) -> (output: Option<Self::Output>)
        ensures
            Self::obeys_hook_spec() ==> output == self.bracket_output(content@),
    ;

    /// Reads the text of a block. `None` leaves the text to the built-in
    /// rules.
    fn parse_block(&self, content: &str) -> (output: Option<Self::Output>)
        ensures
            Self::obeys_hook_spec() ==> output == self.block_output(content@),
    ;
}

/// The bracket hook as a mathematical function: what it answers for the
/// bracket whose `[` stands at a position of the input, given the text
/// between that `[` and its `]`.
///
/// The position tells two brackets with the same text apart: a hook that is
/// no function of the text alone still gives each bracket of an input one
/// answer.
pub type Hook<T> = spec_fn(int, Seq<char>) -> Option<T>;

/// The hook of an extension whose `parse_bracket` is the function that
/// `bracket_output` describes: it answers by the text alone.
pub open spec fn hook_of<E: CosyParserExtension>(ext: &E) -> Hook<E::Output> {
    |position: int, content: Seq<char>| ext.bracket_output(content)
}

/// A record of the brackets that a hook was asked about: for the position
/// of each `[`, the text that was handed to the hook and its answer.
pub type Asked<T> = Map<int, (Seq<char>, Option<T>)>;

/// Whether `hook` answers every bracket of the record as the record says.
pub open spec fn fits<T>(hook: Hook<T>, asked: Asked<T>) -> bool {
    forall|p: int| #[trigger] asked.dom().contains(p) ==> hook(p, asked[p].0) == asked[p].1
}

/// Whether every bracket of the record stands at a position from `from` up
/// to, and not including, `to`.
pub open spec fn within<T>(asked: Asked<T>, from: int, to: int) -> bool {
    forall|p: int| #[trigger] asked.dom().contains(p) ==> from <= p < to
}

/// Whether the record is one of brackets between `from` and `to` that
/// `ext` answered: where the hooks of `ext` are the functions it names,
/// the record says what they say.
pub open spec fn recorded<E: CosyParserExtension>(
    ext: &E,
    asked: Asked<E::Output>,
    from: int,
    to: int,
) -> bool {
    within(asked, from, to) && (E::obeys_hook_spec() ==> fits(hook_of(ext), asked))
}

/// A hook that answers the brackets of a record as the record says.
pub open spec fn replay<T>(asked: Asked<T>) -> Hook<T> {
    |position: int, content: Seq<char>|
        if asked.dom().contains(position) {
            asked[position].1
        } else {
            None
        }
}

/// The hook that replays a record fits it.
pub proof fn lemma_replay_fits<T>(asked: Asked<T>)
    ensures
        fits(replay(asked), asked),
{
}

/// A hook fits two records of brackets in adjoining stretches exactly when
/// it fits the two together.
pub proof fn lemma_fits_both<T>(
    hook: Hook<T>,
    first: Asked<T>,
    second: Asked<T>,
    from: int,
    mid: int,
    to: int,
)
    requires
        within(first, from, mid),
        within(second, mid, to),
        from <= mid <= to,
    ensures
        within(first.union_prefer_right(second), from, to),
        fits(hook, first.union_prefer_right(second)) <==> fits(hook, first) && fits(hook, second),
{
    let both = first.union_prefer_right(second);
    if fits(hook, both) {
        assert forall|p: int| #[trigger] first.dom().contains(p) implies hook(p, first[p].0)
            == first[p].1 by {
            assert(both.dom().contains(p));
            assert(!second.dom().contains(p));
        }
        assert forall|p: int| #[trigger] second.dom().contains(p) implies hook(p, second[p].0)
            == second[p].1 by {
            assert(both.dom().contains(p));
        }
    }
    if fits(hook, first) && fits(hook, second) {
        assert forall|p: int| #[trigger] both.dom().contains(p) implies hook(p, both[p].0)
            == both[p].1 by {
            if second.dom().contains(p) {
            } else {
                assert(first.dom().contains(p));
            }
        }
    }
}

/// The extension that reads nothing: every text is left to the built-in
/// rules.
impl CosyParserExtension for () {
    type Output = ();

    open spec fn obeys_hook_spec() -> bool {
        true
    }

    open spec fn bracket_output(&self, content: Seq<char>) -> Option<()> {
        None
    }

    open spec fn block_output(&self, content: Seq<char>) -> Option<()> {
        None
    }

    fn parse_bracket(&self, content: &str) -> (output: Option<()>) {
        None
    }

    fn parse_block(&self, content: &str) -> (output: Option<()>) {
        None
    }
}

} // verus!
