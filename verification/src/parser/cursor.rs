//! The cursor: the part of the input that is still to be read.

use vstd::prelude::*;
use vstd::string::*;

verus! {

/// Moves the cursor `used` characters forward, where `total` is the number
/// of characters it has left.
pub(crate) fn advance<'s>(input: &mut &'s str, used: usize, total: usize)
    requires
        used <= total,
        total == old(input)@.len(),
    ensures
        final(input)@ == old(input)@.skip(used as int),
{
    let s: &'s str = *input;
    *input = s.substring_char(used, total);
}

} // verus!
