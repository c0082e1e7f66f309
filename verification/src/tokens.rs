//! The characters and literal prefixes that the grammar gives a meaning.

use vstd::prelude::*;

verus! {

/// Opens a bracket.
pub const LBRACKET: char = '[';

/// Closes a bracket.
pub const RBRACKET: char = ']';

/// Starts a quote.
pub const GT: char = '>';

/// Opens and closes mathematics.
pub const DOLLAR: char = '$';

/// Opens and closes inline code.
pub const BACKTICK: char = '`';

/// Starts the header line of a table.
pub const TABLE_PREFIX: &'static str = "table:";

/// Starts the header line of a code block.
pub const CODE_PREFIX: &'static str = "code:";

/// Ends the text of a bracket that stands for an icon.
pub const ICON_SUFFIX: &'static str = ".icon";

/// Whether `c` is one of the characters that mark a decoration.
pub open spec fn decoration_char(c: char) -> bool {
    c == '*' || c == '-' || c == '/' || c == '_' || c == '!'
}

/// Whether `c` is one of the characters that mark a decoration.
pub fn is_decoration_char(c: char) -> (r: bool)
    ensures
        r == decoration_char(c),
{
    c == '*' || c == '-' || c == '/' || c == '_' || c == '!'
}

} // verus!
