//! Names that may stand in generated SQL.

use crate::text::chars_of;
use vstd::prelude::*;

verus! {

/// Whether a character is alphabetic or numeric in Unicode's sense.
pub uninterp spec fn char_alphanumeric(c: char) -> bool;

/// An ASCII letter or digit.
pub open spec fn ascii_alphanumeric(c: char) -> bool {
    'a' <= c <= 'z' || 'A' <= c <= 'Z' || '0' <= c <= '9'
}

/// `char::is_alphanumeric` depends on the character alone, and among ASCII
/// characters it holds of the letters and digits.
pub assume_specification[ char::is_alphanumeric ](c: char) -> (r: bool)
    ensures
        r == char_alphanumeric(c),
        (c as u32) < 128 ==> r == ascii_alphanumeric(c),
;

/// A character that may stand in an identifier.
pub open spec fn safe_char(c: char) -> bool {
    char_alphanumeric(c) || c == '_' || c == '-'
}

/// A name that may be put between double quotes in SQL as it stands: not
/// empty, and made of letters, digits, `_` and `-`.
pub open spec fn safe_identifier(name: Seq<char>) -> bool {
    name.len() > 0 && forall|i: int| 0 <= i < name.len() ==> safe_char(#[trigger] name[i])
}

/// An ASCII character that may stand in an identifier.
pub open spec fn plain_char(c: char) -> bool {
    ascii_alphanumeric(c) || c == '_' || c == '-'
}

/// True if `name` may be interpolated into generated SQL. Of the ASCII characters
/// only letters, digits, `_` and `-` may stand in it, and any name made of these
/// alone may be interpolated.
pub fn is_safe_identifier(name: &str) -> (r: bool)
    ensures
        r == safe_identifier(name@),
        r ==> forall|i: int|
            0 <= i < name@.len() && (#[trigger] name@[i]) as u32 <= 127 ==> plain_char(name@[i]),
        name@.len() > 0 && (forall|i: int| 0 <= i < name@.len() ==> plain_char(#[trigger] name@[i]))
            ==> r,
{
    let chars = chars_of(name);
    if chars.len() == 0 {
        return false;
    }
    let mut i: usize = 0;
    while i < chars.len()
        invariant
            chars@ == name@,
            i <= chars.len(),
            forall|j: int| 0 <= j < i ==> safe_char(#[trigger] name@[j]),
            forall|j: int|
                0 <= j < i && (#[trigger] name@[j]) as u32 <= 127 ==> plain_char(name@[j]),
        decreases chars.len() - i,
    {
        let c = chars[i];
        if !(c.is_alphanumeric() || c == '_' || c == '-') {
            assert(!safe_char(name@[i as int]));
            return false;
        }
        i += 1;
    }
    true
}

} // verus!
