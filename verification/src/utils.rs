//! Quoted values, as they stand in the parameters of a header.

use crate::text::{copy_chars, from_chars, to_chars};
use vstd::prelude::*;

verus! {

/// Whether `v` stands between two quotation marks of one kind.
pub open spec fn is_quoted(v: Seq<char>) -> bool {
    v.len() >= 2 && ((v[0] == '"' && v.last() == '"') || (v[0] == '\'' && v.last() == '\''))
}

/// The text between the quotation marks of a quoted text, and any other text
/// as it is.
pub open spec fn unquote_spec(v: Seq<char>) -> Seq<char> {
    if is_quoted(v) {
        v.subrange(1, v.len() - 1)
    } else {
        v
    }
}

/// Takes one layer of matching quotation marks, double or single, off a
/// value. A value without them, and a quotation mark that stands alone, is
/// returned as it is.
pub fn unquote(value: &str) -> (r: String)
    ensures
        r@ == unquote_spec(value@),
{
    let chars = to_chars(value);
    let n = chars.len();
    if n >= 2 && ((chars[0] == '"' && chars[n - 1] == '"') || (chars[0] == '\'' && chars[n - 1] == '\'')) {
        let inner = copy_chars(&chars, 1, n - 1);
        from_chars(&inner)
    } else {
        from_chars(&chars)
    }
}

} // verus!
