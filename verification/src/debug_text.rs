//! Debug renderings (`{:?}`) of characters and strings, used in error
//! messages.
use vstd::prelude::*;

verus! {

/// The text `format!("{:?}", c)` produces for a `char`: quoted, with escapes.
pub uninterp spec fn char_debug(c: char) -> Seq<char>;

/// The text `format!("{:?}", s)` produces for a `str`: quoted, with escapes.
pub uninterp spec fn str_debug(s: Seq<char>) -> Seq<char>;

/// `format!("{:?}", c)` (std's `Debug` for `char`). The result is named by
/// `char_debug`; nothing more is stated of the escaping rules.
#[verifier::external_body]
pub(crate) fn debug_char(c: char) -> (s: String)
    ensures
        s@ == char_debug(c),
{
    format!("{:?}", c)
}

/// `format!("{:?}", s)` (std's `Debug` for `str`). The result is named by
/// `str_debug`; nothing more is stated of the escaping rules.
#[verifier::external_body]
pub(crate) fn debug_str(s: &str) -> (r: String)
    ensures
        r@ == str_debug(s@),
{
    format!("{:?}", s)
}

} // verus!
