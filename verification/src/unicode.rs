//! Unicode case mapping, classification and normalization, done by std and
//! by the `unicode-normalization` crate. Their tables are not restated here:
//! each result is named and the callers' contracts speak of the names.
use vstd::prelude::*;
use unicode_normalization::UnicodeNormalization;

verus! {

/// What `str::to_lowercase` returns for a string with these characters.
pub uninterp spec fn lowercase_of(s: Seq<char>) -> Seq<char>;

/// What `str::to_uppercase` returns for a string with these characters.
pub uninterp spec fn uppercase_of(s: Seq<char>) -> Seq<char>;

/// What `char::to_uppercase` yields for `c`, collected.
pub uninterp spec fn char_uppercase_of(c: char) -> Seq<char>;

/// What `char::is_uppercase` says of `c`.
pub uninterp spec fn is_upper(c: char) -> bool;

/// What `char::is_alphanumeric` says of `c`.
pub uninterp spec fn is_alnum(c: char) -> bool;

/// The canonical decomposition (NFD) that `UnicodeNormalization::nfd` yields.
pub uninterp spec fn nfd_of(s: Seq<char>) -> Seq<char>;

/// The canonical composition (NFC) that `UnicodeNormalization::nfc` yields.
pub uninterp spec fn nfc_of(s: Seq<char>) -> Seq<char>;

/// Calls `str::to_lowercase`; the result is named [`lowercase_of`].
#[verifier::external_body]
pub(crate) fn to_lowercase(s: &str) -> (r: String)
    ensures
        r@ == lowercase_of(s@),
{
    s.to_lowercase()
}

/// Calls `str::to_uppercase`; the result is named [`uppercase_of`].
#[verifier::external_body]
pub(crate) fn to_uppercase(s: &str) -> (r: String)
    ensures
        r@ == uppercase_of(s@),
{
    s.to_uppercase()
}

/// Calls `char::to_uppercase` and collects what it yields; the result is
/// named [`char_uppercase_of`].
#[verifier::external_body]
pub(crate) fn char_to_uppercase(c: char) -> (r: String)
    ensures
        r@ == char_uppercase_of(c),
{
    c.to_uppercase().collect::<String>()
}

/// `c` in its ASCII upper case: `a` to `z` become `A` to `Z`, every other
/// character stays.
pub open spec fn ascii_upper(c: char) -> char {
    if 'a' <= c && c <= 'z' {
        ((c as u32) - 32) as char
    } else {
        c
    }
}

/// Calls `char::to_ascii_uppercase`, which std documents as mapping `a` to
/// `z` to `A` to `Z` and leaving every other character unchanged.
#[verifier::external_body]
pub(crate) fn char_to_ascii_uppercase(c: char) -> (r: char)
    ensures
        r == ascii_upper(c),
{
    c.to_ascii_uppercase()
}

/// Calls `char::is_uppercase`; the result is named [`is_upper`].
#[verifier::external_body]
pub(crate) fn char_is_uppercase(c: char) -> (r: bool)
    ensures
        r == is_upper(c),
{
    c.is_uppercase()
}

/// Calls `char::is_alphanumeric`; the result is named [`is_alnum`].
#[verifier::external_body]
pub(crate) fn char_is_alphanumeric(c: char) -> (r: bool)
    ensures
        r == is_alnum(c),
{
    c.is_alphanumeric()
}

/// Calls `UnicodeNormalization::nfd` on `s` and collects the characters;
/// the result is named [`nfd_of`].
#[verifier::external_body]
pub(crate) fn nfd(s: &str) -> (r: String)
    ensures
        r@ == nfd_of(s@),
{
    s.nfd().collect::<String>()
}

/// Calls `UnicodeNormalization::nfc` on `s` and collects the characters;
/// the result is named [`nfc_of`].
#[verifier::external_body]
pub(crate) fn nfc(s: &str) -> (r: String)
    ensures
        r@ == nfc_of(s@),
{
    s.nfc().collect::<String>()
}

} // verus!
