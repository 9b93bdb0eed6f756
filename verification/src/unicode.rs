//! Unicode properties of characters.
use vstd::prelude::*;
use unicode_general_category::get_general_category;
use unicode_normalization::UnicodeNormalization;

verus! {

/// The two-letter abbreviation ("Lu", "Nd", ...) of a character's general category.
pub uninterp spec fn general_category(c: char) -> (u8, u8);

/// `unicode_general_category::get_general_category`, reported through the
/// crate's `GeneralCategory::abbreviation`: the two ASCII letters naming the
/// category. Nothing else is claimed of the table.
#[verifier::external_body]
pub(crate) fn category(c: char) -> (r: (u8, u8))
    ensures r == general_category(c),
{
    let a = get_general_category(c).abbreviation().as_bytes();
    (a[0], a[1])
}

/// Canonical composition (NFC) of a character sequence.
pub uninterp spec fn nfc(s: Seq<char>) -> Seq<char>;

/// `UnicodeNormalization::nfc` of `unicode_normalization`, collected into a
/// `String`; the result is named, not described.
#[verifier::external_body]
pub(crate) fn to_nfc(s: &str) -> (r: String)
    ensures r@ == nfc(s@),
{
    s.nfc().collect()
}

/// A letter: general category Lu, Ll, Lt, Lm or Lo.
pub open spec fn letter(c: char) -> bool {
    general_category(c).0 == 76
}

/// A number: general category Nd, Nl or No.
pub open spec fn number(c: char) -> bool {
    general_category(c).0 == 78
}

/// The White_Space property (`char::is_whitespace`).
pub open spec fn white(c: char) -> bool {
    let u = c as u32;
    (9 <= u <= 13) || u == 32 || u == 0x85 || u == 0xa0 || u == 0x1680 || (0x2000 <= u <= 0x200a)
        || u == 0x2028 || u == 0x2029 || u == 0x202f || u == 0x205f || u == 0x3000
}

pub fn is_letter(c: char) -> (r: bool)
    ensures r == letter(c),
{
    category(c).0 == 76
}

pub fn is_number(c: char) -> (r: bool)
    ensures r == number(c),
{
    category(c).0 == 78
}

pub fn is_white(c: char) -> (r: bool)
    ensures r == white(c),
{
    let u = c as u32;
    (9 <= u && u <= 13) || u == 32 || u == 0x85 || u == 0xa0 || u == 0x1680 || (0x2000 <= u && u <= 0x200a)
        || u == 0x2028 || u == 0x2029 || u == 0x202f || u == 0x205f || u == 0x3000
}

} // verus!
