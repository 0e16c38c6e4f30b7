//! Unicode character properties and transformations. Those that come from
//! the Unicode tables of `std`, `unicode_categories` and
//! `unicode_normalization_alignments` are functions of their argument alone;
//! on ASCII the categories are stated here, above ASCII they and the text
//! transformations are named and not restated. The `White_Space` property,
//! a short list of code points, is stated in full.
use vstd::prelude::*;
use unicode_categories::UnicodeCategories;
use unicode_normalization_alignments::UnicodeNormalization;

verus! {

/// Above ASCII, `c` is in the "Other" category of `unicode_categories` (Cc, Cf or Co).
pub uninterp spec fn non_ascii_is_other(c: char) -> bool;

/// Above ASCII, `c` is in a "Punctuation" category of `unicode_categories`.
pub uninterp spec fn non_ascii_is_punctuation(c: char) -> bool;

/// Above ASCII, `c` is in the "Mark, Nonspacing" (Mn) category of `unicode_categories`.
pub uninterp spec fn non_ascii_is_mark_nonspacing(c: char) -> bool;

/// `c` is in the "Other" category of `unicode_categories` (Cc, Cf or Co).
/// The ASCII characters in it are the controls U+0000 to U+001F and U+007F.
pub open spec fn unicode_is_other(c: char) -> bool {
    let v = c as u32;
    if v < 0x80 {
        v < 0x20 || v == 0x7F
    } else {
        non_ascii_is_other(c)
    }
}

/// `c` is in a "Punctuation" category of `unicode_categories` (Pc, Pd, Pe,
/// Pf, Pi, Po or Ps). The ASCII characters in it are
/// `! " # % & ' ( ) * , - . / : ; ? @ [ \ ] _ { }`.
pub open spec fn unicode_is_punctuation(c: char) -> bool {
    let v = c as u32;
    if v < 0x80 {
        (0x21 <= v <= 0x23) || (0x25 <= v <= 0x2A) || (0x2C <= v <= 0x2F) || v == 0x3A || v == 0x3B
            || v == 0x3F || v == 0x40 || (0x5B <= v <= 0x5D) || v == 0x5F || v == 0x7B || v == 0x7D
    } else {
        non_ascii_is_punctuation(c)
    }
}

/// `c` is in the "Mark, Nonspacing" (Mn) category of `unicode_categories`.
/// No ASCII character is.
pub open spec fn unicode_is_mark_nonspacing(c: char) -> bool {
    if (c as u32) < 0x80 {
        false
    } else {
        non_ascii_is_mark_nonspacing(c)
    }
}

/// `c` has the Unicode `White_Space` property, the property that
/// `char::is_whitespace` tests: U+0009 to U+000D, U+0020, U+0085, U+00A0,
/// U+1680, U+2000 to U+200A, U+2028, U+2029, U+202F, U+205F and U+3000.
pub open spec fn unicode_is_white_space(c: char) -> bool {
    let v = c as u32;
    (0x09 <= v <= 0x0D) || v == 0x20 || v == 0x85 || v == 0xA0 || v == 0x1680 || (0x2000 <= v
        <= 0x200A) || v == 0x2028 || v == 0x2029 || v == 0x202F || v == 0x205F || v == 0x3000
}

/// The lowercase form of a text (`str::to_lowercase`).
pub uninterp spec fn unicode_lowercase(s: Seq<char>) -> Seq<char>;

/// The canonical decomposition (NFD) of a text, as computed by
/// `unicode_normalization_alignments`.
pub uninterp spec fn unicode_nfd(s: Seq<char>) -> Seq<char>;

/// `UnicodeCategories::is_other`: the result is `unicode_is_other(c)`; in
/// ASCII its tables list only the controls U+0000 to U+001F and U+007F.
#[verifier::external_body]
pub(crate) fn is_other(c: char) -> (b: bool)
    ensures
        b == unicode_is_other(c),
        (c as u32) >= 0x80 ==> b == non_ascii_is_other(c),
{
    c.is_other()
}

/// `UnicodeCategories::is_punctuation`: the result is `unicode_is_punctuation(c)`;
/// in ASCII its tables list the characters that `unicode_is_punctuation` names.
#[verifier::external_body]
pub(crate) fn is_punctuation(c: char) -> (b: bool)
    ensures
        b == unicode_is_punctuation(c),
        (c as u32) >= 0x80 ==> b == non_ascii_is_punctuation(c),
{
    c.is_punctuation()
}

/// `UnicodeCategories::is_mark_nonspacing`: the result is
/// `unicode_is_mark_nonspacing(c)`; its table lists no ASCII character.
#[verifier::external_body]
pub(crate) fn is_mark_nonspacing(c: char) -> (b: bool)
    ensures
        b == unicode_is_mark_nonspacing(c),
        (c as u32) >= 0x80 ==> b == non_ascii_is_mark_nonspacing(c),
{
    c.is_mark_nonspacing()
}

/// Whether `c` has the Unicode `White_Space` property (what `char::is_whitespace` returns).
pub fn is_white_space(c: char) -> (b: bool)
    ensures
        b == unicode_is_white_space(c),
{
    let v = c as u32;
    (0x09 <= v && v <= 0x0D) || v == 0x20 || v == 0x85 || v == 0xA0 || v == 0x1680 || (0x2000 <= v
        && v <= 0x200A) || v == 0x2028 || v == 0x2029 || v == 0x202F || v == 0x205F || v == 0x3000
}

/// `str::to_lowercase` on the text made of `chars`: the result's characters
/// are `unicode_lowercase(chars@)`.
#[verifier::external_body]
pub(crate) fn lowercase(chars: &[char]) -> (r: Vec<char>)
    ensures
        r@ == unicode_lowercase(chars@),
{
    let s: String = chars.iter().collect();
    s.to_lowercase().chars().collect()
}

/// `UnicodeNormalization::nfd` on `chars`, keeping the characters and
/// dropping the alignment offsets that come with them: the result is
/// `unicode_nfd(chars@)`.
#[verifier::external_body]
pub(crate) fn nfd(chars: &[char]) -> (r: Vec<char>)
    ensures
        r@ == unicode_nfd(chars@),
{
    chars.iter().copied().nfd().map(|p| p.0).collect()
}

} // verus!
