//! The parts of the standard library's text handling that stand for themselves.
use vstd::prelude::*;
use vstd::utf8::*;

verus! {

/// What `str::to_lowercase` makes of a text: the Unicode lowercase mapping, which does
/// not depend on a locale.
pub uninterp spec fn lowercase(s: Seq<char>) -> Seq<char>;

/// Whether a text is all ASCII.
pub open spec fn ascii(s: Seq<char>) -> bool {
    forall|i: int| 0 <= i < s.len() ==> (#[trigger] s[i] as u32) < 128
}

/// An ASCII text with its letters in lower case.
pub open spec fn ascii_lowercase(s: Seq<char>) -> Seq<char> {
    Seq::new(
        s.len(),
        |i: int|
            if 'A' <= s[i] <= 'Z' {
                (s[i] as u32 + 32) as char
            } else {
                s[i]
            },
    )
}

/// What is known of the lower case of a text: that of an ASCII text.
pub open spec fn case_known(s: Seq<char>) -> bool {
    ascii(s) ==> lowercase(s) == ascii_lowercase(s)
}

/// [`case_known`] of a text that may be missing.
pub open spec fn opt_case_known(o: Option<Seq<char>>) -> bool {
    match o {
        Some(s) => case_known(s),
        None => true,
    }
}

/// Calls `str::to_lowercase`, whose result is a function of the text alone. Of an ASCII
/// text, the letters `A` to `Z` become `a` to `z` and the rest stays.
#[verifier::external_body]
pub(crate) fn to_lowercase(s: &str) -> (r: String)
    ensures
        r@ == lowercase(s@),
        ascii(s@) ==> r@ == ascii_lowercase(s@),
{
    s.to_lowercase()
}

/// Calls `std::str::from_utf8`, which gives the text that the bytes encode if they are
/// valid UTF-8, and an error if they are not.
#[verifier::external_body]
pub(crate) fn utf8_text(bytes: &[u8]) -> (r: Option<&str>)
    ensures
        match r {
            Some(s) => valid_utf8(bytes@) && s@ == decode_utf8(bytes@),
            None => !valid_utf8(bytes@),
        },
{
    std::str::from_utf8(bytes).ok()
}

} // verus!
