//! Trusted boundary to the text facilities the engine relies on: Unicode
//! word segmentation (the `unicode-segmentation` crate), lowercasing, and
//! UTF-8 decoding from `std`.

use unicode_segmentation::UnicodeSegmentation;
use vstd::prelude::*;

verus! {

/// What `str::to_lowercase` returns for a given character sequence. The
/// Unicode lowercase mapping depends on the characters alone, so it can be
/// named without being written out.
pub uninterp spec fn lower_of(s: Seq<char>) -> Seq<char>;

/// What `unicode_words` returns for a given character sequence: the UAX#29
/// word segments that contain at least one alphanumeric character. The
/// segmentation depends on the characters alone.
pub uninterp spec fn unicode_words_of(s: Seq<char>) -> Seq<Seq<char>>;

/// Relies on `str::to_lowercase`: returns the lowercase mapping of the
/// input, a function of the input characters alone. Lowercasing the empty
/// string yields the empty string.
#[verifier::external_body]
pub(crate) fn lowercase(s: &str) -> (r: String)
    ensures
        r@ == lower_of(s@),
        s@.len() == 0 ==> r@.len() == 0,
{
    s.to_lowercase()
}

/// Relies on `unicode_segmentation::UnicodeSegmentation::unicode_words`:
/// returns the UAX#29 word segments of the input, in order, a function of
/// the input characters alone. The empty string has no word segments.
#[verifier::external_body]
pub(crate) fn unicode_word_list(s: &str) -> (r: Vec<String>)
    ensures
        r.deep_view() == unicode_words_of(s@),
        s@.len() == 0 ==> r@.len() == 0,
{
    s.unicode_words().map(|w| w.to_owned()).collect()
}

/// Relies on `String::from_utf8`: succeeds exactly on valid UTF-8 input and
/// then returns the string whose characters are the decoding of the bytes.
#[verifier::external_body]
pub(crate) fn string_from_utf8(bytes: Vec<u8>) -> (r: Option<String>)
    ensures
        r is Some <==> vstd::utf8::valid_utf8(bytes@),
        r matches Some(s) ==> s@ == vstd::utf8::decode_utf8(bytes@),
{
    String::from_utf8(bytes).ok()
}

} // verus!
