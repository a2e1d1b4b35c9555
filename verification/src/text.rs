//! Text and its UTF-8 bytes.

use vstd::prelude::*;
use vstd::utf8::{decode_utf8, encode_utf8, valid_utf8};

verus! {

/// `core::str::from_utf8`. Claimed of it: it succeeds exactly on valid UTF-8, and then holds the
/// characters that the bytes encode.
#[verifier::external_body]
fn str_of_bytes<'a>(b: &'a [u8]) -> (r: Option<&'a str>)
    ensures
        match r {
            Some(s) => valid_utf8(b@) && s@ == decode_utf8(b@),
            None => !valid_utf8(b@),
        },
{
    core::str::from_utf8(b).ok()
}

/// The text that UTF-8 bytes hold, if they are valid.
pub open spec fn text_of(b: Seq<u8>) -> Option<Seq<char>> {
    if valid_utf8(b) {
        Some(decode_utf8(b))
    } else {
        None
    }
}

/// The text that UTF-8 bytes hold, in place.
pub fn as_text<'a>(b: &'a [u8]) -> (r: Option<&'a str>)
    ensures
        match r {
            Some(s) => text_of(b@) == Some(s@),
            None => text_of(b@) is None,
        },
{
    str_of_bytes(b)
}

/// The text that UTF-8 bytes hold.
pub fn parse_text(b: &[u8]) -> (r: Option<String>)
    ensures
        match r {
            Some(s) => text_of(b@) == Some(s@),
            None => text_of(b@) is None,
        },
{
    match str_of_bytes(b) {
        Some(s) => Some(s.to_string()),
        None => None,
    }
}

/// The UTF-8 bytes of `s`.
pub fn text_bytes(s: &str) -> (b: &[u8])
    ensures
        b@ == encode_utf8(s@),
{
    s.as_bytes()
}

/// What text encodes to reads back as the text.
pub proof fn lemma_text_reads_back(s: Seq<char>)
    ensures
        text_of(encode_utf8(s)) == Some(s),
{
    vstd::utf8::encode_utf8_valid_utf8(s);
    vstd::utf8::encode_utf8_decode_utf8(s);
}

/// Whether every byte is ASCII.
pub open spec fn is_ascii_bytes(b: Seq<u8>) -> bool {
    forall|i: int| 0 <= i < b.len() ==> #[trigger] b[i] < 0x80
}

/// ASCII bytes as characters.
pub open spec fn ascii_chars(b: Seq<u8>) -> Seq<char> {
    Seq::new(b.len(), |i: int| b[i] as char)
}

/// ASCII bytes are text, byte by byte.
pub proof fn lemma_ascii_text(b: Seq<u8>)
    requires
        is_ascii_bytes(b),
    ensures
        text_of(b) == Some(ascii_chars(b)),
        encode_utf8(ascii_chars(b)) == b,
{
    let c = ascii_chars(b);
    assert(vstd::utf8::is_ascii_chars(c));
    vstd::utf8::is_ascii_chars_encode_utf8(c);
    assert(encode_utf8(c) =~= b);
    lemma_text_reads_back(c);
}

/// The text that `String::from_utf8_lossy` makes of bytes: what is no UTF-8 is replaced.
pub uninterp spec fn lossy_text(b: Seq<u8>) -> Seq<char>;

/// `String::from_utf8_lossy`. Claimed of it: the text depends on the bytes alone, and is what they
/// encode if they are valid UTF-8.
#[verifier::external_body]
fn lossy_string(b: &[u8]) -> (s: String)
    ensures
        s@ == lossy_text(b@),
        valid_utf8(b@) ==> s@ == decode_utf8(b@),
{
    String::from_utf8_lossy(b).into_owned()
}

/// Bytes as text: what they encode, or, where they are no UTF-8, with the faults replaced.
pub open spec fn readable(b: Seq<u8>) -> Seq<char> {
    match text_of(b) {
        Some(t) => t,
        None => lossy_text(b),
    }
}

/// Reads bytes as text.
pub fn read_text(b: &[u8]) -> (s: String)
    ensures
        s@ == readable(b@),
{
    lossy_string(b)
}

} // verus!
