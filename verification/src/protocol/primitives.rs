//! String, data and null frames.

use vstd::prelude::*;
use vstd::utf8::encode_utf8;
use super::frame::{Frame, FrameView, IS_NULL, UNFRAGMENTED};
use crate::bytes::copy_slice;
use crate::text::{lemma_text_reads_back, parse_text, text_bytes, text_of};

verus! {

/// A frame whose content is the text's UTF-8 bytes.
pub open spec fn string_view(s: Seq<char>) -> FrameView {
    FrameView { flags: 0, content: encode_utf8(s) }
}

/// A frame whose content is a serialized blob.
pub open spec fn data_view(blob: Seq<u8>) -> FrameView {
    FrameView { flags: 0, content: blob }
}

pub open spec fn null_view() -> FrameView {
    FrameView { flags: IS_NULL, content: Seq::empty() }
}

/// A frame that bears a header.
pub open spec fn initial_view(content: Seq<u8>) -> FrameView {
    FrameView { flags: UNFRAGMENTED, content }
}

/// A string is a frame whose content is the raw UTF-8 bytes.
pub fn string_frame(s: &str) -> (f: Frame)
    ensures
        f@ == string_view(s@),
{
    Frame { flags: 0, content: copy_slice(text_bytes(s)) }
}

pub fn decode_string(f: &Frame) -> (s: String)
    requires
        text_of(f@.content) is Some,
    ensures
        text_of(f@.content) == Some(s@),
{
    match parse_text(f.content.as_slice()) {
        Some(s) => s,
        None => String::new(),
    }
}

/// A data field is a frame whose content is the serialized blob, verbatim.
pub fn data_frame(blob: &[u8]) -> (f: Frame)
    ensures
        f@ == data_view(blob@),
{
    Frame { flags: 0, content: copy_slice(blob) }
}

pub fn null_frame() -> (f: Frame)
    ensures
        f@ == null_view(),
        f@.is_null(),
{
    let f = Frame { flags: IS_NULL, content: Vec::new() };
    assert(0x0400u16 & 0x0400u16 != 0) by (bit_vector);
    assert(f@.content =~= Seq::empty());
    f
}

/// An initial (header-bearing) frame with the given content.
pub fn initial_frame(content: Vec<u8>) -> (f: Frame)
    ensures
        f@ == initial_view(content@),
{
    Frame { flags: UNFRAGMENTED, content }
}

/// A string frame decodes to the string that it was made from.
pub proof fn law_strings_read_back(s: Seq<char>)
    ensures
        text_of(string_view(s).content) == Some(s),
        !string_view(s).is_null(),
{
    lemma_text_reads_back(s);
    assert(0u16 & 0x0400u16 == 0) by (bit_vector);
}

} // verus!
