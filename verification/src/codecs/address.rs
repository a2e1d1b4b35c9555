//! Address: begin, a frame with the port (`i32` @0), the host string, end.

use vstd::prelude::*;
use super::layout::{begin_frame, begin_view, end_frame, end_view};
use crate::bytes::{i32_at, i32_le, lemma_ints_read_back, lemma_le_digits_len, put_i32};
use crate::model::views;
use crate::protocol::frame::{Frame, FrameView};
use crate::protocol::primitives::{string_frame, string_view};
use crate::text::{lemma_text_reads_back, text_of};

verus! {

pub open spec fn address_frames(host: Seq<char>, port: i32) -> Seq<FrameView> {
    seq![
        begin_view(),
        FrameView { flags: 0, content: i32_le(port) },
        string_view(host),
        end_view(),
    ]
}

pub fn encode(out: &mut Vec<Frame>, host: &str, port: i32)
    ensures
        views(final(out)@) == views(old(out)@) + address_frames(host@, port),
{
    let mut content: Vec<u8> = Vec::new();
    put_i32(&mut content, port);
    assert(content@ =~= i32_le(port));
    out.push(begin_frame());
    out.push(Frame { flags: 0, content });
    out.push(string_frame(host));
    out.push(end_frame());
    assert(views(out@) =~= views(old(out)@) + address_frames(host@, port));
}

/// Port and host are read back from the second and the third frame of an address.
pub proof fn law_addresses_read_back(host: Seq<char>, port: i32)
    ensures
        address_frames(host, port).len() == 4,
        i32_at(address_frames(host, port)[1].content, 0) == port,
        text_of(address_frames(host, port)[2].content) == Some(host),
{
    broadcast use lemma_le_digits_len;

    lemma_ints_read_back(0, 0, 0, port, 0);
    lemma_text_reads_back(host);
    assert(i32_le(port).subrange(0, 4) =~= i32_le(port));
}

} // verus!
