//! Executor submissions.

use vstd::prelude::*;
use super::layout::{header, new_header};
use crate::bytes::{copy_slice, i64_at};
use crate::model::views;
use crate::protocol::fixed::read_i64_le;
use crate::protocol::frame::Frame;
use crate::protocol::primitives::{
    data_frame, data_view, decode_string, initial_frame, initial_view, null_frame, null_view,
};
use crate::text::text_of;

verus! {

/// Whether a submission has its three frames, a header of at least `n` bytes, and a name that is
/// text.
pub open spec fn is_submission(frames: Seq<Frame>, n: int) -> bool {
    &&& frames.len() >= 3
    &&& frames[0].content@.len() >= n
    &&& text_of(frames[1].content@) is Some
}

pub fn decode_submit_to_partition(frames: &[Frame]) -> (r: (String, (i64, i64), Vec<u8>))
    requires
        is_submission(frames@, 32),
    ensures
        text_of(frames@[1].content@) == Some(r.0@),
        r.1 == (i64_at(frames@[0].content@, 16), i64_at(frames@[0].content@, 24)),
        r.2@ == frames@[2].content@,
{
    let c = frames[0].content.as_slice();
    let uuid: (i64, i64) = (read_i64_le(c, 16), read_i64_le(c, 24));
    let name = decode_string(&frames[1]);
    let callable: Vec<u8> = copy_slice(frames[2].content.as_slice());
    (name, uuid, callable)
}

pub fn decode_submit_to_member(frames: &[Frame]) -> (r: (
    String,
    (i64, i64),
    Vec<u8>,
    (i64, i64),
))
    requires
        is_submission(frames@, 48),
    ensures
        text_of(frames@[1].content@) == Some(r.0@),
        r.1 == (i64_at(frames@[0].content@, 16), i64_at(frames@[0].content@, 24)),
        r.2@ == frames@[2].content@,
        r.3 == (i64_at(frames@[0].content@, 32), i64_at(frames@[0].content@, 40)),
{
    let c = frames[0].content.as_slice();
    let uuid: (i64, i64) = (read_i64_le(c, 16), read_i64_le(c, 24));
    let member_uuid: (i64, i64) = (read_i64_le(c, 32), read_i64_le(c, 40));
    let name = decode_string(&frames[1]);
    let callable: Vec<u8> = copy_slice(frames[2].content.as_slice());
    (name, uuid, callable, member_uuid)
}

/// A response with a nullable data value behind its header.
pub fn encode_submit_response(msg_type: i32, response_data: Option<&[u8]>) -> (r: Vec<Frame>)
    ensures
        views(r@) == seq![
            initial_view(header(22, msg_type)),
            match response_data {
                Some(d) => data_view(d@),
                None => null_view(),
            },
        ],
{
    let mut r: Vec<Frame> = Vec::new();
    r.push(initial_frame(new_header(22, msg_type)));
    r.push(
        match response_data {
            Some(d) => data_frame(d),
            None => null_frame(),
        },
    );
    assert(views(r@) =~= seq![
        initial_view(header(22, msg_type)),
        match response_data {
            Some(d) => data_view(d@),
            None => null_view(),
        },
    ]);
    r
}

} // verus!
