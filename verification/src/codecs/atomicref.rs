//! `IAtomicReference` requests and responses.
//!
//! The variable part starts with a group id (four frames), then the object name (frame 5), then
//! any nullable data values. Responses carry a nullable data value or a bool at 13.

use vstd::prelude::*;
use super::layout::{
    bool_byte, bool_response, cp_request, header, new_bool_response, new_cp_request, new_header,
};
use crate::bytes::{copy_slice, lemma_le_digits_len};
use crate::model::{opt_view, views};
use crate::protocol::frame::{Frame, FrameView};
use crate::protocol::message::{set_correlation_id, with_correlation};
use crate::protocol::primitives::{
    data_frame, data_view, decode_string, initial_frame, initial_view, law_strings_read_back,
    null_frame, null_view,
};
use crate::text::text_of;

verus! {

pub const GET_REQ: i32 = 656384;

pub const GET_RESP: i32 = 656385;

pub const SET_REQ: i32 = 656640;

pub const SET_RESP: i32 = 656641;

pub const COMPARE_AND_SET_REQ: i32 = 655872;

pub const COMPARE_AND_SET_RESP: i32 = 655873;

pub const CONTAINS_REQ: i32 = 656128;

pub const CONTAINS_RESP: i32 = 656129;

/// The index of the object name's frame.
pub const NAME_FRAME: usize = 5;

/// A decoded AtomicReference request.
#[derive(Clone, Debug, PartialEq, Eq)]
pub enum ArReq {
    Get,
    SetTo { new: Option<Vec<u8>>, return_old: bool },
    CompareAndSet { old: Option<Vec<u8>>, new: Option<Vec<u8>> },
    Contains { value: Option<Vec<u8>> },
}

/// What an [`ArReq`] holds.
pub enum ArReqView {
    Get,
    SetTo { update: Option<Seq<u8>>, return_old: bool },
    CompareAndSet { expected: Option<Seq<u8>>, update: Option<Seq<u8>> },
    Contains { value: Option<Seq<u8>> },
}

impl View for ArReq {
    type V = ArReqView;

    open spec fn view(&self) -> ArReqView {
        match self {
            ArReq::Get => ArReqView::Get,
            ArReq::SetTo { new, return_old } => ArReqView::SetTo {
                update: opt_view(*new),
                return_old: *return_old,
            },
            ArReq::CompareAndSet { old: o, new } => ArReqView::CompareAndSet {
                expected: opt_view(*o),
                update: opt_view(*new),
            },
            ArReq::Contains { value } => ArReqView::Contains { value: opt_view(*value) },
        }
    }
}

#[derive(Clone, Debug, PartialEq, Eq)]
pub struct AtomicRefRequest {
    pub name: String,
    pub op: ArReq,
}

impl View for AtomicRefRequest {
    type V = (Seq<char>, ArReqView);

    open spec fn view(&self) -> (Seq<char>, ArReqView) {
        (self.name@, self.op@)
    }
}

pub open spec fn response_to(req_type: i32) -> Option<i32> {
    if req_type == GET_REQ {
        Some(GET_RESP)
    } else if req_type == SET_REQ {
        Some(SET_RESP)
    } else if req_type == COMPARE_AND_SET_REQ {
        Some(COMPARE_AND_SET_RESP)
    } else if req_type == CONTAINS_REQ {
        Some(CONTAINS_RESP)
    } else {
        None
    }
}

pub fn response_type(req_type: i32) -> (r: Option<i32>)
    ensures
        r == response_to(req_type),
{
    match req_type {
        GET_REQ => Some(GET_RESP),
        SET_REQ => Some(SET_RESP),
        COMPARE_AND_SET_REQ => Some(COMPARE_AND_SET_RESP),
        CONTAINS_REQ => Some(CONTAINS_RESP),
        _ => None,
    }
}

pub fn is_atomicref(req_type: i32) -> (b: bool)
    ensures
        b == (response_to(req_type) is Some),
{
    response_type(req_type).is_some()
}

/// The nullable data value in frame `i`: null if the frame is absent or the null frame.
pub open spec fn data_in(frames: Seq<FrameView>, i: int) -> Option<Seq<u8>> {
    if i < frames.len() && !frames[i].is_null() {
        Some(frames[i].content)
    } else {
        None
    }
}

fn nullable_data(frames: &[Frame], i: usize) -> (r: Option<Vec<u8>>)
    ensures
        opt_view(r) == data_in(views(frames@), i as int),
{
    if i >= frames.len() {
        return None;
    }
    assert(views(frames@)[i as int] == frames@[i as int]@);
    if frames[i].is_null() {
        None
    } else {
        Some(copy_slice(frames[i].content.as_slice()))
    }
}

/// Whether the object name, if there is one, is text.
pub open spec fn is_readable(frames: Seq<FrameView>) -> bool {
    frames.len() > NAME_FRAME ==> text_of(frames[NAME_FRAME as int].content) is Some
}

/// The op that a request's frames hold.
pub open spec fn op_in(req_type: i32, frames: Seq<FrameView>) -> Option<ArReqView> {
    if req_type == GET_REQ {
        Some(ArReqView::Get)
    } else if req_type == SET_REQ {
        Some(
            ArReqView::SetTo {
                update: data_in(frames, 6),
                return_old: frames[0].content.len() > 16 && frames[0].content[16] == 1,
            },
        )
    } else if req_type == COMPARE_AND_SET_REQ {
        Some(
            ArReqView::CompareAndSet { expected: data_in(frames, 6), update: data_in(frames, 7) },
        )
    } else if req_type == CONTAINS_REQ {
        Some(ArReqView::Contains { value: data_in(frames, 6) })
    } else {
        None
    }
}

/// What a request says.
pub open spec fn request_in(req_type: i32, frames: Seq<FrameView>) -> Option<
    (Seq<char>, ArReqView),
> {
    if frames.len() <= NAME_FRAME {
        None
    } else {
        match (text_of(frames[NAME_FRAME as int].content), op_in(req_type, frames)) {
            (Some(name), Some(op)) => Some((name, op)),
            _ => None,
        }
    }
}

/// Decodes a request. Values follow the object name's frame.
pub fn decode_request(req_type: i32, frames: &[Frame]) -> (r: Option<AtomicRefRequest>)
    requires
        is_readable(views(frames@)),
    ensures
        match r {
            Some(q) => request_in(req_type, views(frames@)) == Some(q@),
            None => request_in(req_type, views(frames@)) is None,
        },
{
    if frames.len() <= NAME_FRAME {
        return None;
    }
    assert(views(frames@)[NAME_FRAME as int] == frames@[NAME_FRAME as int]@);
    assert(views(frames@)[0] == frames@[0]@);
    let name = decode_string(&frames[NAME_FRAME]);
    let op = match req_type {
        GET_REQ => ArReq::Get,
        SET_REQ => ArReq::SetTo {
            new: nullable_data(frames, NAME_FRAME + 1),
            return_old: frames[0].content.len() > 16 && frames[0].content[16] == 1,
        },
        COMPARE_AND_SET_REQ => ArReq::CompareAndSet {
            old: nullable_data(frames, NAME_FRAME + 1),
            new: nullable_data(frames, NAME_FRAME + 2),
        },
        CONTAINS_REQ => ArReq::Contains { value: nullable_data(frames, NAME_FRAME + 1) },
        _ => {
            return None;
        },
    };
    Some(AtomicRefRequest { name, op })
}

/// The frame of a nullable data value.
pub open spec fn nullable_view(v: Option<Seq<u8>>) -> FrameView {
    match v {
        Some(b) => data_view(b),
        None => null_view(),
    }
}

fn nullable(v: &Option<Vec<u8>>) -> (f: Frame)
    ensures
        f@ == nullable_view(opt_view(*v)),
{
    match v {
        Some(b) => data_frame(b.as_slice()),
        None => null_frame(),
    }
}

/// A nullable data response.
pub fn encode_data_response(resp_type: i32, value: Option<&[u8]>) -> (r: Vec<Frame>)
    ensures
        views(r@) == seq![
            initial_view(header(13, resp_type)),
            nullable_view(match value {
                Some(v) => Some(v@),
                None => None,
            }),
        ],
{
    let mut r: Vec<Frame> = Vec::new();
    r.push(initial_frame(new_header(13, resp_type)));
    match value {
        Some(v) => r.push(data_frame(v)),
        None => r.push(null_frame()),
    }
    assert(views(r@) =~= seq![
        initial_view(header(13, resp_type)),
        nullable_view(match value {
            Some(v) => Some(v@),
            None => None,
        }),
    ]);
    r
}

/// A bool response (bool byte at 13).
pub fn encode_bool_response(resp_type: i32, value: bool) -> (r: Vec<Frame>)
    ensures
        views(r@) == bool_response(resp_type, value),
{
    new_bool_response(resp_type, value)
}

/// The initial frame of a request.
pub open spec fn init_bytes(req_type: i32, op: ArReqView) -> Seq<u8> {
    match op {
        ArReqView::SetTo { update, return_old } => header(17, req_type).update(
            16,
            bool_byte(return_old),
        ),
        _ => header(16, req_type),
    }
}

/// The data values behind the object name.
pub open spec fn args_frames(op: ArReqView) -> Seq<FrameView> {
    match op {
        ArReqView::Get => Seq::empty(),
        ArReqView::SetTo { update, return_old } => seq![nullable_view(update)],
        ArReqView::CompareAndSet { expected, update } => seq![
            nullable_view(expected),
            nullable_view(update),
        ],
        ArReqView::Contains { value } => seq![nullable_view(value)],
    }
}

/// A request as a client builds it: the initial frame, the group id, the object name, and the
/// nullable data values.
pub fn encode_request(req_type: i32, group: &str, name: &str, op: &ArReq) -> (r: Vec<Frame>)
    ensures
        views(r@) == cp_request(init_bytes(req_type, op@), group@, name@) + args_frames(op@),
{
    let init: Vec<u8> = match op {
        ArReq::SetTo { return_old, .. } => {
            let mut init: Vec<u8> = new_header(17, req_type);
            init.set(
                16,
                if *return_old {
                    1
                } else {
                    0
                },
            );
            init
        },
        _ => new_header(16, req_type),
    };
    let mut frames: Vec<Frame> = new_cp_request(init, group, name);
    let ghost head = views(frames@);
    match op {
        ArReq::Get => {},
        ArReq::SetTo { new, .. } => frames.push(nullable(new)),
        ArReq::CompareAndSet { old: o, new } => {
            frames.push(nullable(o));
            frames.push(nullable(new));
        },
        ArReq::Contains { value } => frames.push(nullable(value)),
    }
    assert(views(frames@) =~= head + args_frames(op@));
    frames
}

/// Puts the correlation id into a response's initial frame.
pub fn set_correlation(frames: &mut [Frame], corr: i64)
    requires
        old(frames)@.len() > 0 ==> old(frames)@[0].content@.len() >= 12,
    ensures
        old(frames)@.len() == 0 ==> final(frames)@ == old(frames)@,
        old(frames)@.len() > 0 ==> views(final(frames)@) == views(old(frames)@).update(
            0,
            with_correlation(old(frames)@[0]@, corr),
        ),
{
    if frames.len() > 0 {
        set_correlation_id(frames, corr);
    }
}

/// The request type of an op.
pub open spec fn request_type(op: ArReqView) -> i32 {
    match op {
        ArReqView::Get => GET_REQ,
        ArReqView::SetTo { .. } => SET_REQ,
        ArReqView::CompareAndSet { .. } => COMPARE_AND_SET_REQ,
        ArReqView::Contains { .. } => CONTAINS_REQ,
    }
}

/// A request decodes to the name and op that it was built from.
pub proof fn law_requests_read_back(op: ArReqView, group: Seq<char>, name: Seq<char>)
    ensures
        ({
            let t = request_type(op);
            let frames = cp_request(init_bytes(t, op), group, name) + args_frames(op);
            is_readable(frames) && request_in(t, frames) == Some((name, op))
        }),
{
    broadcast use lemma_le_digits_len;

    law_strings_read_back(name);
    assert(0u16 & 0x0400u16 == 0) by (bit_vector);
    assert(0x0400u16 & 0x0400u16 != 0) by (bit_vector);
}

/// The answer to a request has the type of the request plus one, and these are the requests.
pub proof fn law_answers_follow_their_requests(t: i32)
    ensures
        response_to(t) matches Some(r) ==> r == t + 1,
        response_to(t) is Some <==> t == 656384 || t == 656640 || t == 655872 || t == 656128,
{
}

/// What requests ask for, by their type: the object's name stands in the sixth frame, the values
/// behind it, null for none; whether a set gives back the old value, in byte 16 of the first.
pub proof fn law_requests_by_type(frames: Seq<FrameView>, name: Seq<char>)
    requires
        frames.len() > 7,
        text_of(frames[5].content) == Some(name),
        frames[0].content.len() > 16,
    ensures
        ({
            let a = if frames[6].is_null() {
                None
            } else {
                Some(frames[6].content)
            };
            let b = if frames[7].is_null() {
                None
            } else {
                Some(frames[7].content)
            };
            &&& request_in(656384, frames) == Some((name, ArReqView::Get))
            &&& request_in(656640, frames) == Some(
                (
                    name,
                    ArReqView::SetTo { update: a, return_old: frames[0].content[16] == 1 },
                ),
            )
            &&& request_in(655872, frames) == Some(
                (name, ArReqView::CompareAndSet { expected: a, update: b }),
            )
            &&& request_in(656128, frames) == Some((name, ArReqView::Contains { value: a }))
        }),
{
}

} // verus!
