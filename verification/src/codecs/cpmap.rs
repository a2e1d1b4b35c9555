//! `CPMap` requests: the initial frame, the group id (four frames), the object name (frame 5), and
//! the key and value frames.

use vstd::prelude::*;
use super::layout::{cp_request, header, new_cp_request, new_header};
use crate::bytes::copy_slice;
use crate::model::views;
use crate::protocol::frame::{Frame, FrameView};
use crate::protocol::primitives::{
    data_frame, data_view, decode_string, law_strings_read_back,
};
use crate::text::text_of;

verus! {

pub const GET_REQ: i32 = 2294016;

pub const PUT_REQ: i32 = 2294272;

pub const SET_REQ: i32 = 2294528;

pub const REMOVE_REQ: i32 = 2294784;

pub const DELETE_REQ: i32 = 2295040;

pub const CAS_REQ: i32 = 2295296;

pub const PUT_IF_ABSENT_REQ: i32 = 2295552;

/// The index of the object name's frame.
pub const NAME_FRAME: usize = 5;

pub open spec fn is_map_request(t: i32) -> bool {
    t == GET_REQ || t == PUT_REQ || t == SET_REQ || t == REMOVE_REQ || t == DELETE_REQ || t
        == CAS_REQ || t == PUT_IF_ABSENT_REQ
}

/// Whether `msg_type` is a CPMap request.
pub fn is_cpmap(msg_type: i32) -> (b: bool)
    ensures
        b == is_map_request(msg_type),
{
    msg_type == GET_REQ || msg_type == PUT_REQ || msg_type == SET_REQ || msg_type == REMOVE_REQ
        || msg_type == DELETE_REQ || msg_type == CAS_REQ || msg_type == PUT_IF_ABSENT_REQ
}

#[derive(Clone, Debug, PartialEq, Eq)]
pub enum CpMapReq {
    Get(Vec<u8>),
    Put(Vec<u8>, Vec<u8>),
    SetTo(Vec<u8>, Vec<u8>),
    Remove(Vec<u8>),
    Delete(Vec<u8>),
    CompareAndSet(Vec<u8>, Vec<u8>, Vec<u8>),
    PutIfAbsent(Vec<u8>, Vec<u8>),
}

/// What a [`CpMapReq`] holds.
pub enum CpMapReqView {
    Get(Seq<u8>),
    Put(Seq<u8>, Seq<u8>),
    SetTo(Seq<u8>, Seq<u8>),
    Remove(Seq<u8>),
    Delete(Seq<u8>),
    CompareAndSet(Seq<u8>, Seq<u8>, Seq<u8>),
    PutIfAbsent(Seq<u8>, Seq<u8>),
}

impl View for CpMapReq {
    type V = CpMapReqView;

    open spec fn view(&self) -> CpMapReqView {
        match self {
            CpMapReq::Get(k) => CpMapReqView::Get(k@),
            CpMapReq::Put(k, v) => CpMapReqView::Put(k@, v@),
            CpMapReq::SetTo(k, v) => CpMapReqView::SetTo(k@, v@),
            CpMapReq::Remove(k) => CpMapReqView::Remove(k@),
            CpMapReq::Delete(k) => CpMapReqView::Delete(k@),
            CpMapReq::CompareAndSet(k, e, n) => CpMapReqView::CompareAndSet(k@, e@, n@),
            CpMapReq::PutIfAbsent(k, v) => CpMapReqView::PutIfAbsent(k@, v@),
        }
    }
}

#[derive(Clone, Debug, PartialEq, Eq)]
pub struct CpMapRequest {
    pub name: String,
    pub op: CpMapReq,
}

impl View for CpMapRequest {
    type V = (Seq<char>, CpMapReqView);

    open spec fn view(&self) -> (Seq<char>, CpMapReqView) {
        (self.name@, self.op@)
    }
}

/// The data in frame `i`: empty if the frame is absent or null.
pub open spec fn data_in(frames: Seq<FrameView>, i: int) -> Seq<u8> {
    if i < frames.len() && !frames[i].is_null() {
        frames[i].content
    } else {
        Seq::empty()
    }
}

fn data(frames: &[Frame], i: usize) -> (r: Vec<u8>)
    ensures
        r@ == data_in(views(frames@), i as int),
{
    if i >= frames.len() {
        return Vec::new();
    }
    assert(views(frames@)[i as int] == frames@[i as int]@);
    if frames[i].is_null() {
        Vec::new()
    } else {
        copy_slice(frames[i].content.as_slice())
    }
}

/// Whether the object name, if there is one, is text.
pub open spec fn is_readable(frames: Seq<FrameView>) -> bool {
    frames.len() > NAME_FRAME ==> text_of(frames[NAME_FRAME as int].content) is Some
}

/// The op that a request's frames hold.
pub open spec fn op_in(req_type: i32, frames: Seq<FrameView>) -> Option<CpMapReqView> {
    let a = data_in(frames, 6);
    let b = data_in(frames, 7);
    let c = data_in(frames, 8);
    if req_type == GET_REQ {
        Some(CpMapReqView::Get(a))
    } else if req_type == REMOVE_REQ {
        Some(CpMapReqView::Remove(a))
    } else if req_type == DELETE_REQ {
        Some(CpMapReqView::Delete(a))
    } else if req_type == PUT_REQ {
        Some(CpMapReqView::Put(a, b))
    } else if req_type == SET_REQ {
        Some(CpMapReqView::SetTo(a, b))
    } else if req_type == PUT_IF_ABSENT_REQ {
        Some(CpMapReqView::PutIfAbsent(a, b))
    } else if req_type == CAS_REQ {
        Some(CpMapReqView::CompareAndSet(a, b, c))
    } else {
        None
    }
}

/// What a request says.
pub open spec fn request_in(req_type: i32, frames: Seq<FrameView>) -> Option<
    (Seq<char>, CpMapReqView),
> {
    if frames.len() <= NAME_FRAME {
        None
    } else {
        match (text_of(frames[NAME_FRAME as int].content), op_in(req_type, frames)) {
            (Some(name), Some(op)) => Some((name, op)),
            _ => None,
        }
    }
}

pub fn decode_request(req_type: i32, frames: &[Frame]) -> (r: Option<CpMapRequest>)
    requires
        is_readable(views(frames@)),
    ensures
        match r {
            Some(q) => request_in(req_type, views(frames@)) == Some(q@),
            None => request_in(req_type, views(frames@)) is None,
        },
{
    if frames.len() <= NAME_FRAME {
        return None;
    }
    assert(views(frames@)[NAME_FRAME as int] == frames@[NAME_FRAME as int]@);
    let name = decode_string(&frames[NAME_FRAME]);
    let a: Vec<u8> = data(frames, NAME_FRAME + 1);
    let op = match req_type {
        GET_REQ => CpMapReq::Get(a),
        REMOVE_REQ => CpMapReq::Remove(a),
        DELETE_REQ => CpMapReq::Delete(a),
        PUT_REQ => CpMapReq::Put(a, data(frames, NAME_FRAME + 2)),
        SET_REQ => CpMapReq::SetTo(a, data(frames, NAME_FRAME + 2)),
        PUT_IF_ABSENT_REQ => CpMapReq::PutIfAbsent(a, data(frames, NAME_FRAME + 2)),
        CAS_REQ => CpMapReq::CompareAndSet(
            a,
            data(frames, NAME_FRAME + 2),
            data(frames, NAME_FRAME + 3),
        ),
        _ => {
            return None;
        },
    };
    Some(CpMapRequest { name, op })
}

/// The data frames behind the object name.
pub open spec fn args_frames(op: CpMapReqView) -> Seq<FrameView> {
    match op {
        CpMapReqView::Get(k) => seq![data_view(k)],
        CpMapReqView::Remove(k) => seq![data_view(k)],
        CpMapReqView::Delete(k) => seq![data_view(k)],
        CpMapReqView::Put(k, v) => seq![data_view(k), data_view(v)],
        CpMapReqView::SetTo(k, v) => seq![data_view(k), data_view(v)],
        CpMapReqView::PutIfAbsent(k, v) => seq![data_view(k), data_view(v)],
        CpMapReqView::CompareAndSet(k, e, n) => seq![data_view(k), data_view(e), data_view(n)],
    }
}

/// A request as a client builds it: the initial frame, the group id, the object name, and the
/// data values.
pub fn encode_request(req_type: i32, group: &str, name: &str, op: &CpMapReq) -> (r: Vec<Frame>)
    ensures
        views(r@) == cp_request(header(16, req_type), group@, name@) + args_frames(op@),
{
    let mut frames: Vec<Frame> = new_cp_request(new_header(16, req_type), group, name);
    let ghost head = views(frames@);
    match op {
        CpMapReq::Get(k) | CpMapReq::Remove(k) | CpMapReq::Delete(k) => {
            frames.push(data_frame(k.as_slice()));
        },
        CpMapReq::Put(k, v) | CpMapReq::SetTo(k, v) | CpMapReq::PutIfAbsent(k, v) => {
            frames.push(data_frame(k.as_slice()));
            frames.push(data_frame(v.as_slice()));
        },
        CpMapReq::CompareAndSet(k, e, n) => {
            frames.push(data_frame(k.as_slice()));
            frames.push(data_frame(e.as_slice()));
            frames.push(data_frame(n.as_slice()));
        },
    }
    assert(views(frames@) =~= head + args_frames(op@));
    frames
}

/// The request type of an op.
pub open spec fn request_type(op: CpMapReqView) -> i32 {
    match op {
        CpMapReqView::Get(_) => GET_REQ,
        CpMapReqView::Put(_, _) => PUT_REQ,
        CpMapReqView::SetTo(_, _) => SET_REQ,
        CpMapReqView::Remove(_) => REMOVE_REQ,
        CpMapReqView::Delete(_) => DELETE_REQ,
        CpMapReqView::CompareAndSet(_, _, _) => CAS_REQ,
        CpMapReqView::PutIfAbsent(_, _) => PUT_IF_ABSENT_REQ,
    }
}

/// A request decodes to the name and op that it was built from.
pub proof fn law_requests_read_back(op: CpMapReqView, group: Seq<char>, name: Seq<char>)
    ensures
        ({
            let t = request_type(op);
            let frames = cp_request(header(16, t), group, name) + args_frames(op);
            is_readable(frames) && request_in(t, frames) == Some((name, op))
        }),
{
    law_strings_read_back(name);
    assert(0u16 & 0x0400u16 == 0) by (bit_vector);
}

/// What requests ask for, by their type: the map's name stands in the sixth frame, key and values
/// behind it.
pub proof fn law_requests_by_type(frames: Seq<FrameView>, name: Seq<char>, t: i32)
    requires
        frames.len() > 8,
        text_of(frames[5].content) == Some(name),
        !frames[6].is_null(),
        !frames[7].is_null(),
        !frames[8].is_null(),
    ensures
        ({
            let a = frames[6].content;
            let b = frames[7].content;
            let c = frames[8].content;
            &&& request_in(2294016, frames) == Some((name, CpMapReqView::Get(a)))
            &&& request_in(2294272, frames) == Some((name, CpMapReqView::Put(a, b)))
            &&& request_in(2294528, frames) == Some((name, CpMapReqView::SetTo(a, b)))
            &&& request_in(2294784, frames) == Some((name, CpMapReqView::Remove(a)))
            &&& request_in(2295040, frames) == Some((name, CpMapReqView::Delete(a)))
            &&& request_in(2295296, frames) == Some((name, CpMapReqView::CompareAndSet(a, b, c)))
            &&& request_in(2295552, frames) == Some((name, CpMapReqView::PutIfAbsent(a, b)))
        }),
        is_map_request(t) <==> request_in(t, frames) is Some,
{
}

} // verus!
