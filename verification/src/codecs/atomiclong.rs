//! `IAtomicLong` requests and responses.
//!
//! Request: an initial frame with the op's long arguments at 16 (and 24 for compare-and-set), a
//! group id (begin, `[seed@0][id@8]`, group name, end), and the object name as the last frame.
//! Response: the result at 13 (a long, or a bool byte for compare-and-set).

use vstd::prelude::*;
use super::layout::{
    bool_response, cp_request, header, lemma_longs_read_back, long_response, new_bool_response,
    new_cp_request, new_header, new_long_response, new_void_response, void_response, with_long,
};
use crate::bytes::{i64_at, set_i64};
use crate::model::views;
use crate::protocol::fixed::read_i64_le;
use crate::protocol::frame::{Frame, FrameView};
use crate::protocol::primitives::{decode_string, law_strings_read_back};
use crate::text::text_of;

verus! {

pub const GET_REQ: i32 = 591104;

pub const GET_RESP: i32 = 591105;

pub const ADD_AND_GET_REQ: i32 = 590592;

pub const ADD_AND_GET_RESP: i32 = 590593;

pub const GET_AND_ADD_REQ: i32 = 591360;

pub const GET_AND_ADD_RESP: i32 = 591361;

pub const COMPARE_AND_SET_REQ: i32 = 590848;

pub const COMPARE_AND_SET_RESP: i32 = 590849;

pub const GET_AND_SET_REQ: i32 = 591616;

pub const GET_AND_SET_RESP: i32 = 591617;

pub const SET_REQ: i32 = 591872;

pub const SET_RESP: i32 = 591873;

/// A decoded AtomicLong operation.
#[derive(Clone, Copy, Debug, PartialEq, Eq, Structural)]
pub enum AtomicLongOp {
    Get,
    SetTo(i64),
    GetAndSet(i64),
    AddAndGet(i64),
    GetAndAdd(i64),
    CompareAndSet(i64, i64),
}

/// A decoded AtomicLong request: which object, which op.
#[derive(Clone, Debug, PartialEq, Eq)]
pub struct AtomicLongRequest {
    pub name: String,
    pub op: AtomicLongOp,
}

impl View for AtomicLongRequest {
    type V = (Seq<char>, AtomicLongOp);

    open spec fn view(&self) -> (Seq<char>, AtomicLongOp) {
        (self.name@, self.op)
    }
}

/// The response type of each request type.
pub open spec fn response_to(req_type: i32) -> Option<i32> {
    if req_type == GET_REQ {
        Some(GET_RESP)
    } else if req_type == ADD_AND_GET_REQ {
        Some(ADD_AND_GET_RESP)
    } else if req_type == GET_AND_ADD_REQ {
        Some(GET_AND_ADD_RESP)
    } else if req_type == COMPARE_AND_SET_REQ {
        Some(COMPARE_AND_SET_RESP)
    } else if req_type == GET_AND_SET_REQ {
        Some(GET_AND_SET_RESP)
    } else if req_type == SET_REQ {
        Some(SET_RESP)
    } else {
        None
    }
}

pub fn response_type(req_type: i32) -> (r: Option<i32>)
    ensures
        r == response_to(req_type),
{
    match req_type {
        GET_REQ => Some(GET_RESP),
        ADD_AND_GET_REQ => Some(ADD_AND_GET_RESP),
        GET_AND_ADD_REQ => Some(GET_AND_ADD_RESP),
        COMPARE_AND_SET_REQ => Some(COMPARE_AND_SET_RESP),
        GET_AND_SET_REQ => Some(GET_AND_SET_RESP),
        SET_REQ => Some(SET_RESP),
        _ => None,
    }
}

/// Whether this request is an AtomicLong op.
pub fn is_atomiclong(req_type: i32) -> (b: bool)
    ensures
        b == (response_to(req_type) is Some),
{
    response_type(req_type).is_some()
}

/// How many bytes of the initial frame a request type reads.
pub open spec fn args_end(req_type: i32) -> int {
    if req_type == COMPARE_AND_SET_REQ {
        32
    } else if req_type == GET_REQ || response_to(req_type) is None {
        0
    } else {
        24
    }
}

/// Whether a request can be read: the name is text, and the arguments are all there.
pub open spec fn is_readable(req_type: i32, frames: Seq<FrameView>) -> bool {
    frames.len() > 0 ==> {
        &&& text_of(frames.last().content) is Some
        &&& frames[0].content.len() >= args_end(req_type)
    }
}

/// The op of a request type with its arguments in `init`.
pub open spec fn op_in(req_type: i32, init: Seq<u8>) -> Option<AtomicLongOp> {
    if req_type == GET_REQ {
        Some(AtomicLongOp::Get)
    } else if req_type == SET_REQ {
        Some(AtomicLongOp::SetTo(i64_at(init, 16)))
    } else if req_type == GET_AND_SET_REQ {
        Some(AtomicLongOp::GetAndSet(i64_at(init, 16)))
    } else if req_type == ADD_AND_GET_REQ {
        Some(AtomicLongOp::AddAndGet(i64_at(init, 16)))
    } else if req_type == GET_AND_ADD_REQ {
        Some(AtomicLongOp::GetAndAdd(i64_at(init, 16)))
    } else if req_type == COMPARE_AND_SET_REQ {
        Some(AtomicLongOp::CompareAndSet(i64_at(init, 16), i64_at(init, 24)))
    } else {
        None
    }
}

/// What a request says.
pub open spec fn request_in(req_type: i32, frames: Seq<FrameView>) -> Option<
    (Seq<char>, AtomicLongOp),
> {
    if frames.len() == 0 {
        None
    } else {
        match (text_of(frames.last().content), op_in(req_type, frames[0].content)) {
            (Some(name), Some(op)) => Some((name, op)),
            _ => None,
        }
    }
}

/// Decodes a request.
pub fn decode_request(req_type: i32, frames: &[Frame]) -> (r: Option<AtomicLongRequest>)
    requires
        is_readable(req_type, views(frames@)),
    ensures
        match r {
            Some(q) => request_in(req_type, views(frames@)) == Some(q@),
            None => request_in(req_type, views(frames@)) is None,
        },
{
    let n: usize = frames.len();
    if n == 0 {
        return None;
    }
    assert(views(frames@).last() == frames@[n - 1]@);
    assert(views(frames@)[0] == frames@[0]@);
    let init = frames[0].content.as_slice();
    let name = decode_string(&frames[n - 1]);
    let op = match req_type {
        GET_REQ => AtomicLongOp::Get,
        SET_REQ => AtomicLongOp::SetTo(read_i64_le(init, 16)),
        GET_AND_SET_REQ => AtomicLongOp::GetAndSet(read_i64_le(init, 16)),
        ADD_AND_GET_REQ => AtomicLongOp::AddAndGet(read_i64_le(init, 16)),
        GET_AND_ADD_REQ => AtomicLongOp::GetAndAdd(read_i64_le(init, 16)),
        COMPARE_AND_SET_REQ => AtomicLongOp::CompareAndSet(
            read_i64_le(init, 16),
            read_i64_le(init, 24),
        ),
        _ => {
            return None;
        },
    };
    Some(AtomicLongRequest { name, op })
}

/// A long response (type at 0, value at 13).
pub fn encode_long_response(resp_type: i32, value: i64) -> (r: Vec<Frame>)
    ensures
        views(r@) == long_response(resp_type, value),
{
    new_long_response(resp_type, value)
}

/// A bool response (bool byte at 13).
pub fn encode_bool_response(resp_type: i32, value: bool) -> (r: Vec<Frame>)
    ensures
        views(r@) == bool_response(resp_type, value),
{
    new_bool_response(resp_type, value)
}

/// A void response (header only).
pub fn encode_void_response(resp_type: i32) -> (r: Vec<Frame>)
    ensures
        views(r@) == void_response(resp_type),
{
    new_void_response(resp_type)
}

/// The initial frame of a request.
pub open spec fn init_bytes(req_type: i32, op: AtomicLongOp) -> Seq<u8> {
    match op {
        AtomicLongOp::Get => header(16, req_type),
        AtomicLongOp::SetTo(v) => with_long(header(24, req_type), 16, v),
        AtomicLongOp::GetAndSet(v) => with_long(header(24, req_type), 16, v),
        AtomicLongOp::AddAndGet(v) => with_long(header(24, req_type), 16, v),
        AtomicLongOp::GetAndAdd(v) => with_long(header(24, req_type), 16, v),
        AtomicLongOp::CompareAndSet(e, u) => with_long(
            with_long(header(32, req_type), 16, e),
            24,
            u,
        ),
    }
}

/// A request as a client builds it: the initial frame, the group id, the object name.
pub fn encode_request(req_type: i32, group: &str, name: &str, op: &AtomicLongOp) -> (r: Vec<Frame>)
    ensures
        views(r@) == cp_request(init_bytes(req_type, *op), group@, name@),
{
    let init_len: usize = match op {
        AtomicLongOp::Get => 16,
        AtomicLongOp::CompareAndSet(_, _) => 32,
        _ => 24,
    };
    let mut init: Vec<u8> = new_header(init_len, req_type);
    proof {
        lemma_longs_read_back(24, req_type, 0, 0);
        lemma_longs_read_back(32, req_type, 0, 0);
    }
    match *op {
        AtomicLongOp::SetTo(v)
        | AtomicLongOp::GetAndSet(v)
        | AtomicLongOp::AddAndGet(v)
        | AtomicLongOp::GetAndAdd(v) => {
            set_i64(init.as_mut_slice(), 16, v);
        },
        AtomicLongOp::CompareAndSet(e, u) => {
            set_i64(init.as_mut_slice(), 16, e);
            proof {
                lemma_longs_read_back(32, req_type, e, u);
            }
            set_i64(init.as_mut_slice(), 24, u);
        },
        AtomicLongOp::Get => {},
    }
    new_cp_request(init, group, name)
}

/// The request type of an op.
pub open spec fn request_type(op: AtomicLongOp) -> i32 {
    match op {
        AtomicLongOp::Get => GET_REQ,
        AtomicLongOp::SetTo(_) => SET_REQ,
        AtomicLongOp::GetAndSet(_) => GET_AND_SET_REQ,
        AtomicLongOp::AddAndGet(_) => ADD_AND_GET_REQ,
        AtomicLongOp::GetAndAdd(_) => GET_AND_ADD_REQ,
        AtomicLongOp::CompareAndSet(_, _) => COMPARE_AND_SET_REQ,
    }
}

/// A request decodes to the name and op that it was built from.
pub proof fn law_requests_read_back(op: AtomicLongOp, group: Seq<char>, name: Seq<char>)
    ensures
        is_readable(request_type(op), cp_request(init_bytes(request_type(op), op), group, name)),
        request_in(request_type(op), cp_request(init_bytes(request_type(op), op), group, name))
            == Some((name, op)),
{
    let t = request_type(op);
    law_strings_read_back(name);
    match op {
        AtomicLongOp::Get => {},
        AtomicLongOp::SetTo(v)
        | AtomicLongOp::GetAndSet(v)
        | AtomicLongOp::AddAndGet(v)
        | AtomicLongOp::GetAndAdd(v) => {
            lemma_longs_read_back(24, t, v, 0);
        },
        AtomicLongOp::CompareAndSet(e, u) => {
            lemma_longs_read_back(32, t, e, u);
        },
    }
}

/// The answer to a request has the type of the request plus one, and these are the requests.
pub proof fn law_answers_follow_their_requests(t: i32)
    ensures
        response_to(t) matches Some(r) ==> r == t + 1,
        response_to(t) is Some <==> t == 591104 || t == 590592 || t == 591360 || t == 590848 || t == 591616 || t == 591872,
{
}

/// What requests ask for, by their type: the object's name stands in the last frame, the arguments
/// in the first, from byte 16 on.
pub proof fn law_requests_by_type(frames: Seq<FrameView>, name: Seq<char>)
    requires
        frames.len() > 0,
        text_of(frames.last().content) == Some(name),
    ensures
        ({
            let a = i64_at(frames[0].content, 16);
            let b = i64_at(frames[0].content, 24);
            &&& request_in(591104, frames) == Some((name, AtomicLongOp::Get))
            &&& request_in(591872, frames) == Some((name, AtomicLongOp::SetTo(a)))
            &&& request_in(591616, frames) == Some((name, AtomicLongOp::GetAndSet(a)))
            &&& request_in(590592, frames) == Some((name, AtomicLongOp::AddAndGet(a)))
            &&& request_in(591360, frames) == Some((name, AtomicLongOp::GetAndAdd(a)))
            &&& request_in(590848, frames) == Some((name, AtomicLongOp::CompareAndSet(a, b)))
        }),
{
}

} // verus!
