//! `ICountDownLatch` and `ISemaphore` requests and responses.
//!
//! Parameters are fixed fields of the initial frame; the object name is the last frame. Responses
//! are an int or a bool at 13, or void.

use vstd::prelude::*;
use super::layout::{
    bool_response, cp_request, header, int_response, new_bool_response, new_cp_request,
    new_header, new_int_response, new_void_response, void_response, with_int,
};
use crate::bytes::{i32_at, i32_le, lemma_ints_read_back, lemma_le_digits_len, set_i32};
use crate::model::views;
use crate::protocol::fixed::read_i32_le;
use crate::protocol::frame::{Frame, FrameView};
use crate::protocol::primitives::{decode_string, law_strings_read_back};
use crate::text::text_of;

verus! {

pub const CDL_GET_COUNT_REQ: i32 = 721920;

pub const CDL_GET_COUNT_RESP: i32 = 721921;

pub const CDL_COUNT_DOWN_REQ: i32 = 721664;

pub const CDL_COUNT_DOWN_RESP: i32 = 721665;

pub const CDL_TRY_SET_COUNT_REQ: i32 = 721152;

pub const CDL_TRY_SET_COUNT_RESP: i32 = 721153;

pub const SEM_INIT_REQ: i32 = 786688;

pub const SEM_INIT_RESP: i32 = 786689;

pub const SEM_ACQUIRE_REQ: i32 = 786944;

pub const SEM_ACQUIRE_RESP: i32 = 786945;

pub const SEM_RELEASE_REQ: i32 = 787200;

pub const SEM_RELEASE_RESP: i32 = 787201;

pub const SEM_DRAIN_REQ: i32 = 787456;

pub const SEM_DRAIN_RESP: i32 = 787457;

pub const SEM_AVAILABLE_REQ: i32 = 787968;

pub const SEM_AVAILABLE_RESP: i32 = 787969;

/// A decoded counter operation.
#[derive(Clone, Copy, Debug, PartialEq, Eq, Structural)]
pub enum CpCountReq {
    CdlGetCount,
    CdlCountDown,
    CdlTrySetCount(i32),
    SemInit(i32),
    SemAcquire(i32),
    SemRelease(i32),
    SemDrain,
    SemAvailablePermits,
}

#[derive(Clone, Debug, PartialEq, Eq)]
pub struct CpCountRequest {
    pub name: String,
    pub op: CpCountReq,
}

impl View for CpCountRequest {
    type V = (Seq<char>, CpCountReq);

    open spec fn view(&self) -> (Seq<char>, CpCountReq) {
        (self.name@, self.op)
    }
}

pub open spec fn response_to(req_type: i32) -> Option<i32> {
    if req_type == CDL_GET_COUNT_REQ {
        Some(CDL_GET_COUNT_RESP)
    } else if req_type == CDL_COUNT_DOWN_REQ {
        Some(CDL_COUNT_DOWN_RESP)
    } else if req_type == CDL_TRY_SET_COUNT_REQ {
        Some(CDL_TRY_SET_COUNT_RESP)
    } else if req_type == SEM_INIT_REQ {
        Some(SEM_INIT_RESP)
    } else if req_type == SEM_ACQUIRE_REQ {
        Some(SEM_ACQUIRE_RESP)
    } else if req_type == SEM_RELEASE_REQ {
        Some(SEM_RELEASE_RESP)
    } else if req_type == SEM_DRAIN_REQ {
        Some(SEM_DRAIN_RESP)
    } else if req_type == SEM_AVAILABLE_REQ {
        Some(SEM_AVAILABLE_RESP)
    } else {
        None
    }
}

pub fn is_cp_count(req_type: i32) -> (b: bool)
    ensures
        b == (response_to(req_type) is Some),
{
    response_type(req_type).is_some()
}

pub fn response_type(req_type: i32) -> (r: Option<i32>)
    ensures
        r == response_to(req_type),
{
    match req_type {
        CDL_GET_COUNT_REQ => Some(CDL_GET_COUNT_RESP),
        CDL_COUNT_DOWN_REQ => Some(CDL_COUNT_DOWN_RESP),
        CDL_TRY_SET_COUNT_REQ => Some(CDL_TRY_SET_COUNT_RESP),
        SEM_INIT_REQ => Some(SEM_INIT_RESP),
        SEM_ACQUIRE_REQ => Some(SEM_ACQUIRE_RESP),
        SEM_RELEASE_REQ => Some(SEM_RELEASE_RESP),
        SEM_DRAIN_REQ => Some(SEM_DRAIN_RESP),
        SEM_AVAILABLE_REQ => Some(SEM_AVAILABLE_RESP),
        _ => None,
    }
}

/// The int at `off` of the initial frame, 0 if it does not reach that far.
pub open spec fn int_in(frames: Seq<FrameView>, off: int) -> i32 {
    if frames.len() > 0 && frames[0].content.len() >= off + 4 {
        i32_at(frames[0].content, off)
    } else {
        0
    }
}

fn int_at(frames: &[Frame], off: usize) -> (v: i32)
    requires
        off <= 1000,
    ensures
        v == int_in(views(frames@), off as int),
{
    if frames.len() == 0 {
        return 0;
    }
    assert(views(frames@)[0] == frames@[0]@);
    if frames[0].content.len() >= off + 4 {
        read_i32_le(frames[0].content.as_slice(), off)
    } else {
        0
    }
}

/// Whether the object name, if there is one, is text.
pub open spec fn is_readable(frames: Seq<FrameView>) -> bool {
    frames.len() > 0 ==> text_of(frames.last().content) is Some
}

/// The op that a request's frames hold. Semaphore acquire and release have their permits behind
/// session, thread and invocation id.
pub open spec fn op_in(req_type: i32, frames: Seq<FrameView>) -> Option<CpCountReq> {
    if req_type == CDL_GET_COUNT_REQ {
        Some(CpCountReq::CdlGetCount)
    } else if req_type == CDL_COUNT_DOWN_REQ {
        Some(CpCountReq::CdlCountDown)
    } else if req_type == CDL_TRY_SET_COUNT_REQ {
        Some(CpCountReq::CdlTrySetCount(int_in(frames, 16)))
    } else if req_type == SEM_INIT_REQ {
        Some(CpCountReq::SemInit(int_in(frames, 16)))
    } else if req_type == SEM_ACQUIRE_REQ {
        Some(CpCountReq::SemAcquire(int_in(frames, 49)))
    } else if req_type == SEM_RELEASE_REQ {
        Some(CpCountReq::SemRelease(int_in(frames, 49)))
    } else if req_type == SEM_DRAIN_REQ {
        Some(CpCountReq::SemDrain)
    } else if req_type == SEM_AVAILABLE_REQ {
        Some(CpCountReq::SemAvailablePermits)
    } else {
        None
    }
}

/// What a request says.
pub open spec fn request_in(req_type: i32, frames: Seq<FrameView>) -> Option<
    (Seq<char>, CpCountReq),
> {
    if frames.len() == 0 {
        None
    } else {
        match (text_of(frames.last().content), op_in(req_type, frames)) {
            (Some(name), Some(op)) => Some((name, op)),
            _ => None,
        }
    }
}

/// Decodes a request.
pub fn decode_request(req_type: i32, frames: &[Frame]) -> (r: Option<CpCountRequest>)
    requires
        is_readable(views(frames@)),
    ensures
        match r {
            Some(q) => request_in(req_type, views(frames@)) == Some(q@),
            None => request_in(req_type, views(frames@)) is None,
        },
{
    let n: usize = frames.len();
    if n == 0 {
        return None;
    }
    assert(views(frames@).last() == frames@[n - 1]@);
    let name = decode_string(&frames[n - 1]);
    let op = match req_type {
        CDL_GET_COUNT_REQ => CpCountReq::CdlGetCount,
        CDL_COUNT_DOWN_REQ => CpCountReq::CdlCountDown,
        CDL_TRY_SET_COUNT_REQ => CpCountReq::CdlTrySetCount(int_at(frames, 16)),
        SEM_INIT_REQ => CpCountReq::SemInit(int_at(frames, 16)),
        SEM_ACQUIRE_REQ => CpCountReq::SemAcquire(int_at(frames, 49)),
        SEM_RELEASE_REQ => CpCountReq::SemRelease(int_at(frames, 49)),
        SEM_DRAIN_REQ => CpCountReq::SemDrain,
        SEM_AVAILABLE_REQ => CpCountReq::SemAvailablePermits,
        _ => {
            return None;
        },
    };
    Some(CpCountRequest { name, op })
}

/// An int response (type at 0, value at 13).
pub fn encode_int_response(resp_type: i32, value: i32) -> (r: Vec<Frame>)
    ensures
        views(r@) == int_response(resp_type, value),
{
    new_int_response(resp_type, value)
}

/// A bool response (bool byte at 13).
pub fn encode_bool_response(resp_type: i32, value: bool) -> (r: Vec<Frame>)
    ensures
        views(r@) == bool_response(resp_type, value),
{
    new_bool_response(resp_type, value)
}

/// A void response (header only).
pub fn encode_void_response(resp_type: i32) -> (r: Vec<Frame>)
    ensures
        views(r@) == void_response(resp_type),
{
    new_void_response(resp_type)
}

/// The initial frame of a request with an int at `int_off`; an offset below 16 means none.
pub open spec fn init_bytes(req_type: i32, int_off: int, value: i32) -> Seq<u8> {
    if int_off >= 16 {
        with_int(header((int_off + 4) as nat, req_type), int_off, value)
    } else {
        header(20, req_type)
    }
}

/// A request as a client builds it: the initial frame, the group id, the object name.
pub fn encode_request(
    req_type: i32,
    group: &str,
    name: &str,
    int_off: usize,
    value: i32,
) -> (r: Vec<Frame>)
    requires
        int_off + 4 <= usize::MAX,
    ensures
        views(r@) == cp_request(init_bytes(req_type, int_off as int, value), group@, name@),
{
    let len: usize = if int_off > 16 {
        int_off + 4
    } else {
        20
    };
    let mut init: Vec<u8> = new_header(len, req_type);
    if int_off >= 16 {
        set_i32(init.as_mut_slice(), int_off, value);
    }
    new_cp_request(init, group, name)
}

/// The request type of an op and the offset of its parameter.
pub open spec fn request_type(op: CpCountReq) -> (i32, int, i32) {
    match op {
        CpCountReq::CdlGetCount => (CDL_GET_COUNT_REQ, 0, 0),
        CpCountReq::CdlCountDown => (CDL_COUNT_DOWN_REQ, 0, 0),
        CpCountReq::CdlTrySetCount(n) => (CDL_TRY_SET_COUNT_REQ, 16, n),
        CpCountReq::SemInit(n) => (SEM_INIT_REQ, 16, n),
        CpCountReq::SemAcquire(n) => (SEM_ACQUIRE_REQ, 49, n),
        CpCountReq::SemRelease(n) => (SEM_RELEASE_REQ, 49, n),
        CpCountReq::SemDrain => (SEM_DRAIN_REQ, 0, 0),
        CpCountReq::SemAvailablePermits => (SEM_AVAILABLE_REQ, 0, 0),
    }
}

/// A request decodes to the name and op that it was built from.
pub proof fn law_requests_read_back(op: CpCountReq, group: Seq<char>, name: Seq<char>)
    ensures
        ({
            let (t, off, v) = request_type(op);
            let frames = cp_request(init_bytes(t, off, v), group, name);
            is_readable(frames) && request_in(t, frames) == Some((name, op))
        }),
{
    broadcast use lemma_le_digits_len;

    let (t, off, v) = request_type(op);
    law_strings_read_back(name);
    if off >= 16 {
        let b = init_bytes(t, off, v);
        lemma_ints_read_back(0, 0, 0, v, 0);
        assert(b.subrange(off, off + 4) =~= i32_le(v));
    }
}

/// The answer to a request has the type of the request plus one, and these are the requests.
pub proof fn law_answers_follow_their_requests(t: i32)
    ensures
        response_to(t) matches Some(r) ==> r == t + 1,
        response_to(t) is Some <==> t == 721920 || t == 721664 || t == 721152 || t == 786688 || t == 786944 || t == 787200 || t == 787456 || t == 787968,
{
}

/// What requests ask for, by their type: the object's name stands in the last frame, the number in
/// the first: for latches and for setting up a semaphore at byte 16, for acquiring and releasing
/// behind session, thread and invocation, at byte 49.
pub proof fn law_requests_by_type(frames: Seq<FrameView>, name: Seq<char>)
    requires
        frames.len() > 0,
        text_of(frames.last().content) == Some(name),
        frames[0].content.len() >= 53,
    ensures
        ({
            let a = i32_at(frames[0].content, 16);
            let b = i32_at(frames[0].content, 49);
            &&& request_in(721920, frames) == Some((name, CpCountReq::CdlGetCount))
            &&& request_in(721664, frames) == Some((name, CpCountReq::CdlCountDown))
            &&& request_in(721152, frames) == Some((name, CpCountReq::CdlTrySetCount(a)))
            &&& request_in(786688, frames) == Some((name, CpCountReq::SemInit(a)))
            &&& request_in(786944, frames) == Some((name, CpCountReq::SemAcquire(b)))
            &&& request_in(787200, frames) == Some((name, CpCountReq::SemRelease(b)))
            &&& request_in(787456, frames) == Some((name, CpCountReq::SemDrain))
            &&& request_in(787968, frames) == Some((name, CpCountReq::SemAvailablePermits))
        }),
{
}

/// A number that the first frame is too short for is zero.
pub proof fn law_missing_numbers_are_zero(frames: Seq<FrameView>, name: Seq<char>)
    requires
        frames.len() > 0,
        text_of(frames.last().content) == Some(name),
    ensures
        frames[0].content.len() < 20 ==> request_in(721152, frames) == Some(
            (name, CpCountReq::CdlTrySetCount(0)),
        ),
        frames[0].content.len() < 20 ==> request_in(786688, frames) == Some(
            (name, CpCountReq::SemInit(0)),
        ),
        frames[0].content.len() < 53 ==> request_in(786944, frames) == Some(
            (name, CpCountReq::SemAcquire(0)),
        ),
        frames[0].content.len() < 53 ==> request_in(787200, frames) == Some(
            (name, CpCountReq::SemRelease(0)),
        ),
{
}

} // verus!
