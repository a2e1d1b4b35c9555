//! CP session requests and responses: create, close, heartbeat, generate thread id. The session id
//! of close and heartbeat is a field of the initial frame at 16.

use vstd::prelude::*;
use super::layout::{
    bool_response, header, long_response, new_bool_response, new_header, new_long_response,
    new_void_response, void_response, with_long,
};
use crate::bytes::{
    i64_at, i64_le, lemma_ints_read_back, lemma_le_digits_len, set_i64,
};
use crate::model::views;
use crate::protocol::fixed::read_i64_le;
use crate::protocol::frame::{Frame, FrameView};
use crate::protocol::primitives::{initial_frame, initial_view};

verus! {

pub const CREATE_REQ: i32 = 2031872;

pub const CREATE_RESP: i32 = 2031873;

pub const CLOSE_REQ: i32 = 2032128;

pub const CLOSE_RESP: i32 = 2032129;

pub const HEARTBEAT_REQ: i32 = 2032384;

pub const HEARTBEAT_RESP: i32 = 2032385;

pub const GENERATE_THREAD_ID_REQ: i32 = 2032640;

pub const GENERATE_THREAD_ID_RESP: i32 = 2032641;

pub const SESSION_ID_OFFSET: usize = 16;

/// A decoded CP session request.
#[derive(Clone, Copy, Debug, PartialEq, Eq, Structural)]
pub enum CpSessionReq {
    Create,
    Close(i64),
    Heartbeat(i64),
    GenerateThreadId,
}

pub open spec fn response_to(req_type: i32) -> Option<i32> {
    if req_type == CREATE_REQ {
        Some(CREATE_RESP)
    } else if req_type == CLOSE_REQ {
        Some(CLOSE_RESP)
    } else if req_type == HEARTBEAT_REQ {
        Some(HEARTBEAT_RESP)
    } else if req_type == GENERATE_THREAD_ID_REQ {
        Some(GENERATE_THREAD_ID_RESP)
    } else {
        None
    }
}

pub fn is_cp_session(req_type: i32) -> (b: bool)
    ensures
        b == (response_to(req_type) is Some),
{
    response_type(req_type).is_some()
}

pub fn response_type(req_type: i32) -> (r: Option<i32>)
    ensures
        r == response_to(req_type),
{
    match req_type {
        CREATE_REQ => Some(CREATE_RESP),
        CLOSE_REQ => Some(CLOSE_RESP),
        HEARTBEAT_REQ => Some(HEARTBEAT_RESP),
        GENERATE_THREAD_ID_REQ => Some(GENERATE_THREAD_ID_RESP),
        _ => None,
    }
}

/// The session id of a request, 0 if the initial frame does not reach that far.
pub open spec fn session_in(frames: Seq<FrameView>) -> i64 {
    if frames.len() > 0 && frames[0].content.len() >= 24 {
        i64_at(frames[0].content, 16)
    } else {
        0
    }
}

fn session_id(frames: &[Frame]) -> (id: i64)
    ensures
        id == session_in(views(frames@)),
{
    if frames.len() == 0 {
        return 0;
    }
    assert(views(frames@)[0] == frames@[0]@);
    if frames[0].content.len() >= SESSION_ID_OFFSET + 8 {
        read_i64_le(frames[0].content.as_slice(), SESSION_ID_OFFSET)
    } else {
        0
    }
}

/// What a request says.
pub open spec fn request_in(req_type: i32, frames: Seq<FrameView>) -> Option<CpSessionReq> {
    if req_type == CREATE_REQ {
        Some(CpSessionReq::Create)
    } else if req_type == CLOSE_REQ {
        Some(CpSessionReq::Close(session_in(frames)))
    } else if req_type == HEARTBEAT_REQ {
        Some(CpSessionReq::Heartbeat(session_in(frames)))
    } else if req_type == GENERATE_THREAD_ID_REQ {
        Some(CpSessionReq::GenerateThreadId)
    } else {
        None
    }
}

pub fn decode_request(req_type: i32, frames: &[Frame]) -> (r: Option<CpSessionReq>)
    ensures
        r == request_in(req_type, views(frames@)),
{
    match req_type {
        CREATE_REQ => Some(CpSessionReq::Create),
        CLOSE_REQ => Some(CpSessionReq::Close(session_id(frames))),
        HEARTBEAT_REQ => Some(CpSessionReq::Heartbeat(session_id(frames))),
        GENERATE_THREAD_ID_REQ => Some(CpSessionReq::GenerateThreadId),
        _ => None,
    }
}

/// The create response: session id @13, lifetime @21, heartbeat period @29.
pub open spec fn create_response(t: i32, session_id: i64, ttl_ms: i64, hb_ms: i64) -> Seq<
    FrameView,
> {
    seq![
        initial_view(
            with_long(with_long(with_long(header(37, t), 13, session_id), 21, ttl_ms), 29, hb_ms),
        ),
    ]
}

pub fn encode_create_response(
    resp_type: i32,
    session_id: i64,
    ttl_ms: i64,
    hb_ms: i64,
) -> (r: Vec<Frame>)
    ensures
        views(r@) == create_response(resp_type, session_id, ttl_ms, hb_ms),
{
    broadcast use lemma_le_digits_len;

    let mut c: Vec<u8> = new_header(37, resp_type);
    set_i64(c.as_mut_slice(), 13, session_id);
    set_i64(c.as_mut_slice(), 21, ttl_ms);
    set_i64(c.as_mut_slice(), 29, hb_ms);
    let mut r: Vec<Frame> = Vec::new();
    r.push(initial_frame(c));
    assert(views(r@) =~= create_response(resp_type, session_id, ttl_ms, hb_ms));
    r
}

/// A long response (value at 13).
pub fn encode_long_response(resp_type: i32, value: i64) -> (r: Vec<Frame>)
    ensures
        views(r@) == long_response(resp_type, value),
{
    new_long_response(resp_type, value)
}

/// A bool response (bool byte at 13).
pub fn encode_bool_response(resp_type: i32, value: bool) -> (r: Vec<Frame>)
    ensures
        views(r@) == bool_response(resp_type, value),
{
    new_bool_response(resp_type, value)
}

/// A void response (header only).
pub fn encode_void_response(resp_type: i32) -> (r: Vec<Frame>)
    ensures
        views(r@) == void_response(resp_type),
{
    new_void_response(resp_type)
}

/// The create response's fields read back.
pub proof fn law_create_response_reads_back(t: i32, id: i64, ttl_ms: i64, hb_ms: i64)
    ensures
        ({
            let c = create_response(t, id, ttl_ms, hb_ms)[0].content;
            &&& crate::bytes::i32_at(c, 0) == t
            &&& i64_at(c, 13) == id
            &&& i64_at(c, 21) == ttl_ms
            &&& i64_at(c, 29) == hb_ms
        }),
{
    broadcast use lemma_le_digits_len;

    let c = create_response(t, id, ttl_ms, hb_ms)[0].content;
    lemma_ints_read_back(0, 0, 0, t, id);
    lemma_ints_read_back(0, 0, 0, t, ttl_ms);
    lemma_ints_read_back(0, 0, 0, t, hb_ms);
    assert(c.subrange(0, 4) =~= crate::bytes::i32_le(t));
    assert(c.subrange(13, 21) =~= i64_le(id));
    assert(c.subrange(21, 29) =~= i64_le(ttl_ms));
    assert(c.subrange(29, 37) =~= i64_le(hb_ms));
}

/// The answer to a request has the type of the request plus one, and these are the requests.
pub proof fn law_answers_follow_their_requests(t: i32)
    ensures
        response_to(t) matches Some(r) ==> r == t + 1,
        response_to(t) is Some <==> t == 2031872 || t == 2032128 || t == 2032384 || t == 2032640,
{
}

/// What requests ask for, by their type: the session stands in the first frame, from byte 16 on.
pub proof fn law_requests_by_type(frames: Seq<FrameView>)
    requires
        frames.len() > 0,
        frames[0].content.len() >= 24,
    ensures
        ({
            let session = i64_at(frames[0].content, 16);
            &&& request_in(2031872, frames) == Some(CpSessionReq::Create)
            &&& request_in(2032128, frames) == Some(CpSessionReq::Close(session))
            &&& request_in(2032384, frames) == Some(CpSessionReq::Heartbeat(session))
            &&& request_in(2032640, frames) == Some(CpSessionReq::GenerateThreadId)
        }),
{
}

/// A session that the first frame is too short for is zero.
pub proof fn law_missing_sessions_are_zero(frames: Seq<FrameView>)
    requires
        frames.len() > 0 ==> frames[0].content.len() < 24,
    ensures
        request_in(2032128, frames) == Some(CpSessionReq::Close(0)),
        request_in(2032384, frames) == Some(CpSessionReq::Heartbeat(0)),
{
}

} // verus!
