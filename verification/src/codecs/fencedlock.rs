//! `FencedLock` requests: session @16 and thread @24 of the initial frame; the object name is the
//! last frame.

use vstd::prelude::*;
use super::layout::{
    cp_request, header, lemma_longs_read_back, new_cp_request, new_header, with_long,
};
use crate::bytes::{i64_at, set_i64};
use crate::model::views;
use crate::protocol::fixed::read_i64_le;
use crate::protocol::frame::{Frame, FrameView};
use crate::protocol::primitives::{decode_string, law_strings_read_back};
use crate::text::text_of;

verus! {

pub const LOCK_REQ: i32 = 459008;

pub const LOCK_RESP: i32 = 459009;

pub const TRY_LOCK_REQ: i32 = 459264;

pub const TRY_LOCK_RESP: i32 = 459265;

pub const UNLOCK_REQ: i32 = 459520;

pub const UNLOCK_RESP: i32 = 459521;

pub const SESSION_OFFSET: usize = 16;

pub const THREAD_OFFSET: usize = 24;

/// A decoded FencedLock operation.
#[derive(Clone, Copy, Debug, PartialEq, Eq, Structural)]
pub enum FlReq {
    Lock,
    TryLock,
    Unlock,
}

#[derive(Clone, Debug, PartialEq, Eq)]
pub struct FencedLockRequest {
    pub name: String,
    pub session: i64,
    pub thread: i64,
    pub op: FlReq,
}

impl View for FencedLockRequest {
    type V = (Seq<char>, i64, i64, FlReq);

    open spec fn view(&self) -> (Seq<char>, i64, i64, FlReq) {
        (self.name@, self.session, self.thread, self.op)
    }
}

pub open spec fn response_to(req_type: i32) -> Option<i32> {
    if req_type == LOCK_REQ {
        Some(LOCK_RESP)
    } else if req_type == TRY_LOCK_REQ {
        Some(TRY_LOCK_RESP)
    } else if req_type == UNLOCK_REQ {
        Some(UNLOCK_RESP)
    } else {
        None
    }
}

pub fn is_fencedlock(req_type: i32) -> (b: bool)
    ensures
        b == (response_to(req_type) is Some),
{
    response_type(req_type).is_some()
}

pub fn response_type(req_type: i32) -> (r: Option<i32>)
    ensures
        r == response_to(req_type),
{
    match req_type {
        LOCK_REQ => Some(LOCK_RESP),
        TRY_LOCK_REQ => Some(TRY_LOCK_RESP),
        UNLOCK_REQ => Some(UNLOCK_RESP),
        _ => None,
    }
}

/// The long at `off` of the initial frame, 0 if it does not reach that far.
pub open spec fn long_in(frames: Seq<FrameView>, off: int) -> i64 {
    if frames.len() > 0 && frames[0].content.len() >= off + 8 {
        i64_at(frames[0].content, off)
    } else {
        0
    }
}

fn long_at(frames: &[Frame], off: usize) -> (v: i64)
    requires
        off <= 1000,
    ensures
        v == long_in(views(frames@), off as int),
{
    if frames.len() == 0 {
        return 0;
    }
    assert(views(frames@)[0] == frames@[0]@);
    if frames[0].content.len() >= off + 8 {
        read_i64_le(frames[0].content.as_slice(), off)
    } else {
        0
    }
}

pub open spec fn op_of(req_type: i32) -> Option<FlReq> {
    if req_type == LOCK_REQ {
        Some(FlReq::Lock)
    } else if req_type == TRY_LOCK_REQ {
        Some(FlReq::TryLock)
    } else if req_type == UNLOCK_REQ {
        Some(FlReq::Unlock)
    } else {
        None
    }
}

/// Whether the object name of a lock request, if there is one, is text.
pub open spec fn is_readable(req_type: i32, frames: Seq<FrameView>) -> bool {
    op_of(req_type) is Some && frames.len() > 0 ==> text_of(frames.last().content) is Some
}

/// What a request says: name, session, thread, op.
pub open spec fn request_in(req_type: i32, frames: Seq<FrameView>) -> Option<
    (Seq<char>, i64, i64, FlReq),
> {
    if frames.len() == 0 {
        None
    } else {
        match (text_of(frames.last().content), op_of(req_type)) {
            (Some(name), Some(op)) => Some((name, long_in(frames, 16), long_in(frames, 24), op)),
            _ => None,
        }
    }
}

pub fn decode_request(req_type: i32, frames: &[Frame]) -> (r: Option<FencedLockRequest>)
    requires
        is_readable(req_type, views(frames@)),
    ensures
        match r {
            Some(q) => request_in(req_type, views(frames@)) == Some(q@),
            None => request_in(req_type, views(frames@)) is None,
        },
{
    let op = match req_type {
        LOCK_REQ => FlReq::Lock,
        TRY_LOCK_REQ => FlReq::TryLock,
        UNLOCK_REQ => FlReq::Unlock,
        _ => {
            return None;
        },
    };
    let n: usize = frames.len();
    if n == 0 {
        return None;
    }
    assert(views(frames@).last() == frames@[n - 1]@);
    Some(
        FencedLockRequest {
            name: decode_string(&frames[n - 1]),
            session: long_at(frames, SESSION_OFFSET),
            thread: long_at(frames, THREAD_OFFSET),
            op,
        },
    )
}

/// The initial frame of a request, with room for the invocation id.
pub open spec fn init_bytes(req_type: i32, session: i64, thread: i64) -> Seq<u8> {
    with_long(with_long(header(49, req_type), 16, session), 24, thread)
}

/// A request as a client builds it.
pub fn encode_request(
    req_type: i32,
    group: &str,
    name: &str,
    session: i64,
    thread: i64,
) -> (r: Vec<Frame>)
    ensures
        views(r@) == cp_request(init_bytes(req_type, session, thread), group@, name@),
{
    let mut init: Vec<u8> = new_header(49, req_type);
    set_i64(init.as_mut_slice(), SESSION_OFFSET, session);
    proof {
        lemma_longs_read_back(49, req_type, session, thread);
    }
    set_i64(init.as_mut_slice(), THREAD_OFFSET, thread);
    new_cp_request(init, group, name)
}

/// A request decodes to the name, owner and op that it was built from.
pub proof fn law_requests_read_back(
    req_type: i32,
    op: FlReq,
    group: Seq<char>,
    name: Seq<char>,
    session: i64,
    thread: i64,
)
    requires
        op_of(req_type) == Some(op),
    ensures
        ({
            let frames = cp_request(init_bytes(req_type, session, thread), group, name);
            is_readable(req_type, frames) && request_in(req_type, frames) == Some(
                (name, session, thread, op),
            )
        }),
{
    law_strings_read_back(name);
    lemma_longs_read_back(49, req_type, session, thread);
}

/// The answer to a request has the type of the request plus one, and these are the requests.
pub proof fn law_answers_follow_their_requests(t: i32)
    ensures
        response_to(t) matches Some(r) ==> r == t + 1,
        response_to(t) is Some <==> t == 459008 || t == 459264 || t == 459520,
{
}

/// What requests ask for, by their type: the lock's name stands in the last frame, session and
/// thread in the first, from byte 16 on.
pub proof fn law_requests_by_type(frames: Seq<FrameView>, name: Seq<char>)
    requires
        frames.len() > 0,
        text_of(frames.last().content) == Some(name),
        frames[0].content.len() >= 32,
    ensures
        ({
            let session = i64_at(frames[0].content, 16);
            let thread = i64_at(frames[0].content, 24);
            &&& request_in(459008, frames) == Some((name, session, thread, FlReq::Lock))
            &&& request_in(459264, frames) == Some((name, session, thread, FlReq::TryLock))
            &&& request_in(459520, frames) == Some((name, session, thread, FlReq::Unlock))
        }),
{
}

/// A session or thread that the first frame is too short for is zero.
pub proof fn law_missing_ids_are_zero(t: i32, frames: Seq<FrameView>, name: Seq<char>)
    requires
        frames.len() > 0,
        text_of(frames.last().content) == Some(name),
    ensures
        request_in(t, frames) matches Some((_, session, thread, _)) ==> (frames[0].content.len() < 24
            ==> session == 0) && (frames[0].content.len() < 32 ==> thread == 0),
{
}

} // verus!
