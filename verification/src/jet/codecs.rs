//! Job submission messages.

use vstd::prelude::*;
use crate::bytes::{i64_at, lemma_le_digits_len, set_i32, set_i64};
use crate::codecs::layout::{header, new_header, with_int, with_long};
use crate::model::views;
use crate::protocol::fixed::read_i64_le;
use crate::protocol::frame::Frame;
use crate::protocol::message::has_header;
use crate::protocol::primitives::{initial_frame, initial_view};

verus! {

pub const SUBMIT_JOB_RESP: i32 = 16646401;

pub const GET_JOB_STATUS_RESP: i32 = 16646913;

pub const JOIN_SUBMITTED_JOB_RESP: i32 = 16647425;

/// The job id of a submission. The description of the job is not read.
pub fn decode_submit_job(frames: &[Frame]) -> (r: (i64, Vec<u8>))
    requires
        has_header(frames@, 24),
    ensures
        r.0 == i64_at(frames@[0].content@, 16),
        r.1@.len() == 0,
{
    let job_id: i64 = read_i64_le(frames[0].content.as_slice(), 16);
    (job_id, Vec::new())
}

/// The response to a submission: the job id @14.
pub fn encode_submit_job_response(job_id: i64) -> (r: Vec<Frame>)
    ensures
        views(r@) == seq![initial_view(with_long(header(22, SUBMIT_JOB_RESP), 14, job_id))],
{
    broadcast use lemma_le_digits_len;

    let mut c: Vec<u8> = new_header(22, SUBMIT_JOB_RESP);
    set_i64(c.as_mut_slice(), 14, job_id);
    let mut r: Vec<Frame> = Vec::new();
    r.push(initial_frame(c));
    assert(views(r@) =~= seq![initial_view(with_long(header(22, SUBMIT_JOB_RESP), 14, job_id))]);
    r
}

/// The job id of a status request.
pub fn decode_get_job_status(frames: &[Frame]) -> (id: i64)
    requires
        has_header(frames@, 24),
    ensures
        id == i64_at(frames@[0].content@, 16),
{
    read_i64_le(frames[0].content.as_slice(), 16)
}

/// The response to a status request: the status @14.
pub fn encode_get_job_status_response(status: i32) -> (r: Vec<Frame>)
    ensures
        views(r@) == seq![initial_view(with_int(header(22, GET_JOB_STATUS_RESP), 14, status))],
{
    broadcast use lemma_le_digits_len;

    let mut c: Vec<u8> = new_header(22, GET_JOB_STATUS_RESP);
    set_i32(c.as_mut_slice(), 14, status);
    let mut r: Vec<Frame> = Vec::new();
    r.push(initial_frame(c));
    assert(views(r@) =~= seq![initial_view(with_int(header(22, GET_JOB_STATUS_RESP), 14, status))]);
    r
}

/// The job id of a join request.
pub fn decode_join_submitted_job(frames: &[Frame]) -> (id: i64)
    requires
        has_header(frames@, 24),
    ensures
        id == i64_at(frames@[0].content@, 16),
{
    read_i64_le(frames[0].content.as_slice(), 16)
}

/// The response to a join request.
pub fn encode_join_submitted_job_response() -> (r: Vec<Frame>)
    ensures
        views(r@) == seq![initial_view(header(22, JOIN_SUBMITTED_JOB_RESP))],
{
    let mut r: Vec<Frame> = Vec::new();
    r.push(initial_frame(new_header(22, JOIN_SUBMITTED_JOB_RESP)));
    assert(views(r@) =~= seq![initial_view(header(22, JOIN_SUBMITTED_JOB_RESP))]);
    r
}

} // verus!
