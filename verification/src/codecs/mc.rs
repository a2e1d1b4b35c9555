//! Management messages.

use vstd::prelude::*;
use super::layout::{header, new_header};
use crate::model::views;
use crate::protocol::frame::Frame;
use crate::protocol::primitives::{initial_frame, initial_view, string_frame, string_view};

verus! {

/// The type of the response that carries the timed member state.
pub const TIMED_MEMBER_STATE_RESP: i32 = 2099969;

/// The response that carries the timed member state as one JSON string.
pub fn encode_get_timed_member_state_response(json_state: &str) -> (r: Vec<Frame>)
    ensures
        views(r@) == seq![
            initial_view(header(13, TIMED_MEMBER_STATE_RESP)),
            string_view(json_state@),
        ],
{
    let mut r: Vec<Frame> = Vec::new();
    r.push(initial_frame(new_header(13, TIMED_MEMBER_STATE_RESP)));
    r.push(string_frame(json_state));
    assert(views(r@) =~= seq![
        initial_view(header(13, TIMED_MEMBER_STATE_RESP)),
        string_view(json_state@),
    ]);
    r
}

} // verus!
