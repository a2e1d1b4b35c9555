//! The shapes that the codecs share: marker frames, response headers, and CP requests.

use vstd::prelude::*;
use crate::bytes::{
    i32_at, i32_le, i64_at, i64_le, lemma_ints_read_back, lemma_le_digits_len, overwrite, set_i32,
    set_i64, zeroes, zeros,
};
use crate::model::views;
use crate::protocol::frame::{Frame, FrameView, BEGIN_DS, END_DS};
use crate::protocol::primitives::{
    initial_frame, initial_view, string_frame, string_view,
};

verus! {

pub open spec fn begin_view() -> FrameView {
    FrameView { flags: BEGIN_DS, content: Seq::empty() }
}

pub open spec fn end_view() -> FrameView {
    FrameView { flags: END_DS, content: Seq::empty() }
}

pub fn begin_frame() -> (f: Frame)
    ensures
        f@ == begin_view(),
{
    let f = Frame { flags: BEGIN_DS, content: Vec::new() };
    assert(f@.content =~= Seq::empty());
    f
}

pub fn end_frame() -> (f: Frame)
    ensures
        f@ == end_view(),
{
    let f = Frame { flags: END_DS, content: Vec::new() };
    assert(f@.content =~= Seq::empty());
    f
}

/// `n` bytes that start with a message type.
pub open spec fn header(n: nat, msg_type: i32) -> Seq<u8> {
    overwrite(zeroes(n), 0, i32_le(msg_type))
}

/// A header with a `i64` at `pos`.
pub open spec fn with_long(b: Seq<u8>, pos: int, v: i64) -> Seq<u8> {
    overwrite(b, pos, i64_le(v))
}

/// A header with an `i32` at `pos`.
pub open spec fn with_int(b: Seq<u8>, pos: int, v: i32) -> Seq<u8> {
    overwrite(b, pos, i32_le(v))
}

pub open spec fn bool_byte(b: bool) -> u8 {
    if b {
        1
    } else {
        0
    }
}

/// A response that is one initial frame: type @0, correlation id @4, acknowledgements @12, and a
/// long @13.
pub open spec fn long_response(t: i32, v: i64) -> Seq<FrameView> {
    seq![initial_view(with_long(header(21, t), 13, v))]
}

/// A response with an int @13.
pub open spec fn int_response(t: i32, v: i32) -> Seq<FrameView> {
    seq![initial_view(with_int(header(17, t), 13, v))]
}

/// A response with a bool byte @13.
pub open spec fn bool_response(t: i32, v: bool) -> Seq<FrameView> {
    seq![initial_view(header(14, t).update(13, bool_byte(v)))]
}

/// A response that is its header alone.
pub open spec fn void_response(t: i32) -> Seq<FrameView> {
    seq![initial_view(header(13, t))]
}

pub fn new_header(n: usize, msg_type: i32) -> (c: Vec<u8>)
    requires
        n >= 4,
    ensures
        c@ == header(n as nat, msg_type),
        c@.len() == n,
{
    broadcast use lemma_le_digits_len;

    let mut c: Vec<u8> = zeros(n);
    set_i32(c.as_mut_slice(), 0, msg_type);
    c
}

/// One frame.
fn single(f: Frame) -> (v: Vec<Frame>)
    ensures
        views(v@) == seq![f@],
{
    let mut v: Vec<Frame> = Vec::new();
    v.push(f);
    assert(views(v@) =~= seq![f@]);
    v
}

pub fn new_long_response(t: i32, v: i64) -> (r: Vec<Frame>)
    ensures
        views(r@) == long_response(t, v),
{
    let mut c: Vec<u8> = new_header(21, t);
    set_i64(c.as_mut_slice(), 13, v);
    single(initial_frame(c))
}

pub fn new_int_response(t: i32, v: i32) -> (r: Vec<Frame>)
    ensures
        views(r@) == int_response(t, v),
{
    let mut c: Vec<u8> = new_header(17, t);
    set_i32(c.as_mut_slice(), 13, v);
    single(initial_frame(c))
}

pub fn new_bool_response(t: i32, v: bool) -> (r: Vec<Frame>)
    ensures
        views(r@) == bool_response(t, v),
{
    let mut c: Vec<u8> = new_header(14, t);
    c.set(
        13,
        if v {
            1
        } else {
            0
        },
    );
    single(initial_frame(c))
}

pub fn new_void_response(t: i32) -> (r: Vec<Frame>)
    ensures
        views(r@) == void_response(t),
{
    single(initial_frame(new_header(13, t)))
}

/// A CP request before its arguments: the initial frame, the group id (begin, seed and id, group
/// name, end), and the object name.
pub open spec fn cp_request(init: Seq<u8>, group: Seq<char>, name: Seq<char>) -> Seq<FrameView> {
    seq![
        initial_view(init),
        begin_view(),
        initial_view(zeroes(16)),
        string_view(group),
        end_view(),
        string_view(name),
    ]
}

pub fn new_cp_request(init: Vec<u8>, group: &str, name: &str) -> (r: Vec<Frame>)
    ensures
        views(r@) == cp_request(init@, group@, name@),
{
    let mut r: Vec<Frame> = Vec::new();
    r.push(initial_frame(init));
    r.push(begin_frame());
    r.push(initial_frame(zeros(16)));
    r.push(string_frame(group));
    r.push(end_frame());
    r.push(string_frame(name));
    assert(views(r@) =~= cp_request(init@, group@, name@));
    r
}

/// The responses read back: type, and value at its offset.
pub proof fn law_responses_read_back(t: i32, l: i64, i: i32, b: bool)
    ensures
        i32_at(long_response(t, l)[0].content, 0) == t,
        i64_at(long_response(t, l)[0].content, 13) == l,
        i32_at(int_response(t, i)[0].content, 0) == t,
        i32_at(int_response(t, i)[0].content, 13) == i,
        i32_at(bool_response(t, b)[0].content, 0) == t,
        bool_response(t, b)[0].content[13] == bool_byte(b),
        i32_at(void_response(t)[0].content, 0) == t,
        void_response(t)[0].content.len() == 13,
{
    broadcast use lemma_le_digits_len;

    lemma_ints_read_back(0, 0, 0, t, l);
    lemma_ints_read_back(0, 0, 0, i, l);
    let a = long_response(t, l)[0].content;
    assert(a.subrange(0, 4) =~= i32_le(t));
    assert(a.subrange(13, 21) =~= i64_le(l));
    let c = int_response(t, i)[0].content;
    assert(c.subrange(0, 4) =~= i32_le(t));
    assert(c.subrange(13, 17) =~= i32_le(i));
    let d = bool_response(t, b)[0].content;
    assert(d.subrange(0, 4) =~= i32_le(t));
    let e = void_response(t)[0].content;
    assert(e.subrange(0, 4) =~= i32_le(t));
}

/// The header with a long and maybe another at 16 and 24 reads back.
pub proof fn lemma_longs_read_back(n: nat, t: i32, a: i64, b: i64)
    requires
        n >= 24,
    ensures
        i64_at(with_long(header(n, t), 16, a), 16) == a,
        n >= 32 ==> i64_at(with_long(with_long(header(n, t), 16, a), 24, b), 16) == a,
        n >= 32 ==> i64_at(with_long(with_long(header(n, t), 16, a), 24, b), 24) == b,
        with_long(header(n, t), 16, a).len() == n,
        n >= 32 ==> with_long(with_long(header(n, t), 16, a), 24, b).len() == n,
{
    broadcast use lemma_le_digits_len;

    lemma_ints_read_back(0, 0, 0, 0, a);
    lemma_ints_read_back(0, 0, 0, 0, b);
    let x = with_long(header(n, t), 16, a);
    assert(x.subrange(16, 24) =~= i64_le(a));
    if n >= 32 {
        let y = with_long(x, 24, b);
        assert(y.subrange(16, 24) =~= i64_le(a));
        assert(y.subrange(24, 32) =~= i64_le(b));
    }
}

/// The bytes of answers behind the header: a number from byte 13 on, or one byte for yes or no.
pub proof fn law_flags_are_bytes(t: i32)
    ensures
        bool_response(t, true)[0].content[13] == 1,
        bool_response(t, false)[0].content[13] == 0,
        bool_response(t, true)[0].content.len() == 14,
{
    broadcast use lemma_le_digits_len;

}

} // verus!
