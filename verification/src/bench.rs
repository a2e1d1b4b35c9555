//! What a load driver says to a server, and what it expects back.

use vstd::prelude::*;
use crate::bytes::{
    copy_range, copy_slice, i32_at, i32_le, i64_at, i64_le, lemma_le_digits_len, overwrite, put_slice, put_u64,
    same_bytes, u64_le, zeroes, zeros,
};
use crate::model::{opt_view, views};
use crate::protocol::fixed::{write_i32_le, write_i64_le};
use crate::protocol::frame::{
    first_message, message_bytes, read_message, sendable, write_message, Frame, FrameView,
};
use crate::protocol::message::{set_correlation_id, with_correlation};
use crate::protocol::primitives::{
    data_frame, data_view, initial_frame, initial_view, null_frame, null_view, string_frame,
    string_view,
};
use crate::text::{lemma_text_reads_back, text_of};

verus! {

pub const AUTHENTICATE: i32 = 256;

pub const MAP_PUT: i32 = 65792;

pub const MAP_GET: i32 = 66048;

pub const MAP_SET: i32 = 69376;

/// The partition of a request that is for none.
pub const NO_PARTITION: i32 = -1;

/// A request header: its type, and no partition.
pub open spec fn header(size: nat, msg_type: i32) -> Seq<u8> {
    overwrite(overwrite(zeroes(size), 0, i32_le(msg_type)), 12, i32_le(NO_PARTITION))
}

/// A header with the thread of the caller.
pub open spec fn threaded(size: nat, msg_type: i32) -> Seq<u8> {
    overwrite(header(size, msg_type), 16, i64_le(1))
}

fn header_of(size: usize, msg_type: i32) -> (h: Vec<u8>)
    requires
        size >= 16,
    ensures
        h@ == header(size as nat, msg_type),
        h@.len() == size,
{
    broadcast use lemma_le_digits_len;

    let mut h: Vec<u8> = zeros(size);
    write_i32_le(h.as_mut_slice(), 0, msg_type);
    write_i32_le(h.as_mut_slice(), 12, NO_PARTITION);
    h
}

/// The request with which a client starts.
pub open spec fn authentication() -> Seq<FrameView> {
    seq![
        initial_view(header(36, AUTHENTICATE)),
        string_view("dev"@),
        null_view(),
        null_view(),
        string_view("rust-bench"@),
    ]
}

/// The request with which a client starts: cluster name, no user and password, client type.
pub fn authenticate() -> (req: Vec<Frame>)
    ensures
        views(req@) == authentication(),
{
    let mut req: Vec<Frame> = Vec::new();
    req.push(initial_frame(header_of(36, AUTHENTICATE)));
    req.push(string_frame("dev"));
    req.push(null_frame());
    req.push(null_frame());
    req.push(string_frame("rust-bench"));
    assert(views(req@) =~= authentication());
    req
}

/// A request for the value of a key.
pub fn get_request(name: &str, key: &[u8]) -> (req: Vec<Frame>)
    ensures
        views(req@) == seq![
            initial_view(threaded(24, MAP_GET)),
            string_view(name@),
            data_view(key@),
        ],
{
    broadcast use lemma_le_digits_len;

    let mut h: Vec<u8> = header_of(24, MAP_GET);
    write_i64_le(h.as_mut_slice(), 16, 1);
    let mut req: Vec<Frame> = Vec::new();
    req.push(initial_frame(h));
    req.push(string_frame(name));
    req.push(data_frame(key));
    assert(views(req@) =~= seq![
        initial_view(threaded(24, MAP_GET)),
        string_view(name@),
        data_view(key@),
    ]);
    req
}

/// A request that stores a value for `ttl_ms` milliseconds (0: for ever).
pub fn store_request(msg_type: i32, name: &str, key: &[u8], value: &[u8], ttl_ms: i64) -> (req: Vec<
    Frame,
>)
    ensures
        views(req@) == seq![
            initial_view(overwrite(threaded(32, msg_type), 24, i64_le(ttl_ms))),
            string_view(name@),
            data_view(key@),
            data_view(value@),
        ],
{
    broadcast use lemma_le_digits_len;

    let mut h: Vec<u8> = header_of(32, msg_type);
    write_i64_le(h.as_mut_slice(), 16, 1);
    write_i64_le(h.as_mut_slice(), 24, ttl_ms);
    let mut req: Vec<Frame> = Vec::new();
    req.push(initial_frame(h));
    req.push(string_frame(name));
    req.push(data_frame(key));
    req.push(data_frame(value));
    assert(views(req@) =~= seq![
        initial_view(overwrite(threaded(32, msg_type), 24, i64_le(ttl_ms))),
        string_view(name@),
        data_view(key@),
        data_view(value@),
    ]);
    req
}

/// The value in the answer to a get: the second frame, unless it is null or missing.
pub open spec fn answered(frames: Seq<FrameView>) -> Option<Seq<u8>> {
    if frames.len() < 2 || frames[1].is_null() {
        None
    } else {
        Some(frames[1].content)
    }
}

/// The value in the answer to a get.
pub fn response_value(frames: &[Frame]) -> (v: Option<Vec<u8>>)
    ensures
        opt_view(v) == answered(views(frames@)),
{
    if frames.len() < 2 {
        return None;
    }
    assert(views(frames@)[1] == frames@[1]@);
    if frames[1].is_null() {
        None
    } else {
        Some(copy_slice(frames[1].content.as_slice()))
    }
}

/// The state of a connection: what has arrived, and the correlation id used last.
pub struct Session {
    pub buf: Vec<u8>,
    pub corr: i64,
}

impl Session {
    pub fn new() -> (s: Session)
        ensures
            s.buf@ == Seq::<u8>::empty(),
            s.corr == 0,
    {
        let s = Session { buf: Vec::new(), corr: 0 };
        assert(s.buf@ =~= Seq::empty());
        s
    }

    /// The bytes of a request, with the next correlation id in it.
    pub fn request(&mut self, req: Vec<Frame>) -> (out: Vec<u8>)
        requires
            req@.len() > 0,
            req@[0].content@.len() >= 12,
            sendable(views(req@)),
        ensures
            final(self).corr == old(self).corr.wrapping_add(1),
            final(self).buf@ == old(self).buf@,
            out@ == message_bytes(
                views(req@).update(0, with_correlation(req@[0]@, final(self).corr)),
            ),
    {
        broadcast use lemma_le_digits_len;

        self.corr = self.corr.wrapping_add(1);
        let mut frames = req;
        set_correlation_id(frames.as_mut_slice(), self.corr);
        proof {
            let was = views(req@);
            let now = views(frames@);
            assert forall|i: int| 0 <= i < now.len() implies (#[trigger] now[i]).content.len()
                == was[i].content.len() by {}
            assert(sendable(now));
        }
        write_message(frames.as_slice())
    }

    /// Bytes arrived.
    pub fn receive(&mut self, bytes: &[u8])
        ensures
            final(self).buf@ == old(self).buf@ + bytes@,
            final(self).corr == old(self).corr,
    {
        put_slice(&mut self.buf, bytes);
    }

    /// Takes out the first message, if it has arrived whole.
    pub fn response(&mut self) -> (r: Option<Vec<Frame>>)
        ensures
            final(self).corr == old(self).corr,
            match r {
                Some(frames) => first_message(old(self).buf@) matches Some((fs, used)) && views(
                    frames@,
                ) == fs && final(self).buf@ == old(self).buf@.skip(used),
                None => first_message(old(self).buf@) is None && final(self).buf@ == old(self).buf@,
            },
    {
        match read_message(self.buf.as_slice()) {
            Some((frames, used)) => {
                let rest = copy_range(self.buf.as_slice(), used, self.buf.len());
                assert(rest@ =~= self.buf@.skip(used as int));
                self.buf = rest;
                Some(frames)
            },
            None => None,
        }
    }
}

/// Byte `j` of the value that is stored under key `i`: the index in the clear in front, then a
/// pattern that differs from key to key.
pub open spec fn expected_byte(i: u64, j: int) -> u8 {
    if j < 8 {
        u64_le(i)[j]
    } else {
        ((i * 131 + j) % 256) as u8
    }
}

/// The value that is stored under key `i`.
pub fn expected_value(i: u64, size: usize) -> (v: Vec<u8>)
    ensures
        v@ == Seq::new(size as nat, |j: int| expected_byte(i, j)),
{
    broadcast use lemma_le_digits_len;

    let mut idx: Vec<u8> = Vec::new();
    put_u64(&mut idx, i);
    assert(idx@ =~= u64_le(i));
    let mut v: Vec<u8> = Vec::new();
    let mut j: usize = 0;
    while j < size
        invariant
            j <= size,
            idx@ == u64_le(i),
            idx@.len() == 8,
            v@ =~= Seq::new(j as nat, |j: int| expected_byte(i, j)),
        decreases size - j,
    {
        let b: u8 = if j < 8 {
            idx[j]
        } else {
            ((i as u128 * 131 + j as u128) % 256) as u8
        };
        v.push(b);
        j = j + 1;
    }
    v
}

/// How reads compare with what was stored.
#[derive(Clone, Copy, Debug, PartialEq, Eq, Structural)]
pub struct Tally {
    pub hit: usize,
    pub miss: usize,
    pub mismatch: usize,
}

impl Tally {
    pub open spec fn total(self) -> int {
        self.hit + self.miss + self.mismatch
    }

    /// Counts a read: a hit if it gave back what was stored.
    pub fn count(&mut self, read: &Option<Vec<u8>>, expected: &[u8])
        requires
            old(self).total() < usize::MAX,
        ensures
            final(self).total() == old(self).total() + 1,
            *final(self) == match opt_view(*read) {
                None => Tally { miss: (old(self).miss + 1) as usize, ..*old(self) },
                Some(v) => if v == expected@ {
                    Tally { hit: (old(self).hit + 1) as usize, ..*old(self) }
                } else {
                    Tally { mismatch: (old(self).mismatch + 1) as usize, ..*old(self) }
                },
            },
    {
        match read {
            None => {
                self.miss = self.miss + 1;
            },
            Some(v) => if same_bytes(v.as_slice(), expected) {
                self.hit = self.hit + 1;
            } else {
                self.mismatch = self.mismatch + 1;
            },
        }
    }
}

/// Values of different keys differ: the first eight bytes are the key.
pub proof fn law_expected_values_differ(i: u64, k: u64, size: nat)
    requires
        size >= 8,
        i != k,
    ensures
        Seq::new(size, |j: int| expected_byte(i, j)) != Seq::new(size, |j: int| expected_byte(k, j)),
        Seq::new(size, |j: int| expected_byte(i, j)).take(8) == u64_le(i),
{
    broadcast use lemma_le_digits_len;

    let a = Seq::new(size, |j: int| expected_byte(i, j));
    let b = Seq::new(size, |j: int| expected_byte(k, j));
    assert(a.take(8) =~= u64_le(i));
    assert(b.take(8) =~= u64_le(k));
    crate::bytes::lemma_ints_read_back(0, 0, i, 0, 0);
    crate::bytes::lemma_ints_read_back(0, 0, k, 0, 0);
}

/// The answer to a get is the content of its second frame; a null frame or none there is no value.
pub proof fn law_answers_are_second_frames(frames: Seq<FrameView>)
    ensures
        frames.len() < 2 ==> answered(frames) is None,
        frames.len() >= 2 && frames[1].flags & 0x0400 != 0 ==> answered(frames) is None,
        frames.len() >= 2 && frames[1].flags & 0x0400 == 0 ==> answered(frames) == Some(
            frames[1].content,
        ),
{
}

/// A request bears its type, no partition, the thread 1 and the lifetime of its value, each at its
/// place.
pub proof fn law_requests_read_back(size: nat, msg_type: i32, ttl_ms: i64)
    requires
        size >= 32,
    ensures
        ({
            let h = threaded(size, msg_type);
            let s = overwrite(h, 24, i64_le(ttl_ms));
            &&& h.len() == size && s.len() == size
            &&& i32_at(h, 0) == msg_type && i32_at(s, 0) == msg_type
            &&& i32_at(h, 12) == -1 && i32_at(s, 12) == -1
            &&& i64_at(h, 16) == 1 && i64_at(s, 16) == 1
            &&& i64_at(s, 24) == ttl_ms
        }),
{
    broadcast use lemma_le_digits_len;

    let h = threaded(size, msg_type);
    let s = overwrite(h, 24, i64_le(ttl_ms));
    crate::bytes::lemma_ints_read_back(0, 0, 0, msg_type, 1);
    crate::bytes::lemma_ints_read_back(0, 0, 0, NO_PARTITION, ttl_ms);
    assert(h.subrange(0, 4) =~= i32_le(msg_type));
    assert(h.subrange(12, 16) =~= i32_le(NO_PARTITION));
    assert(h.subrange(16, 24) =~= i64_le(1));
    assert(s.subrange(0, 4) =~= h.subrange(0, 4));
    assert(s.subrange(12, 16) =~= h.subrange(12, 16));
    assert(s.subrange(16, 24) =~= h.subrange(16, 24));
    assert(s.subrange(24, 32) =~= i64_le(ttl_ms));
}

/// A client names the cluster and itself, and no user or password.
pub proof fn law_clients_authenticate()
    ensures
        authentication().len() == 5,
        i32_at(authentication()[0].content, 0) == 256,
        text_of(authentication()[1].content) == Some("dev"@),
        authentication()[2].is_null() && authentication()[3].is_null(),
        text_of(authentication()[4].content) == Some("rust-bench"@),
{
    broadcast use lemma_le_digits_len;

    crate::bytes::lemma_ints_read_back(0, 0, 0, AUTHENTICATE, 0);
    assert(header(36, AUTHENTICATE).subrange(0, 4) =~= i32_le(AUTHENTICATE));
    lemma_text_reads_back("dev"@);
    lemma_text_reads_back("rust-bench"@);
    assert(0x0400u16 & 0x0400u16 != 0) by (bit_vector);
}

} // verus!
