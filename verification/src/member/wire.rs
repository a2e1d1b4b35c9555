//! Messages between members, framed: the length of the body as a `u32`, then the body, a tag and
//! fields (little-endian).

use vstd::prelude::*;
use vstd::slice::slice_subrange;
use crate::bytes::{
    get_u32, lemma_ints_read_back, lemma_le_digits_len, put_slice, put_u32, put_u64, u32_at, u32_le,
    u64_le,
};
use crate::text::text_bytes;
use crate::wire::{
    blob32, lemma_read_blob32, lemma_read_text32, lemma_read_u32, lemma_read_u64, lemma_read_u8,
    lemma_stands_split, lemma_stands_whole, put_blob32, read_blob32, read_text32, read_u32,
    read_u64, read_u8, take_blob32, take_text32, take_u32, take_u64, take_u8, text32,
};

verus! {

/// A message between members.
#[derive(Clone, Debug, PartialEq, Eq)]
pub enum Msg {
    /// Who is speaking: the first message on a connection.
    Hello { index: u32 },
    /// Keep a backup of an entry.
    BackupPut { op_id: u64, name: String, key: Vec<u8>, value: Vec<u8>, ttl_ms: u64 },
    /// Drop the backup of an entry.
    BackupRemove { op_id: u64, name: String, key: Vec<u8> },
    /// A backup operation is done.
    Ack { op_id: u64 },
}

/// What a [`Msg`] holds.
pub enum MsgView {
    Hello { index: u32 },
    BackupPut { op_id: u64, name: Seq<char>, key: Seq<u8>, value: Seq<u8>, ttl_ms: u64 },
    BackupRemove { op_id: u64, name: Seq<char>, key: Seq<u8> },
    Ack { op_id: u64 },
}

impl View for Msg {
    type V = MsgView;

    open spec fn view(&self) -> MsgView {
        match self {
            Msg::Hello { index } => MsgView::Hello { index: *index },
            Msg::BackupPut { op_id, name, key, value, ttl_ms } => MsgView::BackupPut {
                op_id: *op_id,
                name: name@,
                key: key@,
                value: value@,
                ttl_ms: *ttl_ms,
            },
            Msg::BackupRemove { op_id, name, key } => MsgView::BackupRemove {
                op_id: *op_id,
                name: name@,
                key: key@,
            },
            Msg::Ack { op_id } => MsgView::Ack { op_id: *op_id },
        }
    }
}

/// The body of a message.
pub open spec fn body(m: MsgView) -> Seq<u8> {
    match m {
        MsgView::Hello { index } => seq![0u8] + u32_le(index),
        MsgView::BackupPut { op_id, name, key, value, ttl_ms } => seq![1u8] + (u64_le(op_id) + (
        text32(name) + (blob32(key) + (blob32(value) + u64_le(ttl_ms))))),
        MsgView::BackupRemove { op_id, name, key } => seq![2u8] + (u64_le(op_id) + (text32(name)
            + blob32(key))),
        MsgView::Ack { op_id } => seq![3u8] + u64_le(op_id),
    }
}

/// The bytes of a message.
pub open spec fn frame(m: MsgView) -> Seq<u8> {
    u32_le(body(m).len() as u32) + body(m)
}

pub open spec fn read_put(b: Seq<u8>, p: int) -> Option<MsgView> {
    match read_u64(b, p) {
        None => None,
        Some((op_id, q)) => match read_text32(b, q) {
            None => None,
            Some((name, r)) => match read_blob32(b, r) {
                None => None,
                Some((key, s)) => match read_blob32(b, s) {
                    None => None,
                    Some((value, t)) => match read_u64(b, t) {
                        None => None,
                        Some((ttl_ms, e)) => Some(
                            MsgView::BackupPut { op_id, name, key, value, ttl_ms },
                        ),
                    },
                },
            },
        },
    }
}

pub open spec fn read_remove(b: Seq<u8>, p: int) -> Option<MsgView> {
    match read_u64(b, p) {
        None => None,
        Some((op_id, q)) => match read_text32(b, q) {
            None => None,
            Some((name, r)) => match read_blob32(b, r) {
                None => None,
                Some((key, e)) => Some(MsgView::BackupRemove { op_id, name, key }),
            },
        },
    }
}

/// The message that a body holds.
pub open spec fn body_msg(b: Seq<u8>) -> Option<MsgView> {
    match read_u8(b, 0) {
        None => None,
        Some((tag, p)) => if tag == 0 {
            match read_u32(b, p) {
                Some((index, e)) => Some(MsgView::Hello { index }),
                None => None,
            }
        } else if tag == 1 {
            read_put(b, p)
        } else if tag == 2 {
            read_remove(b, p)
        } else if tag == 3 {
            match read_u64(b, p) {
                Some((op_id, e)) => Some(MsgView::Ack { op_id }),
                None => None,
            }
        } else {
            None
        },
    }
}

/// The message that bytes start with, and how many bytes it takes; none if it is not all there
/// or no message.
pub open spec fn first_msg(b: Seq<u8>) -> Option<(MsgView, int)> {
    if b.len() < 4 || 4 + u32_at(b, 0) > b.len() {
        None
    } else {
        let n = 4 + u32_at(b, 0) as int;
        match body_msg(b.subrange(4, n)) {
            Some(m) => Some((m, n)),
            None => None,
        }
    }
}

/// The bytes of a message.
pub fn encode(m: &Msg) -> (b: Vec<u8>)
    ensures
        b@ == frame(m@),
{
    let mut x: Vec<u8> = Vec::new();
    match m {
        Msg::Hello { index } => {
            x.push(0);
            put_u32(&mut x, *index);
        },
        Msg::BackupPut { op_id, name, key, value, ttl_ms } => {
            x.push(1);
            put_u64(&mut x, *op_id);
            put_blob32(&mut x, text_bytes(name.as_str()));
            put_blob32(&mut x, key.as_slice());
            put_blob32(&mut x, value.as_slice());
            put_u64(&mut x, *ttl_ms);
        },
        Msg::BackupRemove { op_id, name, key } => {
            x.push(2);
            put_u64(&mut x, *op_id);
            put_blob32(&mut x, text_bytes(name.as_str()));
            put_blob32(&mut x, key.as_slice());
        },
        Msg::Ack { op_id } => {
            x.push(3);
            put_u64(&mut x, *op_id);
        },
    }
    assert(x@ =~= body(m@));
    let mut b: Vec<u8> = Vec::new();
    put_u32(&mut b, x.len() as u32);
    put_slice(&mut b, x.as_slice());
    assert(b@ =~= frame(m@));
    b
}

fn take_put(b: &[u8], start: usize) -> (r: Option<Msg>)
    requires
        start <= b@.len(),
    ensures
        match r {
            Some(m) => read_put(b@, start as int) == Some(m@),
            None => read_put(b@, start as int) is None,
        },
{
    let mut p: usize = start;
    let op_id: u64 = match take_u64(b, &mut p) {
        Some(v) => v,
        None => {
            return None;
        },
    };
    let name: String = match take_text32(b, &mut p) {
        Some(v) => v,
        None => {
            return None;
        },
    };
    let key: Vec<u8> = match take_blob32(b, &mut p) {
        Some(v) => v,
        None => {
            return None;
        },
    };
    let value: Vec<u8> = match take_blob32(b, &mut p) {
        Some(v) => v,
        None => {
            return None;
        },
    };
    match take_u64(b, &mut p) {
        Some(ttl_ms) => Some(Msg::BackupPut { op_id, name, key, value, ttl_ms }),
        None => None,
    }
}

fn take_remove(b: &[u8], start: usize) -> (r: Option<Msg>)
    requires
        start <= b@.len(),
    ensures
        match r {
            Some(m) => read_remove(b@, start as int) == Some(m@),
            None => read_remove(b@, start as int) is None,
        },
{
    let mut p: usize = start;
    let op_id: u64 = match take_u64(b, &mut p) {
        Some(v) => v,
        None => {
            return None;
        },
    };
    let name: String = match take_text32(b, &mut p) {
        Some(v) => v,
        None => {
            return None;
        },
    };
    match take_blob32(b, &mut p) {
        Some(key) => Some(Msg::BackupRemove { op_id, name, key }),
        None => None,
    }
}

fn decode_body(b: &[u8]) -> (r: Option<Msg>)
    ensures
        match r {
            Some(m) => body_msg(b@) == Some(m@),
            None => body_msg(b@) is None,
        },
{
    let mut p: usize = 0;
    match take_u8(b, &mut p) {
        None => None,
        Some(0) => match take_u32(b, &mut p) {
            Some(index) => Some(Msg::Hello { index }),
            None => None,
        },
        Some(1) => take_put(b, p),
        Some(2) => take_remove(b, p),
        Some(3) => match take_u64(b, &mut p) {
            Some(op_id) => Some(Msg::Ack { op_id }),
            None => None,
        },
        Some(_) => None,
    }
}

/// The message that bytes start with, and how many bytes it takes; none if it is not all there
/// or no message.
pub fn decode(b: &[u8]) -> (r: Option<(Msg, usize)>)
    ensures
        match r {
            Some((m, n)) => first_msg(b@) == Some((m@, n as int)),
            None => first_msg(b@) is None,
        },
{
    if b.len() < 4 {
        return None;
    }
    let len: u32 = get_u32(b, 0);
    if len as u64 > (b.len() - 4) as u64 {
        return None;
    }
    let n: usize = 4 + len as usize;
    match decode_body(slice_subrange(b, 4, n)) {
        Some(m) => Some((m, n)),
        None => None,
    }
}

/// Whether the lengths of a message's fields, and of all of it, fit.
pub open spec fn fits(m: MsgView) -> bool {
    body(m).len() <= u32::MAX
}

/// A message reads back as it was written, whatever follows it.
pub proof fn law_messages_read_back(m: MsgView, rest: Seq<u8>)
    requires
        fits(m),
    ensures
        first_msg(frame(m) + rest) == Some((m, frame(m).len() as int)),
{
    broadcast use lemma_le_digits_len;

    let x = body(m);
    let b = frame(m) + rest;
    assert(b.subrange(0, 4) =~= u32_le(x.len() as u32));
    lemma_ints_read_back(0, x.len() as u32, 0, 0, 0);
    assert(b.subrange(4, 4 + x.len() as int) =~= x);
    lemma_stands_whole(x);
    match m {
        MsgView::Hello { index } => {
            lemma_stands_split(x, 0, seq![0u8], u32_le(index));
            lemma_read_u8(x, 0, 0);
            lemma_read_u32(x, 1, index);
        },
        MsgView::BackupPut { op_id, name, key, value, ttl_ms } => {
            let e = u64_le(ttl_ms);
            let d = blob32(value) + e;
            let c = blob32(key) + d;
            let a = text32(name) + c;
            lemma_stands_split(x, 0, seq![1u8], u64_le(op_id) + a);
            lemma_stands_split(x, 1, u64_le(op_id), a);
            lemma_stands_split(x, 9, text32(name), c);
            let p = 9 + text32(name).len();
            lemma_stands_split(x, p as int, blob32(key), d);
            let q = p + blob32(key).len();
            lemma_stands_split(x, q as int, blob32(value), e);
            lemma_read_u8(x, 0, 1);
            lemma_read_u64(x, 1, op_id);
            lemma_read_text32(x, 9, name);
            lemma_read_blob32(x, p as int, key);
            lemma_read_blob32(x, q as int, value);
            lemma_read_u64(x, (q + blob32(value).len()) as int, ttl_ms);
        },
        MsgView::BackupRemove { op_id, name, key } => {
            let a = text32(name) + blob32(key);
            lemma_stands_split(x, 0, seq![2u8], u64_le(op_id) + a);
            lemma_stands_split(x, 1, u64_le(op_id), a);
            lemma_stands_split(x, 9, text32(name), blob32(key));
            lemma_read_u8(x, 0, 2);
            lemma_read_u64(x, 1, op_id);
            lemma_read_text32(x, 9, name);
            lemma_read_blob32(x, 9 + text32(name).len() as int, key);
        },
        MsgView::Ack { op_id } => {
            lemma_stands_split(x, 0, seq![3u8], u64_le(op_id));
            lemma_read_u8(x, 0, 3);
            lemma_read_u64(x, 1, op_id);
        },
    }
}

/// What a message is does not depend on what follows it.
pub proof fn law_more_bytes_change_no_message(a: Seq<u8>, b: Seq<u8>)
    ensures
        first_msg(a) matches Some((m, n)) ==> 0 < n <= a.len() && first_msg(a + b) == Some((m, n)),
{
    if first_msg(a) is Some {
        assert((a + b).subrange(0, 4) =~= a.subrange(0, 4));
        let n = 4 + u32_at(a, 0);
        assert((a + b).subrange(4, n) =~= a.subrange(4, n));
    }
}

/// The bytes of messages between members: the length of what follows in four bytes, a tag, then the
/// fields, each text and value behind its length in four bytes.
pub proof fn law_message_layout(
    index: u32,
    op_id: u64,
    name: Seq<char>,
    key: Seq<u8>,
    value: Seq<u8>,
    ttl_ms: u64,
    m: MsgView,
    tag: u8,
    rest: Seq<u8>,
)
    ensures
        body(MsgView::Hello { index }) == seq![0u8] + u32_le(index),
        body(MsgView::BackupPut { op_id, name, key, value, ttl_ms }) == seq![1u8] + u64_le(op_id)
            + text32(name) + u32_le(key.len() as u32) + key + u32_le(value.len() as u32) + value
            + u64_le(ttl_ms),
        body(MsgView::BackupRemove { op_id, name, key }) == seq![2u8] + u64_le(op_id) + text32(name)
            + u32_le(key.len() as u32) + key,
        body(MsgView::Ack { op_id }) == seq![3u8] + u64_le(op_id),
        frame(m).take(4) == u32_le(body(m).len() as u32),
        frame(m).skip(4) == body(m),
        tag > 3 && rest.len() < u32::MAX ==> first_msg(
            u32_le((1 + rest.len()) as u32) + (seq![tag] + rest),
        ) is None,
{
    broadcast use lemma_le_digits_len;

    assert(seq![1u8] + (u64_le(op_id) + (text32(name) + (blob32(key) + (blob32(value) + u64_le(
        ttl_ms,
    ))))) =~= seq![1u8] + u64_le(op_id) + text32(name) + u32_le(key.len() as u32) + key + u32_le(
        value.len() as u32,
    ) + value + u64_le(ttl_ms));
    assert(seq![2u8] + (u64_le(op_id) + (text32(name) + blob32(key))) =~= seq![2u8] + u64_le(op_id)
        + text32(name) + u32_le(key.len() as u32) + key);
    assert(frame(m).take(4) =~= u32_le(body(m).len() as u32));
    assert(frame(m).skip(4) =~= body(m));
    if tag > 3 && rest.len() < u32::MAX {
        let x = seq![tag] + rest;
        let b = u32_le((1 + rest.len()) as u32) + x;
        lemma_ints_read_back(0, (1 + rest.len()) as u32, 0, 0, 0);
        assert(b.subrange(0, 4) =~= u32_le((1 + rest.len()) as u32));
        assert(b.subrange(4, 4 + x.len() as int) =~= x);
        assert(x[0] == tag);
    }
}

} // verus!
