//! Reading and writing a byte string field by field.
//!
//! Each kind of field has a spec function for its bytes and one that reads it at a position. The
//! reader gives the value and the position behind it, or nothing if the bytes end too early.

use vstd::prelude::*;
use vstd::utf8::encode_utf8;
use crate::bytes::{
    copy_range, get_i64, get_u32, get_u64, i64_at, i64_le, lemma_ints_read_back,
    lemma_le_digits_len, put_slice, put_u32, put_u64, u32_at, u32_le, u64_at, u64_le,
};
use crate::text::{lemma_text_reads_back, parse_text, text_of};

verus! {

pub open spec fn read_u8(b: Seq<u8>, p: int) -> Option<(u8, int)> {
    if 0 <= p < b.len() {
        Some((b[p], p + 1))
    } else {
        None
    }
}

pub open spec fn read_u32(b: Seq<u8>, p: int) -> Option<(u32, int)> {
    if 0 <= p && p + 4 <= b.len() {
        Some((u32_at(b, p), p + 4))
    } else {
        None
    }
}

pub open spec fn read_u64(b: Seq<u8>, p: int) -> Option<(u64, int)> {
    if 0 <= p && p + 8 <= b.len() {
        Some((u64_at(b, p), p + 8))
    } else {
        None
    }
}

pub open spec fn read_i64(b: Seq<u8>, p: int) -> Option<(i64, int)> {
    if 0 <= p && p + 8 <= b.len() {
        Some((i64_at(b, p), p + 8))
    } else {
        None
    }
}

/// `n` bytes.
pub open spec fn read_bytes(b: Seq<u8>, p: int, n: int) -> Option<(Seq<u8>, int)> {
    if 0 <= p && 0 <= n && p + n <= b.len() {
        Some((b.subrange(p, p + n), p + n))
    } else {
        None
    }
}

/// Bytes behind their length as a `u32`.
pub open spec fn blob32(x: Seq<u8>) -> Seq<u8> {
    u32_le(x.len() as u32) + x
}

pub open spec fn read_blob32(b: Seq<u8>, p: int) -> Option<(Seq<u8>, int)> {
    match read_u32(b, p) {
        Some((n, q)) => read_bytes(b, q, n as int),
        None => None,
    }
}

/// Bytes behind their length as a `u64`.
pub open spec fn blob64(x: Seq<u8>) -> Seq<u8> {
    u64_le(x.len() as u64) + x
}

pub open spec fn read_blob64(b: Seq<u8>, p: int) -> Option<(Seq<u8>, int)> {
    match read_u64(b, p) {
        Some((n, q)) => read_bytes(b, q, n as int),
        None => None,
    }
}

/// Text behind the length of its bytes as a `u32`.
pub open spec fn text32(x: Seq<char>) -> Seq<u8> {
    blob32(encode_utf8(x))
}

pub open spec fn read_text32(b: Seq<u8>, p: int) -> Option<(Seq<char>, int)> {
    match read_blob32(b, p) {
        Some((x, q)) => match text_of(x) {
            Some(t) => Some((t, q)),
            None => None,
        },
        None => None,
    }
}

pub fn take_u8(b: &[u8], p: &mut usize) -> (r: Option<u8>)
    requires
        *old(p) <= b@.len(),
    ensures
        *final(p) <= b@.len(),
        match r {
            Some(v) => read_u8(b@, *old(p) as int) == Some((v, *final(p) as int)),
            None => read_u8(b@, *old(p) as int) is None,
        },
{
    if *p < b.len() {
        let v: u8 = b[*p];
        *p = *p + 1;
        Some(v)
    } else {
        None
    }
}

pub fn take_u32(b: &[u8], p: &mut usize) -> (r: Option<u32>)
    requires
        *old(p) <= b@.len(),
    ensures
        *final(p) <= b@.len(),
        match r {
            Some(v) => read_u32(b@, *old(p) as int) == Some((v, *final(p) as int)),
            None => read_u32(b@, *old(p) as int) is None,
        },
{
    if b.len() - *p < 4 {
        return None;
    }
    let v: u32 = get_u32(b, *p);
    *p = *p + 4;
    Some(v)
}

pub fn take_u64(b: &[u8], p: &mut usize) -> (r: Option<u64>)
    requires
        *old(p) <= b@.len(),
    ensures
        *final(p) <= b@.len(),
        match r {
            Some(v) => read_u64(b@, *old(p) as int) == Some((v, *final(p) as int)),
            None => read_u64(b@, *old(p) as int) is None,
        },
{
    if b.len() - *p < 8 {
        return None;
    }
    let v: u64 = get_u64(b, *p);
    *p = *p + 8;
    Some(v)
}

pub fn take_i64(b: &[u8], p: &mut usize) -> (r: Option<i64>)
    requires
        *old(p) <= b@.len(),
    ensures
        *final(p) <= b@.len(),
        match r {
            Some(v) => read_i64(b@, *old(p) as int) == Some((v, *final(p) as int)),
            None => read_i64(b@, *old(p) as int) is None,
        },
{
    if b.len() - *p < 8 {
        return None;
    }
    let v: i64 = get_i64(b, *p);
    *p = *p + 8;
    Some(v)
}

/// An owned copy of the next `n` bytes.
pub fn take_bytes(b: &[u8], p: &mut usize, n: u64) -> (r: Option<Vec<u8>>)
    requires
        *old(p) <= b@.len(),
    ensures
        *final(p) <= b@.len(),
        match r {
            Some(v) => read_bytes(b@, *old(p) as int, n as int) == Some((v@, *final(p) as int)),
            None => read_bytes(b@, *old(p) as int, n as int) is None,
        },
{
    if n > (b.len() - *p) as u64 {
        return None;
    }
    let q: usize = *p + n as usize;
    let v: Vec<u8> = copy_range(b, *p, q);
    *p = q;
    Some(v)
}

pub fn take_blob32(b: &[u8], p: &mut usize) -> (r: Option<Vec<u8>>)
    requires
        *old(p) <= b@.len(),
    ensures
        *final(p) <= b@.len(),
        match r {
            Some(v) => read_blob32(b@, *old(p) as int) == Some((v@, *final(p) as int)),
            None => read_blob32(b@, *old(p) as int) is None,
        },
{
    match take_u32(b, p) {
        Some(n) => take_bytes(b, p, n as u64),
        None => None,
    }
}

pub fn take_blob64(b: &[u8], p: &mut usize) -> (r: Option<Vec<u8>>)
    requires
        *old(p) <= b@.len(),
    ensures
        *final(p) <= b@.len(),
        match r {
            Some(v) => read_blob64(b@, *old(p) as int) == Some((v@, *final(p) as int)),
            None => read_blob64(b@, *old(p) as int) is None,
        },
{
    match take_u64(b, p) {
        Some(n) => take_bytes(b, p, n),
        None => None,
    }
}

pub fn take_text32(b: &[u8], p: &mut usize) -> (r: Option<String>)
    requires
        *old(p) <= b@.len(),
    ensures
        *final(p) <= b@.len(),
        match r {
            Some(v) => read_text32(b@, *old(p) as int) == Some((v@, *final(p) as int)),
            None => read_text32(b@, *old(p) as int) is None,
        },
{
    match take_blob32(b, p) {
        Some(x) => parse_text(x.as_slice()),
        None => None,
    }
}

pub fn put_blob32(o: &mut Vec<u8>, x: &[u8])
    ensures
        final(o)@ == old(o)@ + blob32(x@),
{
    put_u32(o, x.len() as u32);
    put_slice(o, x);
    assert(o@ =~= old(o)@ + blob32(x@));
}

pub fn put_blob64(o: &mut Vec<u8>, x: &[u8])
    ensures
        final(o)@ == old(o)@ + blob64(x@),
{
    put_u64(o, x.len() as u64);
    put_slice(o, x);
    assert(o@ =~= old(o)@ + blob64(x@));
}

/// Whether `x` stands at position `p` of `b`.
pub open spec fn stands_at(b: Seq<u8>, p: int, x: Seq<u8>) -> bool {
    0 <= p && p + x.len() <= b.len() && b.subrange(p, p + x.len()) == x
}

/// A part of what stands somewhere stands at its own place.
pub proof fn lemma_stands_split(b: Seq<u8>, p: int, x: Seq<u8>, y: Seq<u8>)
    ensures
        stands_at(b, p, x + y) == (stands_at(b, p, x) && stands_at(b, p + x.len(), y)),
{
    let z = x + y;
    if stands_at(b, p, z) {
        assert(b.subrange(p, p + x.len()) =~= x) by {
            assert forall|i: int| 0 <= i < x.len() implies b[p + i] == x[i] by {
                assert(b.subrange(p, p + z.len())[i] == z[i]);
            }
        }
        assert(b.subrange(p + x.len(), p + z.len()) =~= y) by {
            assert forall|i: int| 0 <= i < y.len() implies b[p + x.len() + i] == y[i] by {
                assert(b.subrange(p, p + z.len())[x.len() + i] == z[x.len() + i]);
            }
        }
    }
    if stands_at(b, p, x) && stands_at(b, p + x.len(), y) {
        assert(b.subrange(p, p + z.len()) =~= z) by {
            assert forall|i: int| 0 <= i < z.len() implies b[p + i] == z[i] by {
                if i < x.len() {
                    assert(b.subrange(p, p + x.len())[i] == x[i]);
                } else {
                    assert(b.subrange(p + x.len(), p + z.len())[i - x.len()] == y[i - x.len()]);
                }
            }
        }
    }
}

pub proof fn lemma_stands_whole(b: Seq<u8>)
    ensures
        stands_at(b, 0, b),
{
    assert(b.subrange(0, b.len() as int) =~= b);
}

/// What was written as a byte is read as that byte.
pub proof fn lemma_read_u8(b: Seq<u8>, p: int, v: u8)
    requires
        stands_at(b, p, seq![v]),
    ensures
        read_u8(b, p) == Some((v, p + 1)),
{
    assert(b.subrange(p, p + 1)[0] == v);
}

/// What was written as integers is read as those integers.
pub proof fn lemma_read_u32(b: Seq<u8>, p: int, v: u32)
    requires
        stands_at(b, p, u32_le(v)),
    ensures
        read_u32(b, p) == Some((v, p + 4)),
{
    broadcast use lemma_le_digits_len;

    lemma_ints_read_back(0, v, 0, 0, 0);
}

pub proof fn lemma_read_u64(b: Seq<u8>, p: int, v: u64)
    requires
        stands_at(b, p, u64_le(v)),
    ensures
        read_u64(b, p) == Some((v, p + 8)),
{
    broadcast use lemma_le_digits_len;

    lemma_ints_read_back(0, 0, v, 0, 0);
}

pub proof fn lemma_read_i64(b: Seq<u8>, p: int, v: i64)
    requires
        stands_at(b, p, i64_le(v)),
    ensures
        read_i64(b, p) == Some((v, p + 8)),
{
    broadcast use lemma_le_digits_len;

    lemma_ints_read_back(0, 0, 0, 0, v);
}

pub proof fn lemma_read_blob32(b: Seq<u8>, p: int, x: Seq<u8>)
    requires
        stands_at(b, p, blob32(x)),
        x.len() <= u32::MAX,
    ensures
        read_blob32(b, p) == Some((x, p + blob32(x).len())),
{
    broadcast use lemma_le_digits_len;

    lemma_stands_split(b, p, u32_le(x.len() as u32), x);
    lemma_read_u32(b, p, x.len() as u32);
}

pub proof fn lemma_read_blob64(b: Seq<u8>, p: int, x: Seq<u8>)
    requires
        stands_at(b, p, blob64(x)),
        x.len() <= u64::MAX,
    ensures
        read_blob64(b, p) == Some((x, p + blob64(x).len())),
{
    broadcast use lemma_le_digits_len;

    lemma_stands_split(b, p, u64_le(x.len() as u64), x);
    lemma_read_u64(b, p, x.len() as u64);
}

pub proof fn lemma_read_text32(b: Seq<u8>, p: int, x: Seq<char>)
    requires
        stands_at(b, p, text32(x)),
        encode_utf8(x).len() <= u32::MAX,
    ensures
        read_text32(b, p) == Some((x, p + text32(x).len())),
{
    lemma_read_blob32(b, p, encode_utf8(x));
    lemma_text_reads_back(x);
}

/// Whether what is read of the first `k` bytes is read of all of them, and ends within the `k`.
pub open spec fn carries<T>(short: Option<(T, int)>, long: Option<(T, int)>, k: int) -> bool {
    short matches Some((v, e)) ==> long == Some((v, e)) && e <= k
}

/// Bytes that follow do not change what is read.
pub proof fn lemma_prefix_reads(b: Seq<u8>, k: int)
    requires
        0 <= k <= b.len(),
    ensures
        forall|p: int| carries(#[trigger] read_u8(b.take(k), p), read_u8(b, p), k),
        forall|p: int| carries(#[trigger] read_u32(b.take(k), p), read_u32(b, p), k),
        forall|p: int| carries(#[trigger] read_u64(b.take(k), p), read_u64(b, p), k),
        forall|p: int| carries(#[trigger] read_i64(b.take(k), p), read_i64(b, p), k),
        forall|p: int| carries(#[trigger] read_blob32(b.take(k), p), read_blob32(b, p), k),
        forall|p: int| carries(#[trigger] read_blob64(b.take(k), p), read_blob64(b, p), k),
{
    let c = b.take(k);
    assert forall|p: int, n: int| 0 <= p && 0 <= n && p + n <= k implies #[trigger] c.subrange(
        p,
        p + n,
    ) == b.subrange(p, p + n) by {
        assert(c.subrange(p, p + n) =~= b.subrange(p, p + n));
    }
    assert forall|p: int| 0 <= p && p + 4 <= k implies #[trigger] u32_at(c, p) == u32_at(b, p) by {
        assert(c.subrange(p, p + 4) == b.subrange(p, p + 4));
    }
    assert forall|p: int| 0 <= p && p + 8 <= k implies #[trigger] u64_at(c, p) == u64_at(b, p) by {
        assert(c.subrange(p, p + 8) == b.subrange(p, p + 8));
    }
    assert forall|p: int| 0 <= p && p + 8 <= k implies #[trigger] i64_at(c, p) == i64_at(b, p) by {
        assert(c.subrange(p, p + 8) == b.subrange(p, p + 8));
    }
    assert forall|p: int, n: int|
        carries(#[trigger] read_bytes(c, p, n), read_bytes(b, p, n), k) by {
        if 0 <= p && 0 <= n && p + n <= k {
            assert(c.subrange(p, p + n) == b.subrange(p, p + n));
        }
    }
    assert forall|p: int| carries(#[trigger] read_blob32(c, p), read_blob32(b, p), k) by {
        if let Some((n, q)) = read_u32(c, p) {
            assert(carries(read_bytes(c, q, n as int), read_bytes(b, q, n as int), k));
        }
    }
    assert forall|p: int| carries(#[trigger] read_blob64(c, p), read_blob64(b, p), k) by {
        if let Some((n, q)) = read_u64(c, p) {
            assert(carries(read_bytes(c, q, n as int), read_bytes(b, q, n as int), k));
        }
    }
}

/// What stands in front stands whatever follows.
pub proof fn lemma_stands_front(x: Seq<u8>, rest: Seq<u8>)
    ensures
        stands_at(x + rest, 0, x),
{
    assert((x + rest).subrange(0, x.len() as int) =~= x);
}

/// The bytes behind a length: the length in four or eight little-endian bytes, then the bytes.
pub proof fn law_blob_layout(x: Seq<u8>, t: Seq<char>)
    ensures
        blob32(x) == u32_le(x.len() as u32) + x,
        blob64(x) == u64_le(x.len() as u64) + x,
        text32(t) == blob32(encode_utf8(t)),
{
}

} // verus!
