//! Little-endian fixed-size fields at a position of a frame's content.

use vstd::prelude::*;
use crate::bytes::{
    get_i32, get_i64, get_u16, i32_at, i32_le, i64_at, i64_le, lemma_ints_read_back,
    lemma_le_digits_len, overwrite, set_i32, set_i64, set_u16, u16_at, u16_le,
};

verus! {

/// A null flag and two `i64`.
pub const UUID_SIZE: usize = 17;

pub fn write_i32_le(buf: &mut [u8], pos: usize, v: i32)
    requires
        pos + 4 <= old(buf)@.len(),
    ensures
        final(buf)@ == overwrite(old(buf)@, pos as int, i32_le(v)),
{
    set_i32(buf, pos, v);
}

pub fn read_i32_le(buf: &[u8], pos: usize) -> (v: i32)
    requires
        pos + 4 <= buf@.len(),
    ensures
        v == i32_at(buf@, pos as int),
{
    get_i32(buf, pos)
}

pub fn write_i64_le(buf: &mut [u8], pos: usize, v: i64)
    requires
        pos + 8 <= old(buf)@.len(),
    ensures
        final(buf)@ == overwrite(old(buf)@, pos as int, i64_le(v)),
{
    set_i64(buf, pos, v);
}

pub fn read_i64_le(buf: &[u8], pos: usize) -> (v: i64)
    requires
        pos + 8 <= buf@.len(),
    ensures
        v == i64_at(buf@, pos as int),
{
    get_i64(buf, pos)
}

pub fn write_u16_le(buf: &mut [u8], pos: usize, v: u16)
    requires
        pos + 2 <= old(buf)@.len(),
    ensures
        final(buf)@ == overwrite(old(buf)@, pos as int, u16_le(v)),
{
    set_u16(buf, pos, v);
}

pub fn read_u16_le(buf: &[u8], pos: usize) -> (v: u16)
    requires
        pos + 2 <= buf@.len(),
    ensures
        v == u16_at(buf@, pos as int),
{
    get_u16(buf, pos)
}

/// The bytes of a UUID: a null flag; behind it, if it is not null, the most significant `i64`,
/// then the least significant one.
pub open spec fn uuid_bytes(uuid: Option<(i64, i64)>) -> Seq<u8> {
    match uuid {
        None => seq![1u8],
        Some((msb, lsb)) => seq![0u8] + i64_le(msb) + i64_le(lsb),
    }
}

/// The UUID at `pos`.
pub open spec fn uuid_at(b: Seq<u8>, pos: int) -> Option<(i64, i64)> {
    if b[pos] == 1 {
        None
    } else {
        Some((i64_at(b, pos + 1), i64_at(b, pos + 9)))
    }
}

pub fn write_uuid(buf: &mut [u8], pos: usize, uuid: Option<(i64, i64)>)
    requires
        pos + uuid_bytes(uuid).len() <= old(buf)@.len(),
    ensures
        final(buf)@ == overwrite(old(buf)@, pos as int, uuid_bytes(uuid)),
{
    broadcast use lemma_le_digits_len;

    let ghost before = buf@;
    match uuid {
        None => {
            buf[pos] = 1;
        },
        Some((msb, lsb)) => {
            buf[pos] = 0;
            write_i64_le(buf, pos + 1, msb);
            write_i64_le(buf, pos + 9, lsb);
        },
    }
    assert(buf@ =~= overwrite(before, pos as int, uuid_bytes(uuid)));
}

pub fn read_uuid(buf: &[u8], pos: usize) -> (r: Option<(i64, i64)>)
    requires
        pos < buf@.len(),
        buf@[pos as int] != 1 ==> pos + 17 <= buf@.len(),
    ensures
        r == uuid_at(buf@, pos as int),
{
    if buf[pos] == 1 {
        None
    } else {
        Some((read_i64_le(buf, pos + 1), read_i64_le(buf, pos + 9)))
    }
}

/// A field reads back as it was written, wherever it stands.
pub proof fn law_fields_read_back(
    b: Seq<u8>,
    pos: int,
    a: i32,
    l: i64,
    s: u16,
    uuid: Option<(i64, i64)>,
)
    requires
        0 <= pos,
        pos + 17 <= b.len(),
    ensures
        i32_at(overwrite(b, pos, i32_le(a)), pos) == a,
        i64_at(overwrite(b, pos, i64_le(l)), pos) == l,
        u16_at(overwrite(b, pos, u16_le(s)), pos) == s,
        uuid_at(overwrite(b, pos, uuid_bytes(uuid)), pos) == uuid,
{
    broadcast use lemma_le_digits_len;

    lemma_ints_read_back(s, 0, 0, a, l);
    assert(overwrite(b, pos, i32_le(a)).subrange(pos, pos + 4) =~= i32_le(a));
    assert(overwrite(b, pos, i64_le(l)).subrange(pos, pos + 8) =~= i64_le(l));
    assert(overwrite(b, pos, u16_le(s)).subrange(pos, pos + 2) =~= u16_le(s));
    if let Some((msb, lsb)) = uuid {
        let w = overwrite(b, pos, uuid_bytes(uuid));
        lemma_ints_read_back(0, 0, 0, 0, msb);
        lemma_ints_read_back(0, 0, 0, 0, lsb);
        assert(w.subrange(pos + 1, pos + 9) =~= i64_le(msb));
        assert(w.subrange(pos + 9, pos + 17) =~= i64_le(lsb));
    }
}

/// The bytes of a UUID: a zero and its two halves, the upper one first; a one for none.
pub proof fn law_uuid_layout(msb: i64, lsb: i64)
    ensures
        uuid_bytes(None) == seq![1u8],
        uuid_bytes(Some((msb, lsb))) == seq![0u8] + i64_le(msb) + i64_le(lsb),
{
}

} // verus!
