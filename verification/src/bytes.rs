//! Fixed-width integers as byte strings, and the small buffer operations that every codec of
//! the grid is written with.

use vstd::prelude::*;
use vstd::slice::slice_subrange;

verus! {

/// The number that `s` spells in base 256, least significant byte first.
pub open spec fn le_value(s: Seq<u8>) -> nat
    decreases s.len(),
{
    if s.len() == 0 {
        0
    } else {
        s[0] as nat + 256 * le_value(s.skip(1))
    }
}

/// The `k` low base-256 digits of `n`, least significant first.
pub open spec fn le_digits(n: nat, k: nat) -> Seq<u8>
    decreases k,
{
    if k == 0 {
        Seq::empty()
    } else {
        seq![(n % 256) as u8] + le_digits(n / 256, (k - 1) as nat)
    }
}

/// 256 to the power `k`: the count of values that `k` bytes can hold.
pub open spec fn span(k: nat) -> nat
    decreases k,
{
    if k == 0 {
        1
    } else {
        256 * span((k - 1) as nat)
    }
}

pub broadcast proof fn lemma_le_digits_len(n: nat, k: nat)
    ensures
        #[trigger] le_digits(n, k).len() == k,
    decreases k,
{
    if k > 0 {
        lemma_le_digits_len(n / 256, (k - 1) as nat);
    }
}

pub proof fn lemma_le_value_bound(s: Seq<u8>)
    ensures
        le_value(s) < span(s.len()),
    decreases s.len(),
{
    if s.len() > 0 {
        lemma_le_value_bound(s.skip(1));
    }
}

/// Reading back the digits of a number that fits gives the number.
pub proof fn lemma_le_value_of_digits(n: nat, k: nat)
    requires
        n < span(k),
    ensures
        le_value(le_digits(n, k)) == n,
    decreases k,
{
    if k > 0 {
        let rest = le_digits(n / 256, (k - 1) as nat);
        lemma_le_value_of_digits(n / 256, (k - 1) as nat);
        assert(le_digits(n, k).skip(1) =~= rest);
    }
}

/// Writing the value of some bytes gives the bytes.
pub proof fn lemma_le_digits_of_value(s: Seq<u8>)
    ensures
        le_digits(le_value(s), s.len()) == s,
    decreases s.len(),
{
    if s.len() > 0 {
        let v = le_value(s.skip(1));
        lemma_le_digits_of_value(s.skip(1));
        assert(le_value(s) % 256 == s[0] as nat && le_value(s) / 256 == v);
        assert(le_digits(le_value(s), s.len()) =~= s);
    }
}

pub proof fn lemma_spans()
    ensures
        span(1) == 0x100,
        span(2) == 0x1_0000,
        span(4) == 0x1_0000_0000,
        span(8) == 0x1_0000_0000_0000_0000,
{
    reveal_with_fuel(span, 9);
}

/// The two's complement bit pattern of a 32-bit integer, as a number.
pub open spec fn i32_bits(v: i32) -> nat {
    if v < 0 {
        (v + 0x1_0000_0000) as nat
    } else {
        v as nat
    }
}

/// The 32-bit integer with two's complement pattern `n`.
pub open spec fn i32_of_bits(n: nat) -> i32 {
    if n < 0x8000_0000 {
        n as i32
    } else {
        (n - 0x1_0000_0000) as i32
    }
}

/// The two's complement bit pattern of a 64-bit integer, as a number.
pub open spec fn i64_bits(v: i64) -> nat {
    if v < 0 {
        (v + 0x1_0000_0000_0000_0000) as nat
    } else {
        v as nat
    }
}

/// The 64-bit integer with two's complement pattern `n`.
pub open spec fn i64_of_bits(n: nat) -> i64 {
    if n < 0x8000_0000_0000_0000 {
        n as i64
    } else {
        (n - 0x1_0000_0000_0000_0000) as i64
    }
}

/// The little-endian bytes of a `u16`.
pub open spec fn u16_le(v: u16) -> Seq<u8> {
    le_digits(v as nat, 2)
}

/// The little-endian bytes of a `u32`.
pub open spec fn u32_le(v: u32) -> Seq<u8> {
    le_digits(v as nat, 4)
}

/// The little-endian bytes of a `u64`.
pub open spec fn u64_le(v: u64) -> Seq<u8> {
    le_digits(v as nat, 8)
}

/// The little-endian bytes of an `i32`.
pub open spec fn i32_le(v: i32) -> Seq<u8> {
    le_digits(i32_bits(v), 4)
}

/// The little-endian bytes of an `i64`.
pub open spec fn i64_le(v: i64) -> Seq<u8> {
    le_digits(i64_bits(v), 8)
}

/// The big-endian bytes of an `i32`.
pub open spec fn i32_be(v: i32) -> Seq<u8> {
    i32_le(v).reverse()
}

/// The `u16` stored little-endian at `pos`.
pub open spec fn u16_at(s: Seq<u8>, pos: int) -> u16 {
    le_value(s.subrange(pos, pos + 2)) as u16
}

/// The `u32` stored little-endian at `pos`.
pub open spec fn u32_at(s: Seq<u8>, pos: int) -> u32 {
    le_value(s.subrange(pos, pos + 4)) as u32
}

/// The `u64` stored little-endian at `pos`.
pub open spec fn u64_at(s: Seq<u8>, pos: int) -> u64 {
    le_value(s.subrange(pos, pos + 8)) as u64
}

/// The `i32` stored little-endian at `pos`.
pub open spec fn i32_at(s: Seq<u8>, pos: int) -> i32 {
    i32_of_bits(le_value(s.subrange(pos, pos + 4)))
}

/// The `i64` stored little-endian at `pos`.
pub open spec fn i64_at(s: Seq<u8>, pos: int) -> i64 {
    i64_of_bits(le_value(s.subrange(pos, pos + 8)))
}

/// The `i32` stored big-endian at `pos`.
pub open spec fn i32_be_at(s: Seq<u8>, pos: int) -> i32 {
    i32_of_bits(le_value(s.subrange(pos, pos + 4).reverse()))
}

/// The `i64` stored big-endian at `pos`.
pub open spec fn i64_be_at(s: Seq<u8>, pos: int) -> i64 {
    i64_of_bits(le_value(s.subrange(pos, pos + 8).reverse()))
}

/// `s` with the bytes from `pos` on overwritten by `b`.
pub open spec fn overwrite(s: Seq<u8>, pos: int, b: Seq<u8>) -> Seq<u8> {
    s.take(pos) + b + s.skip(pos + b.len())
}

/// Every fixed-width integer reads back as it was written.
pub proof fn lemma_ints_read_back(a: u16, b: u32, c: u64, d: i32, e: i64)
    ensures
        le_value(u16_le(a)) == a,
        le_value(u32_le(b)) == b,
        le_value(u64_le(c)) == c,
        i32_of_bits(le_value(i32_le(d))) == d,
        i64_of_bits(le_value(i64_le(e))) == e,
{
    lemma_spans();
    lemma_le_value_of_digits(a as nat, 2);
    lemma_le_value_of_digits(b as nat, 4);
    lemma_le_value_of_digits(c as nat, 8);
    lemma_le_value_of_digits(i32_bits(d), 4);
    lemma_le_value_of_digits(i64_bits(e), 8);
}

/// A number of `k` bytes, little-endian.
fn value_le(s: &[u8], pos: usize, k: usize) -> (v: u64)
    requires
        k <= 8,
        pos + k <= s@.len(),
    ensures
        v == le_value(s@.subrange(pos as int, pos + k)),
        v < span(k as nat),
{
    let mut v: u64 = 0;
    let mut i: usize = k;
    while i > 0
        invariant
            i <= k <= 8,
            pos + k <= s@.len(),
            v == le_value(s@.subrange(pos + i, pos + k)),
        decreases i,
    {
        proof {
            let tail = s@.subrange(pos + i, pos + k);
            let more = s@.subrange(pos + i - 1, pos + k);
            assert(more.skip(1) =~= tail);
            lemma_le_value_bound(more);
            lemma_spans();
            reveal_with_fuel(span, 9);
            assert(le_value(more) == more[0] as nat + 256 * le_value(tail));
        }
        i = i - 1;
        assert(s@.len() == s.len());
        v = v * 256 + s[pos + i] as u64;
    }
    proof {
        lemma_le_value_bound(s@.subrange(pos as int, pos + k));
    }
    v
}

/// Appends the `k` low base-256 digits of `v`.
fn push_le(buf: &mut Vec<u8>, v: u64, k: usize)
    ensures
        final(buf)@ == old(buf)@ + le_digits(v as nat, k as nat),
{
    let ghost before = buf@;
    let mut rest: u64 = v;
    let mut left: usize = k;
    while left > 0
        invariant
            left <= k,
            buf@ + le_digits(rest as nat, left as nat) =~= before + le_digits(v as nat, k as nat),
        decreases left,
    {
        let digit: u8 = (rest % 256) as u8;
        proof {
            assert(le_digits(rest as nat, left as nat) == seq![digit] + le_digits(
                rest as nat / 256,
                (left - 1) as nat,
            ));
        }
        buf.push(digit);
        rest = rest / 256;
        left = left - 1;
    }
}

/// Overwrites `k` bytes at `pos` with the low base-256 digits of `v`.
fn store_le(buf: &mut [u8], pos: usize, v: u64, k: usize)
    requires
        pos + k <= old(buf)@.len(),
    ensures
        final(buf)@ == overwrite(old(buf)@, pos as int, le_digits(v as nat, k as nat)),
{
    broadcast use lemma_le_digits_len;

    let ghost before = buf@;
    let ghost all = le_digits(v as nat, k as nat);
    let mut rest: u64 = v;
    let mut i: usize = 0;
    while i < k
        invariant
            i <= k,
            pos + k <= before.len(),
            buf@.len() == before.len(),
            all == le_digits(v as nat, k as nat),
            all.len() == k,
            all.skip(i as int) =~= le_digits(rest as nat, (k - i) as nat),
            forall|j: int|
                0 <= j < before.len() ==> #[trigger] buf@[j] == if pos <= j < pos + i {
                    all[j - pos]
                } else {
                    before[j]
                },
        decreases k - i,
    {
        let digit: u8 = (rest % 256) as u8;
        proof {
            let d = le_digits(rest as nat, (k - i) as nat);
            assert(d == seq![digit] + le_digits(rest as nat / 256, (k - i - 1) as nat));
            assert(all.skip(i as int)[0] == d[0]);
            assert(all.skip(i as int + 1) =~= all.skip(i as int).skip(1));
            assert(d.skip(1) =~= le_digits(rest as nat / 256, (k - i - 1) as nat));
        }
        assert(buf@.len() == buf.len());
        buf[pos + i] = digit;
        rest = rest / 256;
        i = i + 1;
    }
    assert(buf@ =~= overwrite(before, pos as int, all));
}

/// The bit pattern of an `i64`.
fn bits_of_i64(v: i64) -> (n: u64)
    ensures
        n == i64_bits(v),
{
    if v < 0 {
        (v as i128 + 0x1_0000_0000_0000_0000i128) as u64
    } else {
        v as u64
    }
}

/// The `i64` with bit pattern `n`.
fn i64_from_bits(n: u64) -> (v: i64)
    ensures
        v == i64_of_bits(n as nat),
{
    if n < 0x8000_0000_0000_0000 {
        n as i64
    } else {
        (n as i128 - 0x1_0000_0000_0000_0000i128) as i64
    }
}

/// The bit pattern of an `i32`.
fn bits_of_i32(v: i32) -> (n: u32)
    ensures
        n == i32_bits(v),
{
    if v < 0 {
        (v as i64 + 0x1_0000_0000i64) as u32
    } else {
        v as u32
    }
}

/// The `i32` with bit pattern `n`.
fn i32_from_bits(n: u32) -> (v: i32)
    ensures
        v == i32_of_bits(n as nat),
{
    if n < 0x8000_0000 {
        n as i32
    } else {
        (n as i64 - 0x1_0000_0000i64) as i32
    }
}

pub fn get_u16(s: &[u8], pos: usize) -> (v: u16)
    requires
        pos + 2 <= s@.len(),
    ensures
        v == u16_at(s@, pos as int),
        v == le_value(s@.subrange(pos as int, pos + 2)),
{
    proof {
        lemma_spans();
    }
    value_le(s, pos, 2) as u16
}

pub fn get_u32(s: &[u8], pos: usize) -> (v: u32)
    requires
        pos + 4 <= s@.len(),
    ensures
        v == u32_at(s@, pos as int),
        v == le_value(s@.subrange(pos as int, pos + 4)),
{
    proof {
        lemma_spans();
    }
    value_le(s, pos, 4) as u32
}

pub fn get_u64(s: &[u8], pos: usize) -> (v: u64)
    requires
        pos + 8 <= s@.len(),
    ensures
        v == u64_at(s@, pos as int),
        v == le_value(s@.subrange(pos as int, pos + 8)),
{
    value_le(s, pos, 8)
}

pub fn get_i32(s: &[u8], pos: usize) -> (v: i32)
    requires
        pos + 4 <= s@.len(),
    ensures
        v == i32_at(s@, pos as int),
{
    i32_from_bits(get_u32(s, pos))
}

pub fn get_i64(s: &[u8], pos: usize) -> (v: i64)
    requires
        pos + 8 <= s@.len(),
    ensures
        v == i64_at(s@, pos as int),
{
    i64_from_bits(get_u64(s, pos))
}

pub fn get_i32_be(s: &[u8], pos: usize) -> (v: i32)
    requires
        pos + 4 <= s@.len(),
    ensures
        v == i32_be_at(s@, pos as int),
{
    assert(s@.len() == s.len());
    let b: [u8; 4] = [s[pos + 3], s[pos + 2], s[pos + 1], s[pos]];
    assert(b@.subrange(0, 4) =~= s@.subrange(pos as int, pos + 4).reverse());
    get_i32(&b, 0)
}

pub fn get_i64_be(s: &[u8], pos: usize) -> (v: i64)
    requires
        pos + 8 <= s@.len(),
    ensures
        v == i64_be_at(s@, pos as int),
{
    assert(s@.len() == s.len());
    let b: [u8; 8] = [
        s[pos + 7],
        s[pos + 6],
        s[pos + 5],
        s[pos + 4],
        s[pos + 3],
        s[pos + 2],
        s[pos + 1],
        s[pos],
    ];
    assert(b@.subrange(0, 8) =~= s@.subrange(pos as int, pos + 8).reverse());
    get_i64(&b, 0)
}

pub fn put_u16(buf: &mut Vec<u8>, v: u16)
    ensures
        final(buf)@ == old(buf)@ + u16_le(v),
{
    push_le(buf, v as u64, 2);
}

pub fn put_u32(buf: &mut Vec<u8>, v: u32)
    ensures
        final(buf)@ == old(buf)@ + u32_le(v),
{
    push_le(buf, v as u64, 4);
}

pub fn put_u64(buf: &mut Vec<u8>, v: u64)
    ensures
        final(buf)@ == old(buf)@ + u64_le(v),
{
    push_le(buf, v, 8);
}

pub fn put_i32(buf: &mut Vec<u8>, v: i32)
    ensures
        final(buf)@ == old(buf)@ + i32_le(v),
{
    push_le(buf, bits_of_i32(v) as u64, 4);
}

pub fn put_i64(buf: &mut Vec<u8>, v: i64)
    ensures
        final(buf)@ == old(buf)@ + i64_le(v),
{
    push_le(buf, bits_of_i64(v), 8);
}

pub fn put_i32_be(buf: &mut Vec<u8>, v: i32)
    ensures
        final(buf)@ == old(buf)@ + i32_be(v),
{
    broadcast use lemma_le_digits_len;

    let mut d: Vec<u8> = Vec::new();
    put_i32(&mut d, v);
    let ghost before = buf@;
    buf.push(d[3]);
    buf.push(d[2]);
    buf.push(d[1]);
    buf.push(d[0]);
    assert(buf@ =~= before + i32_be(v));
}

pub fn set_u16(buf: &mut [u8], pos: usize, v: u16)
    requires
        pos + 2 <= old(buf)@.len(),
    ensures
        final(buf)@ == overwrite(old(buf)@, pos as int, u16_le(v)),
{
    store_le(buf, pos, v as u64, 2);
}

pub fn set_i32(buf: &mut [u8], pos: usize, v: i32)
    requires
        pos + 4 <= old(buf)@.len(),
    ensures
        final(buf)@ == overwrite(old(buf)@, pos as int, i32_le(v)),
{
    store_le(buf, pos, bits_of_i32(v) as u64, 4);
}

pub fn set_i64(buf: &mut [u8], pos: usize, v: i64)
    requires
        pos + 8 <= old(buf)@.len(),
    ensures
        final(buf)@ == overwrite(old(buf)@, pos as int, i64_le(v)),
{
    store_le(buf, pos, bits_of_i64(v), 8);
}

/// Appends `b`.
pub fn put_slice(buf: &mut Vec<u8>, b: &[u8])
    ensures
        final(buf)@ == old(buf)@ + b@,
{
    let ghost before = buf@;
    buf.extend_from_slice(b);
    assert(buf@ =~= before + b@);
}

/// An owned copy of `b`.
pub fn copy_slice(b: &[u8]) -> (v: Vec<u8>)
    ensures
        v@ == b@,
{
    vstd::slice::slice_to_vec(b)
}

/// An owned copy of `b[from..to]`.
pub fn copy_range(b: &[u8], from: usize, to: usize) -> (v: Vec<u8>)
    requires
        from <= to <= b@.len(),
    ensures
        v@ == b@.subrange(from as int, to as int),
{
    vstd::slice::slice_to_vec(slice_subrange(b, from, to))
}

/// `n` zero bytes.
pub fn zeros(n: usize) -> (v: Vec<u8>)
    ensures
        v@ == zeroes(n as nat),
{
    let v = vec![0u8; n];
    assert(v@ =~= zeroes(n as nat));
    v
}

/// `n` zero bytes.
pub open spec fn zeroes(n: nat) -> Seq<u8> {
    Seq::new(n, |i: int| 0u8)
}

/// Whether two byte strings are the same.
pub fn same_bytes(a: &[u8], b: &[u8]) -> (r: bool)
    ensures
        r == (a@ == b@),
{
    if a.len() != b.len() {
        return false;
    }
    let mut i: usize = 0;
    while i < a.len()
        invariant
            i <= a@.len(),
            a@.len() == b@.len(),
            forall|j: int| 0 <= j < i ==> a@[j] == b@[j],
        decreases a@.len() - i,
    {
        if a[i] != b[i] {
            assert(a@[i as int] != b@[i as int]);
            return false;
        }
        i = i + 1;
    }
    assert(a@ =~= b@);
    true
}

/// Numbers are written from the lowest byte up: byte `i` counts 256 to the power `i`. The
/// big-endian bytes are the same the other way round, and negative numbers are two's complement.
pub proof fn law_bytes_are_little_endian(n: nat, k: nat, i: int, v: i32, w: i64)
    requires
        0 <= i < k,
    ensures
        le_digits(n, k).len() == k,
        le_digits(n, k)[i] == (n / span(i as nat)) % 256,
        i32_le(v) == le_digits(
            (if v < 0 {
                v + 0x1_0000_0000
            } else {
                v as int
            }) as nat,
            4,
        ),
        i64_le(w) == le_digits(
            (if w < 0 {
                w + 0x1_0000_0000_0000_0000
            } else {
                w as int
            }) as nat,
            8,
        ),
        i32_be(v) == i32_le(v).reverse(),
    decreases k,
{
    broadcast use lemma_le_digits_len;

    let rest = le_digits(n / 256, (k - 1) as nat);
    assert(le_digits(n, k) == seq![(n % 256) as u8] + rest);
    if i == 0 {
        assert(span(0) == 1);
        assert(n / 1 == n);
    } else {
        assert(le_digits(n, k)[i] == rest[i - 1]);
        law_bytes_are_little_endian(n / 256, (k - 1) as nat, i - 1, v, w);
        let p = span((i - 1) as nat);
        lemma_span_positive((i - 1) as nat);
        vstd::arithmetic::div_mod::lemma_div_denominator(n as int, 256, p as int);
        assert(span(i as nat) == 256 * p);
    }
}

proof fn lemma_span_positive(k: nat)
    ensures
        span(k) > 0,
    decreases k,
{
    if k > 0 {
        lemma_span_positive((k - 1) as nat);
    }
}

} // verus!
