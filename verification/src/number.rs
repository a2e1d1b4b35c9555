//! Decimal numerals.

use vstd::prelude::*;
use crate::text::{ascii_chars, is_ascii_bytes, lemma_ascii_text, parse_text};

verus! {

/// Whether every byte is a decimal digit.
pub open spec fn all_digits(b: Seq<u8>) -> bool {
    forall|i: int| 0 <= i < b.len() ==> 0x30 <= #[trigger] b[i] <= 0x39
}

/// The number that decimal digits spell.
pub open spec fn decimal(b: Seq<u8>) -> nat
    decreases b.len(),
{
    if b.len() == 0 {
        0
    } else {
        (decimal(b.drop_last()) * 10 + (b.last() - 0x30)) as nat
    }
}

/// The number that a numeral of digits alone spells, up to `max`.
pub open spec fn digits_value(b: Seq<u8>, max: nat) -> Option<nat> {
    if b.len() > 0 && all_digits(b) && decimal(b) <= max {
        Some(decimal(b))
    } else {
        None
    }
}

/// The `u64` that a decimal numeral spells, with or without a plus sign.
pub open spec fn number_of(b: Seq<u8>) -> Option<u64> {
    let d = if b.len() > 0 && b[0] == 0x2b {
        b.skip(1)
    } else {
        b
    };
    match digits_value(d, u64::MAX as nat) {
        Some(n) => Some(n as u64),
        None => None,
    }
}

/// The `i64` that a decimal numeral spells, with or without a sign.
pub open spec fn integer_of(b: Seq<u8>) -> Option<i64> {
    if b.len() > 0 && b[0] == 0x2d {
        match digits_value(b.skip(1), 0x8000_0000_0000_0000) {
            Some(n) => Some((-n) as i64),
            None => None,
        }
    } else {
        let d = if b.len() > 0 && b[0] == 0x2b {
            b.skip(1)
        } else {
            b
        };
        match digits_value(d, i64::MAX as nat) {
            Some(n) => Some(n as i64),
            None => None,
        }
    }
}

pub proof fn lemma_decimal_grows(b: Seq<u8>, k: int)
    requires
        all_digits(b),
        0 <= k <= b.len(),
    ensures
        decimal(b.take(k)) <= decimal(b),
    decreases b.len(),
{
    if k == b.len() {
        assert(b.take(k) =~= b);
    } else {
        assert(b.last() == b[b.len() - 1]);
        lemma_decimal_grows(b.drop_last(), k);
        assert(b.drop_last().take(k) =~= b.take(k));
    }
}

/// The number that `b[from..to]` spells, if it is digits alone and at most `max`.
pub fn parse_digits(b: &[u8], from: usize, to: usize, max: u64) -> (r: Option<u64>)
    requires
        from <= to <= b@.len(),
    ensures
        match r {
            Some(v) => digits_value(b@.subrange(from as int, to as int), max as nat) == Some(
                v as nat,
            ),
            None => digits_value(b@.subrange(from as int, to as int), max as nat) is None,
        },
{
    let ghost d = b@.subrange(from as int, to as int);
    if from == to {
        return None;
    }
    let mut v: u64 = 0;
    let mut i: usize = from;
    while i < to
        invariant
            from <= i <= to <= b@.len(),
            d == b@.subrange(from as int, to as int),
            all_digits(d.take(i - from)),
            v == decimal(d.take(i - from)),
            v <= max,
        decreases to - i,
    {
        let c: u8 = b[i];
        let ghost k = i - from;
        assert(d[k] == c);
        if c < 0x30 || c > 0x39 {
            assert(!all_digits(d));
            return None;
        }
        let ghost next = d.take(k + 1);
        let digit: u64 = (c - 0x30) as u64;
        proof {
            assert(next.drop_last() =~= d.take(k));
            assert(next.last() == c);
            assert(decimal(next) == v * 10 + digit);
            if all_digits(d) {
                lemma_decimal_grows(d, k + 1);
            }
        }
        if digit > max || v > (max - digit) / 10 {
            return None;
        }
        v = v * 10 + digit;
        assert(all_digits(next)) by {
            assert forall|j: int| 0 <= j < next.len() implies 0x30 <= #[trigger] next[j]
                <= 0x39 by {
                if j < k {
                    assert(d.take(k)[j] == next[j]);
                }
            }
        }
        i = i + 1;
    }
    assert(d.take(i - from) =~= d);
    Some(v)
}

/// Parses the unsigned numeral that starts at `from`.
pub fn parse_number(b: &[u8], from: usize) -> (r: Option<u64>)
    requires
        from <= b@.len(),
    ensures
        r == number_of(b@.skip(from as int)),
{
    let ghost s = b@.skip(from as int);
    let start: usize = if from < b.len() && b[from] == 0x2b {
        from + 1
    } else {
        from
    };
    assert(s.len() > 0 && s[0] == 0x2b ==> s.skip(1) =~= b@.subrange(
        start as int,
        b@.len() as int,
    ));
    assert(start == from ==> s =~= b@.subrange(start as int, b@.len() as int));
    parse_digits(b, start, b.len(), u64::MAX)
}

/// Parses the signed numeral `b[from..to]`.
pub fn parse_integer(b: &[u8], from: usize, to: usize) -> (r: Option<i64>)
    requires
        from <= to <= b@.len(),
    ensures
        r == integer_of(b@.subrange(from as int, to as int)),
{
    let ghost s = b@.subrange(from as int, to as int);
    if from < to && b[from] == 0x2d {
        assert(s.skip(1) =~= b@.subrange(from + 1, to as int));
        match parse_digits(b, from + 1, to, 0x8000_0000_0000_0000) {
            Some(n) => Some(
                if n == 0x8000_0000_0000_0000 {
                    i64::MIN
                } else {
                    -(n as i64)
                },
            ),
            None => None,
        }
    } else {
        let start: usize = if from < to && b[from] == 0x2b {
            from + 1
        } else {
            from
        };
        assert(start > from ==> s.skip(1) =~= b@.subrange(start as int, to as int));
        match parse_digits(b, start, to, i64::MAX as u64) {
            Some(n) => Some(n as i64),
            None => None,
        }
    }
}

/// The decimal digits of `n`.
pub open spec fn digits_of(n: nat) -> Seq<u8>
    decreases n,
{
    if n < 10 {
        seq![(0x30 + n) as u8]
    } else {
        digits_of(n / 10).push((0x30 + n % 10) as u8)
    }
}

/// The numeral of `n`.
pub open spec fn numeral(n: int) -> Seq<u8> {
    if n < 0 {
        seq![0x2du8] + digits_of((-n) as nat)
    } else {
        digits_of(n as nat)
    }
}

/// The numeral of `n` as text.
pub open spec fn numeral_text(n: int) -> Seq<char> {
    ascii_chars(numeral(n))
}

/// The digits of a number spell the number.
pub proof fn lemma_digits_spell(n: nat)
    ensures
        digits_of(n).len() > 0,
        all_digits(digits_of(n)),
        decimal(digits_of(n)) == n,
    decreases n,
{
    let d = digits_of(n);
    if n < 10 {
        assert(d.drop_last() =~= Seq::empty());
        reveal_with_fuel(decimal, 2);
    } else {
        lemma_digits_spell(n / 10);
        assert(d.drop_last() =~= digits_of(n / 10));
    }
}

fn digits_bytes(n: u64) -> (b: Vec<u8>)
    ensures
        b@ == digits_of(n as nat),
    decreases n,
{
    if n < 10 {
        let mut b: Vec<u8> = Vec::new();
        b.push(0x30 + n as u8);
        assert(b@ =~= digits_of(n as nat));
        b
    } else {
        let mut b: Vec<u8> = digits_bytes(n / 10);
        b.push(0x30 + (n % 10) as u8);
        b
    }
}

/// The numeral of `n`.
pub fn integer_text(n: i64) -> (s: String)
    ensures
        s@ == numeral_text(n as int),
{
    let magnitude: u64 = if n >= 0 {
        n as u64
    } else if n == i64::MIN {
        0x8000_0000_0000_0000
    } else {
        (-n) as u64
    };
    let digits: Vec<u8> = digits_bytes(magnitude);
    let mut b: Vec<u8> = Vec::new();
    if n < 0 {
        b.push(0x2d);
    }
    crate::bytes::put_slice(&mut b, digits.as_slice());
    proof {
        lemma_digits_spell(magnitude as nat);
        assert(b@ =~= numeral(n as int));
        assert(is_ascii_bytes(b@)) by {
            assert forall|i: int| 0 <= i < b@.len() implies #[trigger] b@[i] < 0x80 by {
                if n < 0 {
                    if i > 0 {
                        assert(b@[i] == digits@[i - 1]);
                    }
                } else {
                    assert(b@[i] == digits@[i]);
                }
            }
        }
        lemma_ascii_text(b@);
    }
    match parse_text(b.as_slice()) {
        Some(s) => s,
        None => String::new(),
    }
}

/// An integer's numeral parses back to it.
pub proof fn law_numerals_read_back(n: i64)
    ensures
        integer_of(numeral(n as int)) == Some(n),
{
    if n < 0 {
        lemma_digits_spell((-n) as nat);
        assert(numeral(n as int).skip(1) =~= digits_of((-n) as nat));
    } else {
        lemma_digits_spell(n as nat);
        assert(numeral(n as int)[0] >= 0x30);
    }
}

/// A plus sign changes nothing, a minus sign negates; what is no numeral, or spells a number that is
/// out of range, is not read.
pub proof fn law_signs_and_ranges(d: Seq<u8>, n: int, i: int)
    ensures
        d.len() > 0 && all_digits(d) ==> number_of(seq![0x2bu8] + d) == number_of(d) && integer_of(
            seq![0x2bu8] + d,
        ) == integer_of(d),
        d.len() > 0 && all_digits(d) ==> (integer_of(d) matches Some(v) ==> integer_of(
            seq![0x2du8] + d,
        ) == Some((-v) as i64)),
        n > i64::MAX || n < i64::MIN ==> integer_of(numeral(n)) is None,
        0 <= n <= u64::MAX ==> number_of(numeral(n)) == Some(n as u64),
        n > u64::MAX ==> number_of(numeral(n)) is None,
        number_of(Seq::empty()) is None && integer_of(Seq::empty()) is None,
        0 < i < d.len() && !(0x30 <= d[i] <= 0x39) ==> number_of(d) is None && integer_of(d) is None,
        d.len() > 0 && !(0x30 <= d[0] <= 0x39) && d[0] != 0x2b ==> number_of(d) is None,
        d.len() > 0 && !(0x30 <= d[0] <= 0x39) && d[0] != 0x2b && d[0] != 0x2d ==> integer_of(
            d,
        ) is None,
{
    assert((seq![0x2bu8] + d).skip(1) =~= d);
    assert((seq![0x2du8] + d).skip(1) =~= d);
    if d.len() > 0 && all_digits(d) {
        assert(0x30 <= d[0] <= 0x39);
    }
    if n < 0 {
        lemma_digits_spell((-n) as nat);
        assert(numeral(n).skip(1) =~= digits_of((-n) as nat));
    } else {
        lemma_digits_spell(n as nat);
        assert(0x30 <= digits_of(n as nat)[0] <= 0x39);
    }
    if 0 < i < d.len() && !(0x30 <= d[i] <= 0x39) {
        assert(d.skip(1)[i - 1] == d[i]);
    }
}

} // verus!
