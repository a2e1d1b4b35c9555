//! Field values and how they compare.
//!
//! A double is kept as its IEEE 754 bits together with its text; the library orders doubles and
//! compares them with integers exactly, and does no arithmetic on them.

use vstd::prelude::*;
use vstd::utf8::encode_utf8;
use crate::number::{integer_text, numeral_text};
use crate::order::{
    compare_bytes, flipped, in_dictionary_before, int_order, law_bytes_are_in_dictionary_order,
    lemma_lex_equal, lemma_lex_flip, lemma_lex_trans, lex, Order,
};
use crate::model::opt_view;
use crate::text::text_bytes;

verus! {

/// A double: its bits, and how it is written.
#[derive(Clone, Debug, PartialEq, Eq)]
pub struct Double {
    pub bits: u64,
    pub text: String,
}

/// The value of a field.
#[derive(Clone, Debug, PartialEq, Eq)]
pub enum FieldValue {
    Null,
    Bool(bool),
    I32(i32),
    I64(i64),
    F64(Double),
    Str(String),
}

/// What a [`FieldValue`] holds.
pub enum ValueView {
    Null,
    Bool(bool),
    I32(i32),
    I64(i64),
    F64(u64, Seq<char>),
    Str(Seq<char>),
}

impl View for FieldValue {
    type V = ValueView;

    open spec fn view(&self) -> ValueView {
        match self {
            FieldValue::Null => ValueView::Null,
            FieldValue::Bool(b) => ValueView::Bool(*b),
            FieldValue::I32(i) => ValueView::I32(*i),
            FieldValue::I64(i) => ValueView::I64(*i),
            FieldValue::F64(d) => ValueView::F64(d.bits, d.text@),
            FieldValue::Str(s) => ValueView::Str(s@),
        }
    }
}

/// A number as far as comparing goes.
pub enum NumView {
    Int(int),
    Double(u64),
}

/// The bits of a double without its sign.
pub open spec fn magnitude(bits: u64) -> int {
    bits as int % 0x8000_0000_0000_0000
}

pub open spec fn is_negative(bits: u64) -> bool {
    bits >= 0x8000_0000_0000_0000
}

pub open spec fn is_nan(bits: u64) -> bool {
    magnitude(bits) > 0x7ff0_0000_0000_0000
}

/// A number that orders doubles: their magnitude with their sign.
pub open spec fn double_rank(bits: u64) -> int {
    if is_negative(bits) {
        -magnitude(bits)
    } else {
        magnitude(bits)
    }
}

/// 2 to the power `n`.
pub open spec fn two_to(n: nat) -> nat
    decreases n,
{
    if n == 0 {
        1
    } else {
        2 * two_to((n - 1) as nat)
    }
}

/// The biased exponent, at least 1.
pub open spec fn exponent(bits: u64) -> int {
    let e = magnitude(bits) / 0x10_0000_0000_0000;
    if e == 0 {
        1
    } else {
        e
    }
}

/// The significand, with the implicit leading bit.
pub open spec fn significand(bits: u64) -> int {
    let f = magnitude(bits) % 0x10_0000_0000_0000;
    if magnitude(bits) < 0x10_0000_0000_0000 {
        f
    } else {
        f + 0x10_0000_0000_0000
    }
}

/// The integer part of a double's magnitude.
pub open spec fn whole(bits: u64) -> int {
    let e = exponent(bits);
    if e >= 1075 {
        significand(bits) * two_to((e - 1075) as nat)
    } else {
        significand(bits) / two_to((1075 - e) as nat) as int
    }
}

/// Whether a double has a fraction.
pub open spec fn has_fraction(bits: u64) -> bool {
    exponent(bits) < 1075 && significand(bits) % two_to((1075 - exponent(bits)) as nat) as int != 0
}

/// How an integer stands to a double that is a number.
pub open spec fn int_double_order(n: int, bits: u64) -> Order {
    let w = if is_negative(bits) {
        -whole(bits)
    } else {
        whole(bits)
    };
    if n != w {
        int_order(n, w)
    } else if !has_fraction(bits) {
        Order::Equal
    } else if is_negative(bits) {
        Order::Greater
    } else {
        Order::Less
    }
}

/// How two numbers compare; not at all if one is not a number.
pub open spec fn num_order(a: NumView, b: NumView) -> Option<Order> {
    match (a, b) {
        (NumView::Int(x), NumView::Int(y)) => Some(int_order(x, y)),
        (NumView::Int(x), NumView::Double(y)) => if is_nan(y) {
            None
        } else {
            Some(int_double_order(x, y))
        },
        (NumView::Double(x), NumView::Int(y)) => if is_nan(x) {
            None
        } else {
            Some(flipped(int_double_order(y, x)))
        },
        (NumView::Double(x), NumView::Double(y)) => if is_nan(x) || is_nan(y) {
            None
        } else {
            Some(int_order(double_rank(x), double_rank(y)))
        },
    }
}

impl ValueView {
    pub open spec fn num(self) -> Option<NumView> {
        match self {
            ValueView::I32(i) => Some(NumView::Int(i as int)),
            ValueView::I64(i) => Some(NumView::Int(i as int)),
            ValueView::F64(bits, text) => Some(NumView::Double(bits)),
            _ => None,
        }
    }

    /// How two values compare: numbers with numbers, text with text by its bytes, booleans with
    /// booleans; nothing else compares.
    pub open spec fn compare(self, other: ValueView) -> Option<Order> {
        match (self, other) {
            (ValueView::Bool(a), ValueView::Bool(b)) => Some(
                if a == b {
                    Order::Equal
                } else if b {
                    Order::Less
                } else {
                    Order::Greater
                },
            ),
            (ValueView::Str(a), ValueView::Str(b)) => Some(lex(encode_utf8(a), encode_utf8(b))),
            _ => match (self.num(), other.num()) {
                (Some(a), Some(b)) => num_order(a, b),
                _ => None,
            },
        }
    }

    /// A value as result text; null is none.
    pub open spec fn text(self) -> Option<Seq<char>> {
        match self {
            ValueView::Null => None,
            ValueView::Bool(b) => Some(
                if b {
                    "true"@
                } else {
                    "false"@
                },
            ),
            ValueView::I32(i) => Some(numeral_text(i as int)),
            ValueView::I64(i) => Some(numeral_text(i as int)),
            ValueView::F64(bits, text) => Some(text),
            ValueView::Str(s) => Some(s),
        }
    }
}

proof fn lemma_two_to(a: nat, b: nat)
    requires
        a <= b,
    ensures
        0 < two_to(a) <= two_to(b),
    decreases b,
{
    if a < b {
        lemma_two_to(a, (b - 1) as nat);
    } else if a > 0 {
        lemma_two_to((a - 1) as nat, (a - 1) as nat);
    }
}

fn magnitude_of(bits: u64) -> (m: u64)
    ensures
        m == magnitude(bits),
{
    if bits >= 0x8000_0000_0000_0000 {
        bits - 0x8000_0000_0000_0000
    } else {
        bits
    }
}

/// A significand times a power of two.
fn scaled_up(m: u64, k: u64) -> (w: u64)
    requires
        m < 0x20_0000_0000_0000,
        k <= 11,
    ensures
        w == m * two_to(k as nat),
{
    let mut w: u64 = m;
    let mut i: u64 = 0;
    assert(m * two_to(0) == m) by (nonlinear_arith)
        requires
            two_to(0) == 1,
    ;
    while i < k
        invariant
            i <= k <= 11,
            m < 0x20_0000_0000_0000,
            w == m * two_to(i as nat),
        decreases k - i,
    {
        proof {
            let t = two_to(i as nat) as int;
            lemma_two_to((i + 1) as nat, 11);
            assert(two_to(11) == 2048) by {
                reveal_with_fuel(two_to, 12);
            }
            assert(two_to((i + 1) as nat) == 2 * t);
            assert(m * t * 2 <= 0x1f_ffff_ffff_ffff * 2048) by (nonlinear_arith)
                requires
                    m <= 0x1f_ffff_ffff_ffff,
                    0 < t * 2 <= 2048,
            ;
            assert(m * (2 * t) == m * t * 2) by (nonlinear_arith);
        }
        w = w * 2;
        i = i + 1;
    }
    w
}

/// A significand divided by a power of two: the quotient, and whether there is a remainder.
fn scaled_down(m: u64, k: u64) -> (r: (u64, bool))
    requires
        k < 53,
    ensures
        r.0 == m as int / two_to(k as nat) as int,
        r.1 == (m as int % two_to(k as nat) as int != 0),
{
    let mut q: u64 = m;
    let mut frac: bool = false;
    let mut i: u64 = 0;
    assert(two_to(0) == 1);
    while i < k
        invariant
            i <= k < 53,
            q == m as int / two_to(i as nat) as int,
            frac == (m as int % two_to(i as nat) as int != 0),
        decreases k - i,
    {
        proof {
            lemma_two_to(i as nat, i as nat);
            lemma_halved(m as int, two_to(i as nat) as int);
            assert(two_to((i + 1) as nat) == two_to(i as nat) as int * 2);
        }
        if q % 2 == 1 {
            frac = true;
        }
        q = q / 2;
        i = i + 1;
    }
    (q, frac)
}

/// Dividing by twice as much halves the quotient; the remainder is nothing where it was nothing
/// before and the quotient was even.
proof fn lemma_halved(x: int, t: int)
    requires
        x >= 0,
        t > 0,
    ensures
        x / (t * 2) == (x / t) / 2,
        (x % (t * 2) != 0) == (x % t != 0 || (x / t) % 2 == 1),
{
    vstd::arithmetic::div_mod::lemma_div_denominator(x, t, 2);
    vstd::arithmetic::div_mod::lemma_mod_breakdown(x, t, 2);
    vstd::arithmetic::div_mod::lemma_mod_bound(x, t);
    let h = (x / t) % 2;
    assert(t * h == if h == 1 {
        t
    } else {
        0
    }) by (nonlinear_arith)
        requires
            h == 0 || h == 1,
    ;
}

/// The integer part of a double's magnitude and whether there is a fraction; `None` for a whole
/// part of 2 to the power 64 or more.
fn whole_of(bits: u64) -> (r: Option<(u64, bool)>)
    ensures
        match r {
            Some((w, f)) => w == whole(bits) && f == has_fraction(bits),
            None => whole(bits) >= 0x1_0000_0000_0000_0000 && !has_fraction(bits),
        },
{
    let mag: u64 = magnitude_of(bits);
    let raw: u64 = mag / 0x10_0000_0000_0000;
    let e: u64 = if raw == 0 {
        1
    } else {
        raw
    };
    let low: u64 = mag % 0x10_0000_0000_0000;
    let m: u64 = if mag < 0x10_0000_0000_0000 {
        low
    } else {
        low + 0x10_0000_0000_0000
    };
    assert(e == exponent(bits));
    assert(m == significand(bits));
    assert(m < 0x20_0000_0000_0000);
    if e >= 1087 {
        proof {
            lemma_whole_large(bits);
        }
        return None;
    }
    if e >= 1075 {
        return Some((scaled_up(m, e - 1075), false));
    }
    let k: u64 = 1075 - e;
    if k >= 53 {
        proof {
            lemma_whole_small(bits);
        }
        return Some((0, m != 0));
    }
    Some(scaled_down(m, k))
}

proof fn lemma_powers()
    ensures
        two_to(12) == 4096,
        two_to(53) == 0x20_0000_0000_0000,
{
    reveal_with_fuel(two_to, 54);
}

proof fn lemma_whole_large(bits: u64)
    requires
        exponent(bits) >= 1087,
    ensures
        whole(bits) >= 0x1_0000_0000_0000_0000,
        !has_fraction(bits),
{
    let k = (exponent(bits) - 1075) as nat;
    lemma_powers();
    lemma_two_to(12, k);
    let (m, t) = (significand(bits), two_to(k) as int);
    assert(m * t >= 0x1_0000_0000_0000_0000) by (nonlinear_arith)
        requires
            m >= 0x10_0000_0000_0000,
            t >= 4096,
    ;
}

proof fn lemma_whole_small(bits: u64)
    requires
        exponent(bits) <= 1022,
    ensures
        whole(bits) == 0,
        has_fraction(bits) == (significand(bits) != 0),
{
    let k = (1075 - exponent(bits)) as nat;
    lemma_powers();
    lemma_two_to(53, k);
    let (m, t) = (significand(bits), two_to(k) as int);
    vstd::arithmetic::div_mod::lemma_basic_div(m, t);
    vstd::arithmetic::div_mod::lemma_small_mod(m as nat, t as nat);
}

/// A double cut to an `i64`: towards zero, to the nearest bound if it is too large, and 0 for
/// what is not a number.
pub open spec fn truncated(bits: u64) -> i64 {
    let w = if is_negative(bits) {
        -whole(bits)
    } else {
        whole(bits)
    };
    if is_nan(bits) {
        0
    } else if w > i64::MAX {
        i64::MAX
    } else if w < i64::MIN {
        i64::MIN
    } else {
        w as i64
    }
}

/// Cuts a double to an `i64`.
pub fn truncate(bits: u64) -> (n: i64)
    ensures
        n == truncated(bits),
{
    if magnitude_of(bits) > 0x7ff0_0000_0000_0000 {
        return 0;
    }
    let negative: bool = bits >= 0x8000_0000_0000_0000;
    match whole_of(bits) {
        None => if negative {
            i64::MIN
        } else {
            i64::MAX
        },
        Some((w, _)) => if negative {
            if w >= 0x8000_0000_0000_0000 {
                i64::MIN
            } else {
                -(w as i64)
            }
        } else if w > 0x7fff_ffff_ffff_ffff {
            i64::MAX
        } else {
            w as i64
        },
    }
}

/// How an integer stands to a double that is a number.
fn compare_int_double(n: i64, bits: u64) -> (o: Order)
    requires
        !is_nan(bits),
    ensures
        o == int_double_order(n as int, bits),
{
    let negative: bool = bits >= 0x8000_0000_0000_0000;
    match whole_of(bits) {
        None => if negative {
            Order::Greater
        } else {
            Order::Less
        },
        Some((w, frac)) => {
            let v: i128 = if negative {
                -(w as i128)
            } else {
                w as i128
            };
            let x: i128 = n as i128;
            if x < v {
                Order::Less
            } else if x > v {
                Order::Greater
            } else if !frac {
                Order::Equal
            } else if negative {
                Order::Greater
            } else {
                Order::Less
            }
        },
    }
}

fn compare_doubles(a: u64, b: u64) -> (o: Order)
    ensures
        o == int_order(double_rank(a), double_rank(b)),
{
    let x: i128 = if a >= 0x8000_0000_0000_0000 {
        -(magnitude_of(a) as i128)
    } else {
        a as i128
    };
    let y: i128 = if b >= 0x8000_0000_0000_0000 {
        -(magnitude_of(b) as i128)
    } else {
        b as i128
    };
    if x < y {
        Order::Less
    } else if x == y {
        Order::Equal
    } else {
        Order::Greater
    }
}

fn flip(o: Order) -> (r: Order)
    ensures
        r == flipped(o),
{
    match o {
        Order::Less => Order::Greater,
        Order::Equal => Order::Equal,
        Order::Greater => Order::Less,
    }
}

/// A number: an integer, or the bits of a double.
#[derive(Clone, Copy, Debug, PartialEq, Eq, Structural)]
pub enum Num {
    Int(i64),
    Double(u64),
}

impl View for Num {
    type V = NumView;

    open spec fn view(&self) -> NumView {
        match self {
            Num::Int(i) => NumView::Int(*i as int),
            Num::Double(d) => NumView::Double(*d),
        }
    }
}

/// How two numbers compare.
pub fn compare_nums(a: &Num, b: &Num) -> (o: Option<Order>)
    ensures
        o == num_order(a@, b@),
{
    match (a, b) {
        (Num::Int(x), Num::Int(y)) => Some(
            if *x < *y {
                Order::Less
            } else if *x == *y {
                Order::Equal
            } else {
                Order::Greater
            },
        ),
        (Num::Int(x), Num::Double(y)) => if magnitude_of(*y) > 0x7ff0_0000_0000_0000 {
            None
        } else {
            Some(compare_int_double(*x, *y))
        },
        (Num::Double(x), Num::Int(y)) => if magnitude_of(*x) > 0x7ff0_0000_0000_0000 {
            None
        } else {
            Some(flip(compare_int_double(*y, *x)))
        },
        (Num::Double(x), Num::Double(y)) => if magnitude_of(*x) > 0x7ff0_0000_0000_0000
            || magnitude_of(*y) > 0x7ff0_0000_0000_0000 {
            None
        } else {
            Some(compare_doubles(*x, *y))
        },
    }
}

impl FieldValue {
    /// An owned copy.
    pub fn duplicate(&self) -> (v: FieldValue)
        ensures
            v@ == self@,
    {
        match self {
            FieldValue::Null => FieldValue::Null,
            FieldValue::Bool(b) => FieldValue::Bool(*b),
            FieldValue::I32(i) => FieldValue::I32(*i),
            FieldValue::I64(i) => FieldValue::I64(*i),
            FieldValue::F64(d) => FieldValue::F64(Double { bits: d.bits, text: d.text.clone() }),
            FieldValue::Str(s) => FieldValue::Str(s.clone()),
        }
    }

    pub fn is_null(&self) -> (b: bool)
        ensures
            b == (self@ is Null),
    {
        match self {
            FieldValue::Null => true,
            _ => false,
        }
    }

    /// The value as a number.
    pub fn num(&self) -> (n: Option<Num>)
        ensures
            opt_view(n) == self@.num(),
    {
        match self {
            FieldValue::I32(i) => Some(Num::Int(*i as i64)),
            FieldValue::I64(i) => Some(Num::Int(*i)),
            FieldValue::F64(d) => Some(Num::Double(d.bits)),
            _ => None,
        }
    }

    /// How two values compare; values of different kinds, null, and what is not a number do not.
    pub fn compare(&self, other: &FieldValue) -> (o: Option<Order>)
        ensures
            o == self@.compare(other@),
    {
        match (self, other) {
            (FieldValue::Bool(a), FieldValue::Bool(b)) => Some(
                if *a == *b {
                    Order::Equal
                } else if *b {
                    Order::Less
                } else {
                    Order::Greater
                },
            ),
            (FieldValue::Str(a), FieldValue::Str(b)) => Some(
                compare_bytes(text_bytes(a.as_str()), text_bytes(b.as_str())),
            ),
            _ => match (self.num(), other.num()) {
                (Some(a), Some(b)) => compare_nums(&a, &b),
                _ => None,
            },
        }
    }

    /// Whether two values compare as equal.
    pub fn equals(&self, other: &FieldValue) -> (b: bool)
        ensures
            b == (self@.compare(other@) == Some(Order::Equal)),
    {
        match self.compare(other) {
            Some(o) => o == Order::Equal,
            None => false,
        }
    }
}

/// A field value as result text (null is `None`).
pub fn fmt_value(v: &FieldValue) -> (s: Option<String>)
    ensures
        opt_view(s) == v@.text(),
{
    match v {
        FieldValue::Null => None,
        FieldValue::Bool(b) => Some(
            if *b {
                "true".to_string()
            } else {
                "false".to_string()
            },
        ),
        FieldValue::I32(i) => Some(integer_text(*i as i64)),
        FieldValue::I64(i) => Some(integer_text(*i)),
        FieldValue::F64(d) => Some(d.text.clone()),
        FieldValue::Str(s) => Some(s.clone()),
    }
}

/// Seen from the other side, values compare the other way round.
pub proof fn law_comparing_flips(a: ValueView, b: ValueView)
    ensures
        match a.compare(b) {
            Some(o) => b.compare(a) == Some(flipped(o)),
            None => b.compare(a) is None,
        },
{
    if let (ValueView::Str(x), ValueView::Str(y)) = (a, b) {
        lemma_lex_flip(encode_utf8(x), encode_utf8(y));
    }
}

/// A number on a common scale: the number of smallest positive doubles that it comes to.
pub open spec fn scaled(n: NumView) -> int {
    match n {
        NumView::Int(i) => i * two_to(1074),
        NumView::Double(bits) => if is_negative(bits) {
            -scaled_magnitude(bits)
        } else {
            scaled_magnitude(bits)
        },
    }
}

pub open spec fn scaled_magnitude(bits: u64) -> int {
    significand(bits) * two_to((exponent(bits) - 1) as nat)
}

proof fn lemma_two_to_sum(a: nat, b: nat)
    ensures
        two_to(a + b) == two_to(a) * two_to(b),
    decreases b,
{
    if b > 0 {
        lemma_two_to_sum(a, (b - 1) as nat);
        assert(two_to(a) * two_to(b) == 2 * (two_to(a) * two_to((b - 1) as nat)))
            by (nonlinear_arith)
            requires
                two_to(b) == 2 * two_to((b - 1) as nat),
        ;
        assert((a + (b - 1)) as nat == (a + b - 1) as nat);
        assert(two_to((a + b) as nat) == 2 * two_to((a + b - 1) as nat));
    } else {
        assert(two_to(a) * 1 == two_to(a)) by (nonlinear_arith);
    }
}

proof fn lemma_magnitudes_scale(a: u64, b: u64)
    requires
        magnitude(a) < magnitude(b),
    ensures
        scaled_magnitude(a) < scaled_magnitude(b),
{
    let (ea, eb) = ((exponent(a) - 1) as nat, (exponent(b) - 1) as nat);
    let (sa, sb) = (significand(a), significand(b));
    let (ta, tb) = (two_to(ea) as int, two_to(eb) as int);
    lemma_two_to(ea, ea);
    if ea == eb {
        assert(sa < sb);
        assert(sa * ta < sb * ta) by (nonlinear_arith)
            requires
                sa < sb,
                ta > 0,
        ;
    } else {
        assert(ea < eb);
        lemma_two_to(ea + 1, eb);
        assert(sa < 0x20_0000_0000_0000 && 0x10_0000_0000_0000 <= sb);
        assert(sa * ta < sb * tb) by (nonlinear_arith)
            requires
                0 <= sa < 0x20_0000_0000_0000,
                0x10_0000_0000_0000 <= sb,
                0 < 2 * ta <= tb,
        ;
    }
}

/// The scaled magnitude of a double from its whole part and what is left.
proof fn lemma_whole_scales(bits: u64)
    ensures
        whole(bits) * two_to(1074) <= scaled_magnitude(bits) < (whole(bits) + 1) * two_to(1074),
        (scaled_magnitude(bits) == whole(bits) * two_to(1074)) == !has_fraction(bits),
        whole(bits) >= 0,
{
    let e = exponent(bits);
    let s = significand(bits);
    lemma_two_to(1074, 1074);
    let u = two_to(1074) as int;
    if e >= 1075 {
        let t = two_to((e - 1075) as nat) as int;
        lemma_two_to(0, (e - 1075) as nat);
        lemma_two_to_sum((e - 1075) as nat, 1074);
        assert(s * (t * u) == (s * t) * u) by (nonlinear_arith);
        assert((s * t) * u < (s * t + 1) * u) by (nonlinear_arith)
            requires
                u > 0,
        ;
        assert(s * t >= 0) by (nonlinear_arith)
            requires
                s >= 0,
                t >= 0,
        ;
    } else {
        let t = two_to((1075 - e) as nat) as int;
        let v = two_to((e - 1) as nat) as int;
        lemma_two_to(0, (1075 - e) as nat);
        lemma_two_to(0, (e - 1) as nat);
        lemma_two_to_sum((1075 - e) as nat, (e - 1) as nat);
        assert(u == t * v);
        let (w, r) = (s / t, s % t);
        vstd::arithmetic::div_mod::lemma_fundamental_div_mod(s, t);
        vstd::arithmetic::div_mod::lemma_mod_bound(s, t);
        vstd::arithmetic::div_mod::lemma_div_pos_is_pos(s, t);
        assert(s * v == w * u + r * v) by (nonlinear_arith)
            requires
                s == t * w + r,
                u == t * v,
        ;
        assert(0 <= r * v < u) by (nonlinear_arith)
            requires
                0 <= r < t,
                v > 0,
                u == t * v,
        ;
        assert(r != 0 ==> r * v > 0) by (nonlinear_arith)
            requires
                r >= 0,
                v > 0,
        ;
        assert(r == 0 ==> r * v == 0) by (nonlinear_arith);
        assert((w + 1) * u == w * u + u) by (nonlinear_arith);
    }
}

proof fn lemma_int_double_scales(n: int, bits: u64)
    ensures
        int_double_order(n, bits) == int_order(
            scaled(NumView::Int(n)),
            scaled(NumView::Double(bits)),
        ),
{
    lemma_whole_scales(bits);
    lemma_two_to(1074, 1074);
    let u = two_to(1074) as int;
    let w = whole(bits);
    let m = scaled_magnitude(bits);
    let sw = if is_negative(bits) {
        -w
    } else {
        w
    };
    assert((w + 1) * u == w * u + u) by (nonlinear_arith);
    assert((-w) * u == -(w * u)) by (nonlinear_arith);
    if n < sw {
        assert(n * u <= sw * u - u) by (nonlinear_arith)
            requires
                n <= sw - 1,
                u > 0,
        ;
    } else if n > sw {
        assert(n * u >= sw * u + u) by (nonlinear_arith)
            requires
                n >= sw + 1,
                u > 0,
        ;
    }
}

/// Numbers compare as their places on the common scale do.
pub proof fn law_numbers_compare_by_value(a: NumView, b: NumView)
    ensures
        num_order(a, b) == if (a matches NumView::Double(x) && is_nan(x)) || (
        b matches NumView::Double(y) && is_nan(y)) {
            None
        } else {
            Some(int_order(scaled(a), scaled(b)))
        },
{
    match (a, b) {
        (NumView::Int(x), NumView::Int(y)) => {
            lemma_two_to(1074, 1074);
            let u = two_to(1074) as int;
            assert(x < y ==> x * u < y * u) by (nonlinear_arith)
                requires
                    u > 0,
            ;
            assert(x > y ==> x * u > y * u) by (nonlinear_arith)
                requires
                    u > 0,
            ;
        },
        (NumView::Int(x), NumView::Double(y)) => {
            lemma_int_double_scales(x, y);
        },
        (NumView::Double(x), NumView::Int(y)) => {
            lemma_int_double_scales(y, x);
        },
        (NumView::Double(x), NumView::Double(y)) => {
            lemma_double_signs(x);
            lemma_double_signs(y);
            if magnitude(x) < magnitude(y) {
                lemma_magnitudes_scale(x, y);
            } else if magnitude(x) > magnitude(y) {
                lemma_magnitudes_scale(y, x);
            }
        },
    }
}

proof fn lemma_double_signs(x: u64)
    ensures
        scaled_magnitude(x) >= 0,
        (scaled_magnitude(x) == 0) == (magnitude(x) == 0),
{
    let t = two_to((exponent(x) - 1) as nat) as int;
    lemma_two_to(0, (exponent(x) - 1) as nat);
    let s = significand(x);
    assert(s * t >= 0) by (nonlinear_arith)
        requires
            s >= 0,
            t > 0,
    ;
    assert((s * t == 0) == (s == 0)) by (nonlinear_arith)
        requires
            s >= 0,
            t > 0,
    ;
}

/// Comparing is transitive.
pub proof fn law_comparing_is_transitive(a: ValueView, b: ValueView, c: ValueView)
    requires
        a.compare(b) is Some,
        b.compare(c) is Some,
        a.compare(b) == b.compare(c) || a.compare(b) == Some(Order::Equal) || b.compare(c) == Some(
            Order::Equal,
        ),
    ensures
        a.compare(c) == if a.compare(b) == Some(Order::Equal) {
            b.compare(c)
        } else {
            a.compare(b)
        },
{
    if let (ValueView::Str(x), ValueView::Str(y)) = (a, b) {
        let z = c->Str_0;
        let (p, q, r) = (encode_utf8(x), encode_utf8(y), encode_utf8(z));
        lemma_lex_equal(p, q);
        lemma_lex_equal(q, r);
        lemma_lex_flip(p, q);
        lemma_lex_flip(q, r);
        lemma_lex_flip(p, r);
        if lex(p, q) == Order::Less && lex(q, r) == Order::Less {
            lemma_lex_trans(p, q, r);
        } else if lex(p, q) == Order::Greater && lex(q, r) == Order::Greater {
            lemma_lex_trans(r, q, p);
        }
    } else if let (Some(x), Some(y)) = (a.num(), b.num()) {
        let z = c.num()->0;
        law_numbers_compare_by_value(x, y);
        law_numbers_compare_by_value(y, z);
        law_numbers_compare_by_value(x, z);
    }
}

/// What compares with what, and how: integers of either width by their value, text in the
/// dictionary order of its bytes, false before true; null, and values of different kinds, not at
/// all.
pub proof fn law_values_compare_by_kind(a: ValueView, b: ValueView)
    ensures
        (a is Null || b is Null) ==> a.compare(b) is None,
        (a is Str) != (b is Str) ==> a.compare(b) is None,
        (a is Bool) != (b is Bool) ==> a.compare(b) is None,
        match (a, b) {
            (ValueView::I64(x), ValueView::I64(y)) => a.compare(b) == Some(
                int_order(x as int, y as int),
            ),
            (ValueView::I32(x), ValueView::I64(y)) => a.compare(b) == Some(
                int_order(x as int, y as int),
            ),
            (ValueView::I64(x), ValueView::I32(y)) => a.compare(b) == Some(
                int_order(x as int, y as int),
            ),
            (ValueView::I32(x), ValueView::I32(y)) => a.compare(b) == Some(
                int_order(x as int, y as int),
            ),
            (ValueView::Bool(x), ValueView::Bool(y)) => {
                &&& a.compare(b) == Some(Order::Less) <==> !x && y
                &&& a.compare(b) == Some(Order::Equal) <==> x == y
                &&& a.compare(b) is Some
            },
            (ValueView::Str(x), ValueView::Str(y)) => {
                &&& a.compare(b) == Some(Order::Less) <==> in_dictionary_before(
                    encode_utf8(x),
                    encode_utf8(y),
                )
                &&& a.compare(b) == Some(Order::Greater) <==> in_dictionary_before(
                    encode_utf8(y),
                    encode_utf8(x),
                )
                &&& a.compare(b) == Some(Order::Equal) <==> encode_utf8(x) == encode_utf8(y)
                &&& a.compare(b) is Some
            },
            _ => true,
        },
        a is Str && a == b ==> a.compare(b) == Some(Order::Equal),
{
    if let (ValueView::Str(x), ValueView::Str(y)) = (a, b) {
        law_bytes_are_in_dictionary_order(encode_utf8(x), encode_utf8(y));
    }
}

/// The text of values: integers as numerals, from which they are read back, booleans as words,
/// doubles and text as they are written; null has none.
pub proof fn law_texts_of_values(i: i64, n: i32, bits: u64, t: Seq<char>)
    ensures
        ValueView::Null.text() is None,
        ValueView::Bool(true).text() == Some("true"@),
        ValueView::Bool(false).text() == Some("false"@),
        ValueView::I64(i).text() == Some(numeral_text(i as int)),
        ValueView::I32(n).text() == Some(numeral_text(n as int)),
        ValueView::F64(bits, t).text() == Some(t),
        ValueView::Str(t).text() == Some(t),
{
}

/// Cutting a double gives the integer next to it on the side of zero; what is beyond an `i64`
/// gives the bound, and what is not a number gives 0.
pub proof fn law_doubles_are_cut_towards_zero(bits: u64)
    ensures
        ({
            let t = truncated(bits) as int;
            let d = NumView::Double(bits);
            if is_nan(bits) {
                t == 0
            } else if is_negative(bits) {
                &&& t <= 0
                &&& t > i64::MIN ==> num_order(NumView::Int(t), d) != Some(Order::Less)
                &&& num_order(NumView::Int(t - 1), d) == Some(Order::Less) || t == i64::MIN
                &&& t == i64::MIN ==> num_order(NumView::Int(t + 1), d) == Some(Order::Greater)
            } else {
                &&& t >= 0
                &&& t < i64::MAX ==> num_order(NumView::Int(t), d) != Some(Order::Greater)
                &&& num_order(NumView::Int(t + 1), d) == Some(Order::Greater) || t == i64::MAX
                &&& t == i64::MAX ==> num_order(NumView::Int(t - 1), d) == Some(Order::Less)
            }
        }),
{
    lemma_whole_not_negative(bits);
}

proof fn lemma_whole_not_negative(bits: u64)
    ensures
        whole(bits) >= 0,
{
    let e = exponent(bits);
    assert(significand(bits) >= 0);
    if e >= 1075 {
        let t = two_to((e - 1075) as nat) as int;
        assert(significand(bits) * t >= 0) by (nonlinear_arith)
            requires
                significand(bits) >= 0,
                t >= 0,
        ;
    } else {
        let k = (1075 - e) as nat;
        lemma_two_to(k, k);
        vstd::arithmetic::div_mod::lemma_div_pos_is_pos(significand(bits), two_to(k) as int);
    }
}

/// Which values are numbers: integers of either width, and doubles.
pub proof fn law_numbers_are_numbers(v: ValueView)
    ensures
        v matches ValueView::I32(i) ==> v.num() == Some(NumView::Int(i as int)),
        v matches ValueView::I64(i) ==> v.num() == Some(NumView::Int(i as int)),
        v matches ValueView::F64(bits, text) ==> v.num() == Some(NumView::Double(bits)),
        v is Null || v is Bool || v is Str ==> v.num() is None,
{
}

} // verus!
