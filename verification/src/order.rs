//! Ordering of byte strings.

use vstd::prelude::*;

verus! {

/// How one value stands to another.
#[derive(Clone, Copy, Debug, PartialEq, Eq, Structural)]
pub enum Order {
    Less,
    Equal,
    Greater,
}

/// The order seen from the other side.
pub open spec fn flipped(o: Order) -> Order {
    match o {
        Order::Less => Order::Greater,
        Order::Equal => Order::Equal,
        Order::Greater => Order::Less,
    }
}

pub open spec fn int_order(a: int, b: int) -> Order {
    if a < b {
        Order::Less
    } else if a == b {
        Order::Equal
    } else {
        Order::Greater
    }
}

/// Lexicographic order of byte strings: the first byte that differs decides, else the shorter one
/// comes first.
pub open spec fn lex(a: Seq<u8>, b: Seq<u8>) -> Order
    decreases a.len(),
{
    if a.len() == 0 && b.len() == 0 {
        Order::Equal
    } else if a.len() == 0 {
        Order::Less
    } else if b.len() == 0 {
        Order::Greater
    } else if a[0] != b[0] {
        int_order(a[0] as int, b[0] as int)
    } else {
        lex(a.skip(1), b.skip(1))
    }
}

pub fn compare_bytes(a: &[u8], b: &[u8]) -> (o: Order)
    ensures
        o == lex(a@, b@),
{
    let mut i: usize = 0;
    assert(a@.skip(0) =~= a@ && b@.skip(0) =~= b@);
    while i < a.len() && i < b.len()
        invariant
            i <= a@.len(),
            i <= b@.len(),
            lex(a@, b@) == lex(a@.skip(i as int), b@.skip(i as int)),
        decreases a@.len() - i,
    {
        let ghost x = a@.skip(i as int);
        let ghost y = b@.skip(i as int);
        assert(x[0] == a@[i as int] && y[0] == b@[i as int]);
        if a[i] < b[i] {
            return Order::Less;
        }
        if a[i] > b[i] {
            return Order::Greater;
        }
        assert(x.skip(1) =~= a@.skip(i + 1) && y.skip(1) =~= b@.skip(i + 1));
        i = i + 1;
    }
    if i < b.len() {
        Order::Less
    } else if i < a.len() {
        Order::Greater
    } else {
        Order::Equal
    }
}

/// Equal in order is equal.
pub proof fn lemma_lex_equal(a: Seq<u8>, b: Seq<u8>)
    ensures
        lex(a, b) == Order::Equal <==> a == b,
    decreases a.len(),
{
    if a.len() > 0 && b.len() > 0 && a[0] == b[0] {
        lemma_lex_equal(a.skip(1), b.skip(1));
        if a.skip(1) == b.skip(1) {
            assert(a =~= seq![a[0]] + a.skip(1));
            assert(b =~= seq![b[0]] + b.skip(1));
        }
    } else if a.len() == 0 && b.len() == 0 {
        assert(a =~= b);
    }
}

pub proof fn lemma_lex_flip(a: Seq<u8>, b: Seq<u8>)
    ensures
        lex(b, a) == flipped(lex(a, b)),
    decreases a.len(),
{
    if a.len() > 0 && b.len() > 0 && a[0] == b[0] {
        lemma_lex_flip(a.skip(1), b.skip(1));
    }
}

pub proof fn lemma_lex_trans(a: Seq<u8>, b: Seq<u8>, c: Seq<u8>)
    requires
        lex(a, b) == Order::Less,
        lex(b, c) == Order::Less,
    ensures
        lex(a, c) == Order::Less,
    decreases a.len(),
{
    if a.len() > 0 && b.len() > 0 && c.len() > 0 && a[0] == b[0] && b[0] == c[0] {
        lemma_lex_trans(a.skip(1), b.skip(1), c.skip(1));
    }
}

/// Whether `a` comes before `b` in a dictionary: it is the beginning of `b`, or the first byte in
/// which they differ is smaller.
pub open spec fn in_dictionary_before(a: Seq<u8>, b: Seq<u8>) -> bool {
    (a.len() < b.len() && b.take(a.len() as int) == a) || exists|i: int|
        0 <= i < a.len() && i < b.len() && (#[trigger] a[i]) < b[i] && a.take(i) == b.take(i)
}

/// Byte strings are in dictionary order.
pub proof fn law_bytes_are_in_dictionary_order(a: Seq<u8>, b: Seq<u8>)
    ensures
        lex(a, b) == Order::Less <==> in_dictionary_before(a, b),
        lex(a, b) == Order::Greater <==> in_dictionary_before(b, a),
        lex(a, b) == Order::Equal <==> a == b,
{
    lemma_lex_equal(a, b);
    lemma_lex_flip(a, b);
    lemma_dictionary(a, b);
    lemma_dictionary(b, a);
}

proof fn lemma_dictionary(a: Seq<u8>, b: Seq<u8>)
    ensures
        lex(a, b) == Order::Less <==> in_dictionary_before(a, b),
    decreases a.len(),
{
    if a.len() == 0 {
        assert(b.take(0) =~= a);
    } else if b.len() > 0 {
        let (x, y) = (a.skip(1), b.skip(1));
        if a[0] != b[0] {
            if a[0] < b[0] {
                assert(a.take(0) =~= b.take(0));
            } else if in_dictionary_before(a, b) {
                if a.len() < b.len() && b.take(a.len() as int) == a {
                    assert(b.take(a.len() as int)[0] == b[0]);
                } else {
                    let i = choose|i: int|
                        0 <= i < a.len() && i < b.len() && (#[trigger] a[i]) < b[i] && a.take(i)
                            == b.take(i);
                    if i > 0 {
                        assert(a.take(i)[0] == a[0] && b.take(i)[0] == b[0]);
                    }
                }
            }
        } else {
            lemma_dictionary(x, y);
            if in_dictionary_before(x, y) {
                if x.len() < y.len() && y.take(x.len() as int) == x {
                    assert(b.take(a.len() as int) =~= a) by {
                        assert forall|j: int| 0 < j < a.len() implies b[j] == a[j] by {
                            assert(y.take(x.len() as int)[j - 1] == x[j - 1]);
                        }
                    }
                } else {
                    let i = choose|i: int|
                        0 <= i < x.len() && i < y.len() && (#[trigger] x[i]) < y[i] && x.take(i)
                            == y.take(i);
                    assert(a[i + 1] < b[i + 1]);
                    assert(a.take(i + 1) =~= b.take(i + 1)) by {
                        assert forall|j: int| 0 < j <= i implies a[j] == b[j] by {
                            assert(x.take(i)[j - 1] == y.take(i)[j - 1]);
                        }
                    }
                }
            }
            if in_dictionary_before(a, b) {
                if a.len() < b.len() && b.take(a.len() as int) == a {
                    assert(y.take(x.len() as int) =~= x) by {
                        assert forall|j: int| 0 <= j < x.len() implies y[j] == x[j] by {
                            assert(b.take(a.len() as int)[j + 1] == a[j + 1]);
                        }
                    }
                } else {
                    let i = choose|i: int|
                        0 <= i < a.len() && i < b.len() && (#[trigger] a[i]) < b[i] && a.take(i)
                            == b.take(i);
                    assert(x[i - 1] < y[i - 1]);
                    assert(x.take(i - 1) =~= y.take(i - 1)) by {
                        assert forall|j: int| 0 <= j < i - 1 implies x[j] == y[j] by {
                            assert(a.take(i)[j + 1] == b.take(i)[j + 1]);
                        }
                    }
                }
            }
        }
    }
}

} // verus!
