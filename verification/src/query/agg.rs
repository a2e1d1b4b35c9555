//! Aggregations and projections over stored entries.
//!
//! Sums and averages of doubles are left to the caller: an aggregation hands out the numbers that
//! go into them.

use vstd::prelude::*;
use vstd::slice::slice_subrange;
use vstd::string::StrSliceExecFns;
use vstd::utf8::encode_utf8;
use super::json::FieldExtractor;
use super::value::{
    law_comparing_flips, law_comparing_is_transitive, FieldValue, Num, NumView, ValueView,
};
use crate::bytes::{
    get_i32_be, i32_be, i32_be_at, i32_le, law_bytes_are_little_endian, lemma_ints_read_back,
    lemma_le_digits_len,
};
use crate::model::{lemma_filter_nothing, lemma_filter_take, opt_view, views};
use crate::order::Order;
use crate::text::{lemma_text_reads_back, read_text, readable};

verus! {

#[derive(Clone, Copy, Debug, PartialEq, Eq, Structural)]
pub enum AggregationType {
    Count,
    Sum,
    Avg,
    Min,
    Max,
}

#[derive(Clone, Debug, PartialEq, Eq)]
pub struct Aggregator {
    pub ty: AggregationType,
    pub attribute_path: Option<String>,
}

/// What an [`Aggregator`] holds.
pub struct AggregatorView {
    pub ty: AggregationType,
    pub attribute_path: Option<Seq<char>>,
}

impl View for Aggregator {
    type V = AggregatorView;

    open spec fn view(&self) -> AggregatorView {
        AggregatorView { ty: self.ty, attribute_path: opt_view(self.attribute_path) }
    }
}

/// The aggregation that a class stands for.
pub open spec fn class_type(class_id: i32) -> Option<AggregationType> {
    if class_id == 4 {
        Some(AggregationType::Count)
    } else if class_id == 14 {
        Some(AggregationType::Max)
    } else if class_id == 15 {
        Some(AggregationType::Min)
    } else if class_id == 1 || class_id == 3 || class_id == 7 || class_id == 8 || class_id == 9
        || class_id == 11 || class_id == 13 {
        Some(AggregationType::Sum)
    } else if class_id == 0 || class_id == 2 || class_id == 6 || class_id == 10 || class_id == 12
        || class_id == 16 {
        Some(AggregationType::Avg)
    } else {
        None
    }
}

fn type_of_class(class_id: i32) -> (r: Option<AggregationType>)
    ensures
        r == class_type(class_id),
{
    match class_id {
        4 => Some(AggregationType::Count),
        1 | 3 | 7 | 8 | 9 | 11 | 13 => Some(AggregationType::Sum),
        0 | 2 | 6 | 10 | 12 | 16 => Some(AggregationType::Avg),
        14 => Some(AggregationType::Max),
        15 => Some(AggregationType::Min),
        _ => None,
    }
}

/// The attribute behind its flag and length in a data blob; none if the flag is off or the text
/// is not all there.
pub open spec fn attribute(data: Seq<u8>) -> Option<Seq<char>> {
    let len = i32_be_at(data, 18);
    if data[17] == 0 || data.len() < 22 || len < 0 || 22 + len > data.len() {
        None
    } else {
        Some(readable(data.subrange(22, 22 + len)))
    }
}

/// Whether the attribute's length, if it is there, is no small negative number.
pub open spec fn attribute_sound(data: Seq<u8>) -> bool {
    data.len() >= 18 && (data[17] != 0 && data.len() >= 22 ==> !(-14 <= i32_be_at(data, 18) < 0))
}

fn read_attribute(data: &[u8]) -> (r: Option<String>)
    requires
        data@.len() >= 18,
    ensures
        opt_view(r) == attribute(data@),
{
    if data[17] == 0 || data.len() < 22 {
        return None;
    }
    let len: i32 = get_i32_be(data, 18);
    if len < 0 || len as usize > data.len() - 22 {
        return None;
    }
    Some(read_text(slice_subrange(data, 22, 22 + len as usize)))
}

/// Whether a data blob holds an object of a class that aggregates.
pub open spec fn is_aggregator(data: Seq<u8>) -> bool {
    data.len() >= 17 && data[8] == 1 && class_type(i32_be_at(data, 13)) is Some
}

/// Decodes an aggregator's data blob: hash and type (8 bytes), a marker, factory and class,
/// then the attribute.
pub fn decode_aggregator(data: &[u8]) -> (r: Option<Aggregator>)
    requires
        is_aggregator(data@) ==> attribute_sound(data@),
    ensures
        opt_view(r) == if is_aggregator(data@) {
            Some(
                (AggregatorView {
                    ty: class_type(i32_be_at(data@, 13))->0,
                    attribute_path: attribute(data@),
                }),
            )
        } else {
            None
        },
{
    if data.len() < 17 || data[8] != 1 {
        return None;
    }
    match type_of_class(get_i32_be(data, 13)) {
        Some(ty) => Some(Aggregator { ty, attribute_path: read_attribute(data) }),
        None => None,
    }
}

/// The attribute of a single-attribute projection's data blob.
pub fn extract_attribute_from_projection(data: &[u8]) -> (r: Option<String>)
    requires
        data@.len() >= 23 && data@[8] == 1 ==> attribute_sound(data@),
    ensures
        opt_view(r) == if data@.len() >= 23 && data@[8] == 1 {
            attribute(data@)
        } else {
            None
        },
{
    if data.len() < 23 || data[8] != 1 {
        return None;
    }
    read_attribute(data)
}

/// What an aggregation comes to.
#[derive(Debug, PartialEq, Eq)]
pub enum Aggregate {
    Value(FieldValue),
    /// The sum of these numbers, at least one.
    Sum(Vec<Num>),
    /// The mean of these numbers, at least one.
    Avg(Vec<Num>),
}

/// What an [`Aggregate`] holds.
pub enum AggregateView {
    Value(ValueView),
    Sum(Seq<NumView>),
    Avg(Seq<NumView>),
}

impl View for Aggregate {
    type V = AggregateView;

    open spec fn view(&self) -> AggregateView {
        match self {
            Aggregate::Value(v) => AggregateView::Value(v@),
            Aggregate::Sum(ns) => AggregateView::Sum(views(ns@)),
            Aggregate::Avg(ns) => AggregateView::Avg(views(ns@)),
        }
    }
}

/// An attribute of each entry.
pub open spec fn column<E: FieldExtractor>(
    ex: E,
    entries: Seq<(Seq<u8>, Seq<u8>)>,
    attr: Seq<char>,
) -> Seq<ValueView> {
    Seq::new(entries.len(), |i: int| ex.extracted(entries[i].1, attr))
}

/// The values that are not null.
pub open spec fn present(values: Seq<ValueView>) -> Seq<ValueView> {
    values.filter(|v: ValueView| !(v is Null))
}

/// The numbers among values.
pub open spec fn numbers(values: Seq<ValueView>) -> Seq<NumView>
    decreases values.len(),
{
    if values.len() == 0 {
        Seq::empty()
    } else {
        let before = numbers(values.drop_last());
        match values.last().num() {
            Some(n) => before.push(n),
            None => before,
        }
    }
}

/// The value that stands as asked to the one found before it, from the first value on; null if
/// there is none.
pub open spec fn extreme(values: Seq<ValueView>, wanted: Order) -> ValueView
    decreases values.len(),
{
    if values.len() == 0 {
        ValueView::Null
    } else {
        let best = extreme(values.drop_last(), wanted);
        if values.len() == 1 || values.last().compare(best) == Some(wanted) {
            values.last()
        } else {
            best
        }
    }
}

/// What an aggregation over the values of its attribute comes to; `attr` is empty if it has no
/// attribute.
pub open spec fn aggregated(ty: AggregationType, attr: Seq<char>, values: Seq<ValueView>) -> AggregateView {
    match ty {
        AggregationType::Count => AggregateView::Value(
            ValueView::I64(
                (if attr.len() == 0 {
                    values.len()
                } else {
                    present(values).len()
                }) as i64,
            ),
        ),
        AggregationType::Sum => if attr.len() == 0 || numbers(values).len() == 0 {
            AggregateView::Value(ValueView::Null)
        } else {
            AggregateView::Sum(numbers(values))
        },
        AggregationType::Avg => if attr.len() == 0 || numbers(values).len() == 0 {
            AggregateView::Value(ValueView::Null)
        } else {
            AggregateView::Avg(numbers(values))
        },
        AggregationType::Min => AggregateView::Value(
            if attr.len() == 0 {
                ValueView::Null
            } else {
                extreme(present(values), Order::Less)
            },
        ),
        AggregationType::Max => AggregateView::Value(
            if attr.len() == 0 {
                ValueView::Null
            } else {
                extreme(present(values), Order::Greater)
            },
        ),
    }
}

/// The attribute of an aggregator, empty if it has none.
pub open spec fn attribute_or_empty(agg: AggregatorView) -> Seq<char> {
    match agg.attribute_path {
        Some(a) => a,
        None => Seq::empty(),
    }
}

/// The numbers among values.
pub fn numbers_of(values: &Vec<FieldValue>) -> (out: Vec<Num>)
    ensures
        views(out@) == numbers(views(values@)),
{
    let ghost all = views(values@);
    let mut out: Vec<Num> = Vec::new();
    let mut i: usize = 0;
    assert(views(out@) =~= numbers(all.take(0)));
    while i < values.len()
        invariant
            i <= values@.len(),
            all == views(values@),
            views(out@) == numbers(all.take(i as int)),
        decreases values@.len() - i,
    {
        let ghost so_far = views(out@);
        assert(all.take(i + 1).drop_last() =~= all.take(i as int));
        assert(all[i as int] == values@[i as int]@);
        match values[i].num() {
            Some(n) => {
                out.push(n);
                assert(views(out@) =~= so_far.push(n@));
            },
            None => {},
        }
        i = i + 1;
    }
    assert(all.take(i as int) =~= all);
    out
}

fn count_present(values: &Vec<FieldValue>) -> (n: usize)
    ensures
        n == present(views(values@)).len(),
{
    let ghost all = views(values@);
    let mut n: usize = 0;
    let mut i: usize = 0;
    proof {
        lemma_filter_nothing(all, |v: ValueView| !(v is Null));
    }
    while i < values.len()
        invariant
            i <= values@.len(),
            all == views(values@),
            n <= i,
            n == present(all.take(i as int)).len(),
        decreases values@.len() - i,
    {
        proof {
            lemma_filter_take(all, i as int, |v: ValueView| !(v is Null));
        }
        if !values[i].is_null() {
            n = n + 1;
        }
        i = i + 1;
    }
    assert(all.take(i as int) =~= all);
    n
}

/// The least or greatest of the values that are not null.
pub fn extreme_of(values: &Vec<FieldValue>, wanted: Order) -> (r: FieldValue)
    ensures
        r@ == extreme(present(views(values@)), wanted),
{
    let ghost all = views(values@);
    let mut best: FieldValue = FieldValue::Null;
    let mut found: bool = false;
    let mut i: usize = 0;
    proof {
        lemma_filter_nothing(all, |v: ValueView| !(v is Null));
    }
    while i < values.len()
        invariant
            i <= values@.len(),
            all == views(values@),
            found == (present(all.take(i as int)).len() > 0),
            best@ == extreme(present(all.take(i as int)), wanted),
        decreases values@.len() - i,
    {
        let ghost p = present(all.take(i as int));
        proof {
            lemma_filter_take(all, i as int, |v: ValueView| !(v is Null));
            assert(p.push(all[i as int]).drop_last() =~= p);
        }
        let v = &values[i];
        if !v.is_null() {
            let better: bool = match v.compare(&best) {
                Some(o) => o == wanted,
                None => false,
            };
            if !found || better {
                best = v.duplicate();
            }
            found = true;
        }
        i = i + 1;
    }
    assert(all.take(i as int) =~= all);
    best
}

fn column_of<E: FieldExtractor>(ex: &E, entries: &[(Vec<u8>, Vec<u8>)], attr: &str) -> (out: Vec<
    FieldValue,
>)
    ensures
        views(out@) == column(*ex, views(entries@), attr@),
{
    let ghost all = column(*ex, views(entries@), attr@);
    let mut out: Vec<FieldValue> = Vec::new();
    let mut i: usize = 0;
    while i < entries.len()
        invariant
            i <= entries@.len(),
            all == column(*ex, views(entries@), attr@),
            views(out@) =~= all.take(i as int),
        decreases entries@.len() - i,
    {
        let ghost so_far = views(out@);
        let e = &entries[i];
        assert(views(entries@)[i as int] == e@);
        let v = ex.extract(e.1.as_slice(), attr);
        out.push(v);
        assert(views(out@) =~= so_far.push(v@));
        i = i + 1;
    }
    assert(all.take(i as int) =~= all);
    out
}

/// Runs an aggregation over entries.
pub fn execute_aggregation<E: FieldExtractor>(
    agg: &Aggregator,
    entries: &[(Vec<u8>, Vec<u8>)],
    ex: &E,
) -> (r: Aggregate)
    ensures
        r@ == aggregated(
            agg@.ty,
            attribute_or_empty(agg@),
            column(*ex, views(entries@), attribute_or_empty(agg@)),
        ),
{
    let attr: &str = match &agg.attribute_path {
        Some(a) => a.as_str(),
        None => {
            proof {
                reveal_strlit("");
            }
            ""
        },
    };
    assert(attr@ =~= attribute_or_empty(agg@)) by {
        reveal_strlit("");
    }
    let values = column_of(ex, entries, attr);
    aggregate_values(agg.ty, attr, values)
}

/// Runs an aggregation over the values of its attribute.
pub fn aggregate_values(ty: AggregationType, attr: &str, values: Vec<FieldValue>) -> (r: Aggregate)
    ensures
        r@ == aggregated(ty, attr@, views(values@)),
{
    let no_attr: bool = attr.unicode_len() == 0;
    match ty {
        AggregationType::Count => {
            let n: usize = if no_attr {
                values.len()
            } else {
                count_present(&values)
            };
            Aggregate::Value(FieldValue::I64(n as i64))
        },
        AggregationType::Sum => {
            let ns = numbers_of(&values);
            if no_attr || ns.len() == 0 {
                Aggregate::Value(FieldValue::Null)
            } else {
                Aggregate::Sum(ns)
            }
        },
        AggregationType::Avg => {
            let ns = numbers_of(&values);
            if no_attr || ns.len() == 0 {
                Aggregate::Value(FieldValue::Null)
            } else {
                Aggregate::Avg(ns)
            }
        },
        AggregationType::Min => if no_attr {
            Aggregate::Value(FieldValue::Null)
        } else {
            Aggregate::Value(extreme_of(&values, Order::Less))
        },
        AggregationType::Max => if no_attr {
            Aggregate::Value(FieldValue::Null)
        } else {
            Aggregate::Value(extreme_of(&values, Order::Greater))
        },
    }
}

/// The attribute of each entry, in order.
pub fn execute_projection<E: FieldExtractor>(
    attribute_path: &str,
    entries: &[(Vec<u8>, Vec<u8>)],
    ex: &E,
) -> (out: Vec<FieldValue>)
    ensures
        views(out@) == column(*ex, views(entries@), attribute_path@),
{
    column_of(ex, entries, attribute_path)
}

/// The least (or greatest) of values is one of them.
pub proof fn law_extreme_is_one_of_the_values(values: Seq<ValueView>, wanted: Order)
    requires
        values.len() > 0,
    ensures
        values.contains(extreme(values, wanted)),
    decreases values.len(),
{
    let last = values.len() - 1;
    assert(values[last] == values.last());
    if values.len() > 1 {
        let rest = values.drop_last();
        law_extreme_is_one_of_the_values(rest, wanted);
        let i = choose|i: int| 0 <= i < rest.len() && rest[i] == extreme(rest, wanted);
        assert(values[i] == extreme(rest, wanted));
    }
}

/// No value is less than the least, or greater than the greatest, where all values compare with
/// each other.
pub proof fn law_nothing_beats_the_extreme(values: Seq<ValueView>, wanted: Order, i: int)
    requires
        wanted != Order::Equal,
        0 <= i < values.len(),
        forall|a: int, b: int|
            0 <= a < values.len() && 0 <= b < values.len() ==> #[trigger] values[a].compare(
                values[b],
            ) is Some,
    ensures
        values[i].compare(extreme(values, wanted)) != Some(wanted),
    decreases values.len(),
{
    let n = values.len() - 1;
    let rest = values.drop_last();
    let best = extreme(values, wanted);
    law_comparing_flips(values[i], values[i]);
    if values.len() > 1 {
        assert forall|a: int, b: int| 0 <= a < rest.len() && 0 <= b < rest.len() implies
            #[trigger] rest[a].compare(rest[b]) is Some by {
            assert(values[a].compare(values[b]) is Some);
        }
        law_extreme_is_one_of_the_values(rest, wanted);
        let k = choose|k: int| 0 <= k < rest.len() && rest[k] == extreme(rest, wanted);
        let old_best = values[k];
        assert(values[n].compare(values[k]) is Some);
        law_comparing_flips(values[n], old_best);
        if i < n {
            law_nothing_beats_the_extreme(rest, wanted, i);
            assert(rest[i] == values[i]);
            assert(values[i].compare(values[k]) is Some);
            assert(values[i].compare(values[n]) is Some);
            if best == values[n] && values[i].compare(values[n]) == Some(wanted)
                && values[n].compare(old_best) == Some(wanted) {
                law_comparing_is_transitive(values[i], values[n], old_best);
            }
        }
    }
}

/// The numbers of values are those of each value, in order.
pub proof fn law_numbers_are_those_of_each_value(a: Seq<ValueView>, b: Seq<ValueView>, v: ValueView)
    ensures
        numbers(a + b) == numbers(a) + numbers(b),
        v.num() matches Some(n) ==> numbers(seq![v]) == seq![n],
        v.num() is None ==> numbers(seq![v]) == Seq::<NumView>::empty(),
    decreases b.len(),
{
    assert(seq![v].drop_last() =~= Seq::empty());
    assert(numbers(seq![v].drop_last()) =~= Seq::empty());
    if let Some(n) = v.num() {
        assert(numbers(seq![v]) =~= seq![n]);
    }
    if b.len() == 0 {
        assert(a + b =~= a);
        assert(numbers(a) + numbers(b) =~= numbers(a));
    } else {
        law_numbers_are_those_of_each_value(a, b.drop_last(), v);
        assert((a + b).drop_last() =~= a + b.drop_last());
        assert(numbers(a + b) =~= numbers(a) + numbers(b));
    }
}

/// What aggregations come to. COUNT without an attribute counts the entries, with one those whose
/// value is not null. SUM and AVG are over the numbers among the values, MIN and MAX are one of the
/// values that are not null; without such values, or without an attribute, they are null.
pub proof fn law_aggregations(attr: Seq<char>, values: Seq<ValueView>)
    requires
        values.len() <= i64::MAX,
    ensures
        ({
            let null = AggregateView::Value(ValueView::Null);
            let some = values.filter(|v: ValueView| !(v is Null));
            let ns = numbers(values);
            let count = aggregated(AggregationType::Count, attr, values);
            let sum = aggregated(AggregationType::Sum, attr, values);
            let avg = aggregated(AggregationType::Avg, attr, values);
            let least = aggregated(AggregationType::Min, attr, values);
            let greatest = aggregated(AggregationType::Max, attr, values);
            if attr.len() == 0 {
                &&& count == AggregateView::Value(ValueView::I64(values.len() as i64))
                &&& sum == null && avg == null && least == null && greatest == null
            } else {
                &&& count == AggregateView::Value(ValueView::I64(some.len() as i64))
                &&& sum == if ns.len() > 0 {
                    AggregateView::Sum(ns)
                } else {
                    null
                }
                &&& avg == if ns.len() > 0 {
                    AggregateView::Avg(ns)
                } else {
                    null
                }
                &&& some.len() == 0 ==> least == null && greatest == null
                &&& some.len() > 0 ==> (least matches AggregateView::Value(x) && some.contains(x))
                &&& some.len() > 0 ==> (greatest matches AggregateView::Value(x) && some.contains(
                    x,
                ))
                &&& all_comparable(some) ==> forall|i: int|
                    0 <= i < some.len() ==> (#[trigger] some[i]).compare(least->Value_0) != Some(
                        Order::Less,
                    ) && some[i].compare(greatest->Value_0) != Some(Order::Greater)
            }
        }),
{
    let some = values.filter(|v: ValueView| !(v is Null));
    if some.len() > 0 {
        law_extreme_is_one_of_the_values(some, Order::Less);
        law_extreme_is_one_of_the_values(some, Order::Greater);
        if all_comparable(some) {
            assert forall|i: int| 0 <= i < some.len() implies (#[trigger] some[i]).compare(
                extreme(some, Order::Less),
            ) != Some(Order::Less) && some[i].compare(extreme(some, Order::Greater)) != Some(
                Order::Greater,
            ) by {
                law_nothing_beats_the_extreme(some, Order::Less, i);
                law_nothing_beats_the_extreme(some, Order::Greater, i);
            }
        }
    }
}

/// Whether values all compare with each other.
pub open spec fn all_comparable(values: Seq<ValueView>) -> bool {
    forall|a: int, b: int|
        0 <= a < values.len() && 0 <= b < values.len() ==> #[trigger] values[a].compare(
            values[b],
        ) is Some
}

/// The classes of aggregators.
pub proof fn law_classes_of_aggregators(c: i32)
    ensures
        class_type(c) == Some(AggregationType::Count) <==> c == 4,
        class_type(c) == Some(AggregationType::Max) <==> c == 14,
        class_type(c) == Some(AggregationType::Min) <==> c == 15,
        class_type(c) == Some(AggregationType::Sum) <==> c == 1 || c == 3 || 7 <= c <= 9 || c == 11
            || c == 13,
        class_type(c) == Some(AggregationType::Avg) <==> c == 0 || c == 2 || c == 6 || c == 10 || c
            == 12 || c == 16,
        class_type(c) is None <==> c < 0 || c > 16 || c == 5,
{
}

/// The attribute that an aggregator or projection names is read back from behind 17 bytes and a
/// mark: its length, big-endian, and its text. Without the mark there is none, and none where the
/// text is cut.
pub proof fn law_attributes_read_back(
    head: Seq<u8>,
    mark: u8,
    name: Seq<char>,
    rest: Seq<u8>,
    cut: int,
)
    requires
        head.len() == 17,
        encode_utf8(name).len() <= i32::MAX,
    ensures
        ({
            let text = encode_utf8(name);
            let data = head.push(mark) + i32_be(text.len() as i32) + text;
            &&& attribute(data + rest) == if mark != 0 {
                Some(name)
            } else {
                None
            }
            &&& 18 <= cut < data.len() ==> attribute(data.take(cut)) is None
        }),
{
    broadcast use lemma_le_digits_len;

    let text = encode_utf8(name);
    let data = head.push(mark) + i32_be(text.len() as i32) + text;
    let n = i32_le(text.len() as i32);
    lemma_ints_read_back(0, 0, 0, text.len() as i32, 0);
    law_bytes_are_little_endian(0, 1, 0, text.len() as i32, 0);
    lemma_text_reads_back(name);
    assert(data.len() == 22 + text.len());
    assert((data + rest)[17] == mark);
    assert((data + rest).subrange(18, 22).reverse() =~= n);
    assert((data + rest).subrange(22, 22 + text.len() as int) =~= text);
    if 22 <= cut < data.len() {
        assert(data.take(cut).subrange(18, 22).reverse() =~= n);
    }
}

} // verus!
