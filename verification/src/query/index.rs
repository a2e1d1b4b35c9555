//! Indexes over field values, and a planner that answers predicates from them.

use vstd::prelude::*;
use super::predicate::{
    all_hold, bare, compares, holds, order_satisfies, satisfies, Op, Predicate, ProbeView, RowView,
};
use super::value::{
    is_nan, law_comparing_flips, law_comparing_is_transitive, FieldValue, ValueView,
};
use crate::bytes::{copy_slice, same_bytes};
use crate::model::views;
use crate::order::{flipped, int_order, Order};
use crate::table::Table;

verus! {

#[derive(Clone, Copy, Debug, PartialEq, Eq, Structural)]
pub enum IndexType {
    Sorted,
    Hash,
    Bitmap,
}

impl IndexType {
    /// The type of a wire number; an unknown number is a sorted index.
    pub fn from_i32(v: i32) -> (t: IndexType)
        ensures
            t == if v == 1 {
                IndexType::Hash
            } else if v == 2 {
                IndexType::Bitmap
            } else {
                IndexType::Sorted
            },
    {
        match v {
            0 => IndexType::Sorted,
            1 => IndexType::Hash,
            2 => IndexType::Bitmap,
            _ => IndexType::Sorted,
        }
    }
}

#[derive(Clone, Debug, PartialEq, Eq)]
pub struct IndexConfig {
    pub name: Option<String>,
    pub ty: IndexType,
    pub attributes: Vec<String>,
}

/// The place of a kind of value among the others: null, booleans, numbers, not-a-number, text.
pub open spec fn kind_rank(v: ValueView) -> int {
    match v {
        ValueView::Null => 0,
        ValueView::Bool(_) => 1,
        ValueView::I32(_) => 2,
        ValueView::I64(_) => 2,
        ValueView::F64(bits, text) => if is_nan(bits) {
            3
        } else {
            2
        },
        ValueView::Str(_) => 4,
    }
}

/// The order of values in an index: as they compare, and where they do not, by kind.
pub open spec fn index_order(a: ValueView, b: ValueView) -> Order {
    match a.compare(b) {
        Some(o) => o,
        None => int_order(kind_rank(a), kind_rank(b)),
    }
}

fn rank_of(v: &FieldValue) -> (r: u8)
    ensures
        r == kind_rank(v@),
{
    match v {
        FieldValue::Null => 0,
        FieldValue::Bool(_) => 1,
        FieldValue::I32(_) => 2,
        FieldValue::I64(_) => 2,
        FieldValue::F64(d) => {
            let m: u64 = if d.bits >= 0x8000_0000_0000_0000 {
                d.bits - 0x8000_0000_0000_0000
            } else {
                d.bits
            };
            if m > 0x7ff0_0000_0000_0000 {
                3
            } else {
                2
            }
        },
        FieldValue::Str(_) => 4,
    }
}

/// How two values stand in an index.
pub fn order_in_index(a: &FieldValue, b: &FieldValue) -> (o: Order)
    ensures
        o == index_order(a@, b@),
{
    match a.compare(b) {
        Some(o) => o,
        None => {
            let x: u8 = rank_of(a);
            let y: u8 = rank_of(b);
            if x < y {
                Order::Less
            } else if x == y {
                Order::Equal
            } else {
                Order::Greater
            }
        },
    }
}

/// A value and the key of an entry that has it.
pub type Posting = (FieldValue, Vec<u8>);

/// What a [`Posting`] holds.
pub type PostingView = (ValueView, Seq<u8>);

/// An index: each value with the keys of the entries that have it. A sorted index answers every
/// comparison, a hash index equality only.
#[derive(Debug, PartialEq, Eq)]
pub enum Index {
    Sorted(Vec<Posting>),
    Hash(Vec<Posting>),
}

/// What an [`Index`] holds.
pub struct IndexView {
    pub sorted: bool,
    pub postings: Seq<PostingView>,
}

impl View for Index {
    type V = IndexView;

    open spec fn view(&self) -> IndexView {
        match self {
            Index::Sorted(p) => IndexView { sorted: true, postings: views(p@) },
            Index::Hash(p) => IndexView { sorted: false, postings: views(p@) },
        }
    }
}

/// Whether a posting is of this value and key.
pub open spec fn is_posting(p: PostingView, val: ValueView, key: Seq<u8>) -> bool {
    index_order(p.0, val) == Order::Equal && p.1 == key
}

/// Whether there is a posting of this value and key.
pub open spec fn has_posting(ps: Seq<PostingView>, val: ValueView, key: Seq<u8>) -> bool {
    exists|i: int| 0 <= i < ps.len() && is_posting(#[trigger] ps[i], val, key)
}

/// Postings without those of a value and key.
pub open spec fn without_posting(ps: Seq<PostingView>, val: ValueView, key: Seq<u8>) -> Seq<
    PostingView,
> {
    ps.filter(|p: PostingView| !is_posting(p, val, key))
}

impl IndexView {
    /// Nothing is posted twice.
    pub open spec fn wf(self) -> bool {
        forall|i: int, j: int|
            0 <= i < j < self.postings.len() ==> !is_posting(
                #[trigger] self.postings[i],
                (#[trigger] self.postings[j]).0,
                self.postings[j].1,
            )
    }

    /// The keys whose values compare as asked; a hash index knows equality only.
    pub open spec fn found(self, op: Op, val: ValueView) -> Set<Seq<u8>> {
        Set::new(
            |k: Seq<u8>|
                (self.sorted || op == Op::Eq || op == Op::NotEq) && exists|i: int|
                    0 <= i < self.postings.len() && (#[trigger] self.postings[i]).1 == k
                        && satisfies(index_order(self.postings[i].0, val), op),
        )
    }

    /// The keys whose values lie between two others; a hash index has none.
    pub open spec fn found_between(self, from: ValueView, to: ValueView) -> Set<Seq<u8>> {
        Set::new(
            |k: Seq<u8>|
                self.sorted && exists|i: int|
                    0 <= i < self.postings.len() && (#[trigger] self.postings[i]).1 == k
                        && index_order(self.postings[i].0, from) != Order::Less && index_order(
                        self.postings[i].0,
                        to,
                    ) != Order::Greater,
        )
    }
}

fn is_posting_of(p: &Posting, val: &FieldValue, key: &[u8]) -> (b: bool)
    ensures
        b == is_posting(p@, val@, key@),
{
    order_in_index(&p.0, val) == Order::Equal && same_bytes(p.1.as_slice(), key)
}

fn post(ps: &mut Vec<Posting>, val: FieldValue, key: Vec<u8>)
    ensures
        views(final(ps)@) == if has_posting(views(old(ps)@), val@, key@) {
            views(old(ps)@)
        } else {
            views(old(ps)@).push((val@, key@))
        },
{
    let ghost before = views(ps@);
    let mut i: usize = 0;
    while i < ps.len()
        invariant
            i <= ps@.len(),
            before == views(ps@),
            before == views(old(ps)@),
            forall|j: int| 0 <= j < i ==> !is_posting(#[trigger] before[j], val@, key@),
        decreases ps@.len() - i,
    {
        assert(before[i as int] == ps@[i as int]@);
        if is_posting_of(&ps[i], &val, key.as_slice()) {
            return ;
        }
        i = i + 1;
    }
    ps.push((val, key));
    assert(views(ps@) =~= before.push((val@, key@)));
}

fn unpost(ps: &mut Vec<Posting>, val: &FieldValue, key: &[u8])
    ensures
        views(final(ps)@) == without_posting(views(old(ps)@), val@, key@),
{
    let ghost before = views(ps@);
    let ghost keep = |p: PostingView| !is_posting(p, val@, key@);
    let ghost mut n: int = 0;
    let mut i: usize = 0;
    assert(before.take(0).filter(keep) =~= Seq::empty()) by {
        reveal(Seq::filter);
    }
    assert(views(ps@) =~= before.take(0).filter(keep) + before.skip(0));
    while i < ps.len()
        invariant
            0 <= n <= before.len(),
            i == before.take(n).filter(keep).len(),
            keep == (|p: PostingView| !is_posting(p, val@, key@)),
            views(ps@) == before.take(n).filter(keep) + before.skip(n),
        decreases before.len() - n,
    {
        assert(views(ps@)[i as int] == before[n]);
        assert(ps@[i as int]@ == before[n]);
        assert(before.take(n + 1).drop_last() =~= before.take(n));
        assert(before.take(n + 1).filter(keep) == if keep(before[n]) {
            before.take(n).filter(keep).push(before[n])
        } else {
            before.take(n).filter(keep)
        }) by {
            reveal(Seq::filter);
        }
        let ghost now = views(ps@);
        if is_posting_of(&ps[i], val, key) {
            ps.remove(i);
            assert(views(ps@) =~= now.remove(i as int));
        } else {
            i = i + 1;
        }
        assert(views(ps@) =~= before.take(n + 1).filter(keep) + before.skip(n + 1));
        proof {
            n = n + 1;
        }
    }
    assert(ps@.len() == views(ps@).len());
    assert(before.skip(n).len() == 0);
    assert(before.take(n) =~= before);
    assert(views(ps@) =~= before.filter(keep));
}

/// Adds a key unless it is there.
fn push_new(out: &mut Vec<Vec<u8>>, key: &[u8])
    requires
        views(old(out)@).no_duplicates(),
    ensures
        views(final(out)@).no_duplicates(),
        views(final(out)@).to_set() == views(old(out)@).to_set().insert(key@),
{
    let ghost before = views(out@);
    let mut i: usize = 0;
    while i < out.len()
        invariant
            i <= out@.len(),
            before == views(out@),
            before == views(old(out)@),
            before.no_duplicates(),
            forall|j: int| 0 <= j < i ==> #[trigger] before[j] != key@,
        decreases out@.len() - i,
    {
        assert(before[i as int] == out@[i as int]@);
        if same_bytes(out[i].as_slice(), key) {
            assert(before.contains(key@));
            assert(before.to_set().insert(key@) =~= before.to_set());
            return ;
        }
        i = i + 1;
    }
    out.push(copy_slice(key));
    assert(views(out@) =~= before.push(key@));
    assert(views(out@).to_set() =~= before.to_set().insert(key@)) by {
        let now = views(out@);
        assert forall|k: Seq<u8>| now.contains(k) == (before.contains(k) || k == key@) by {
            if before.contains(k) {
                let j = choose|j: int| 0 <= j < before.len() && before[j] == k;
                assert(now[j] == k);
            }
            if k == key@ {
                assert(now[before.len() as int] == k);
            }
        }
    }
}

/// The keys of the first `n` postings for which `f` holds.
spec fn keys_where(ps: Seq<PostingView>, n: int, f: spec_fn(ValueView) -> bool) -> Set<Seq<u8>> {
    Set::new(
        |k: Seq<u8>| exists|i: int|
            0 <= i < n && (#[trigger] ps[i]).1 == k && f(ps[i].0),
    )
}

proof fn lemma_keys_where(ps: Seq<PostingView>, n: int, f: spec_fn(ValueView) -> bool)
    requires
        0 <= n < ps.len(),
    ensures
        keys_where(ps, n + 1, f) == if f(ps[n].0) {
            keys_where(ps, n, f).insert(ps[n].1)
        } else {
            keys_where(ps, n, f)
        },
{
    let after = keys_where(ps, n + 1, f);
    let before = keys_where(ps, n, f);
    assert forall|k: Seq<u8>| after.contains(k) == (before.contains(k) || (f(ps[n].0) && k
        == ps[n].1)) by {
        if after.contains(k) {
            let i = choose|i: int| 0 <= i < n + 1 && (#[trigger] ps[i]).1 == k && f(ps[i].0);
            assert(i < n ==> before.contains(k));
        }
        if before.contains(k) {
            let i = choose|i: int| 0 <= i < n && (#[trigger] ps[i]).1 == k && f(ps[i].0);
            assert(0 <= i < n + 1);
        }
    }
    if f(ps[n].0) {
        assert(after =~= before.insert(ps[n].1));
    } else {
        assert(after =~= before);
    }
}

impl Index {
    pub fn new(ty: IndexType) -> (x: Index)
        ensures
            x@.sorted == (ty == IndexType::Sorted),
            x@.postings == Seq::<PostingView>::empty(),
            x@.wf(),
    {
        let none: Vec<Posting> = Vec::new();
        assert(views(none@) =~= Seq::empty());
        match ty {
            IndexType::Sorted => Index::Sorted(none),
            IndexType::Hash => Index::Hash(none),
            IndexType::Bitmap => Index::Hash(none),
        }
    }

    /// Posts a key under a value; what is posted already stays as it is.
    pub fn insert(&mut self, val: FieldValue, key: Vec<u8>)
        requires
            old(self)@.wf(),
        ensures
            final(self)@.wf(),
            final(self)@.sorted == old(self)@.sorted,
            final(self)@.postings == if has_posting(old(self)@.postings, val@, key@) {
                old(self)@.postings
            } else {
                old(self)@.postings.push((val@, key@))
            },
    {
        proof {
            if !has_posting(self@.postings, val@, key@) {
                lemma_push_keeps_wf(self@, val@, key@);
            }
        }
        match self {
            Index::Sorted(ps) => post(ps, val, key),
            Index::Hash(ps) => post(ps, val, key),
        }
    }

    /// Takes back the posting of a key under a value.
    pub fn remove(&mut self, val: &FieldValue, key: &[u8])
        requires
            old(self)@.wf(),
        ensures
            final(self)@.wf(),
            final(self)@.sorted == old(self)@.sorted,
            final(self)@.postings == without_posting(old(self)@.postings, val@, key@),
    {
        proof {
            lemma_filter_keeps_wf(self@, val@, key@);
        }
        match self {
            Index::Sorted(ps) => unpost(ps, val, key),
            Index::Hash(ps) => unpost(ps, val, key),
        }
    }

    fn postings(&self) -> (ps: &Vec<Posting>)
        ensures
            views(ps@) == self@.postings,
    {
        match self {
            Index::Sorted(ps) => ps,
            Index::Hash(ps) => ps,
        }
    }

    pub fn is_sorted(&self) -> (b: bool)
        ensures
            b == self@.sorted,
    {
        match self {
            Index::Sorted(_) => true,
            Index::Hash(_) => false,
        }
    }

    /// The keys whose values compare with `val` as asked, each once.
    pub fn query(&self, op: Op, val: &FieldValue) -> (out: Vec<Vec<u8>>)
        ensures
            views(out@).no_duplicates(),
            views(out@).to_set() == self@.found(op, val@),
    {
        let mut out: Vec<Vec<u8>> = Vec::new();
        assert(views(out@) =~= Seq::empty());
        let ghost f = |v: ValueView| satisfies(index_order(v, val@), op);
        let ps = self.postings();
        let ghost all = self@.postings;
        if !(self.is_sorted() || op == Op::Eq || op == Op::NotEq) {
            assert(views(out@).to_set() =~= self@.found(op, val@));
            return out;
        }
        let mut i: usize = 0;
        assert(views(out@).to_set() =~= keys_where(all, 0, f));
        while i < ps.len()
            invariant
                i <= ps@.len(),
                all == views(ps@),
                f == (|v: ValueView| satisfies(index_order(v, val@), op)),
                views(out@).no_duplicates(),
                views(out@).to_set() == keys_where(all, i as int, f),
            decreases ps@.len() - i,
        {
            let p = &ps[i];
            assert(all[i as int] == p@);
            proof {
                lemma_keys_where(all, i as int, f);
            }
            if order_satisfies(order_in_index(&p.0, val), op) {
                push_new(&mut out, p.1.as_slice());
            }
            i = i + 1;
        }
        assert(keys_where(all, all.len() as int, f) =~= self@.found(op, val@));
        out
    }

    /// The keys whose values lie between two others, each once.
    pub fn query_between(&self, from: &FieldValue, to: &FieldValue) -> (out: Vec<Vec<u8>>)
        ensures
            views(out@).no_duplicates(),
            views(out@).to_set() == self@.found_between(from@, to@),
    {
        let mut out: Vec<Vec<u8>> = Vec::new();
        assert(views(out@) =~= Seq::empty());
        let ghost f = |v: ValueView|
            index_order(v, from@) != Order::Less && index_order(v, to@) != Order::Greater;
        let ps = self.postings();
        let ghost all = self@.postings;
        if !self.is_sorted() {
            assert(views(out@).to_set() =~= self@.found_between(from@, to@));
            return out;
        }
        let mut i: usize = 0;
        assert(views(out@).to_set() =~= keys_where(all, 0, f));
        while i < ps.len()
            invariant
                i <= ps@.len(),
                all == views(ps@),
                f == (|v: ValueView|
                    index_order(v, from@) != Order::Less && index_order(v, to@) != Order::Greater),
                views(out@).no_duplicates(),
                views(out@).to_set() == keys_where(all, i as int, f),
            decreases ps@.len() - i,
        {
            let p = &ps[i];
            assert(all[i as int] == p@);
            proof {
                lemma_keys_where(all, i as int, f);
            }
            if order_in_index(&p.0, from) != Order::Less && order_in_index(&p.0, to)
                != Order::Greater {
                push_new(&mut out, p.1.as_slice());
            }
            i = i + 1;
        }
        assert(keys_where(all, all.len() as int, f) =~= self@.found_between(from@, to@));
        out
    }
}

proof fn lemma_push_keeps_wf(x: IndexView, val: ValueView, key: Seq<u8>)
    requires
        x.wf(),
        !has_posting(x.postings, val, key),
    ensures
        (IndexView { sorted: x.sorted, postings: x.postings.push((val, key)) }).wf(),
{
    let now = x.postings.push((val, key));
    assert forall|i: int, j: int| 0 <= i < j < now.len() implies !is_posting(
        #[trigger] now[i],
        (#[trigger] now[j]).0,
        now[j].1,
    ) by {
        assert(now[i] == x.postings[i]);
        if j < x.postings.len() {
            assert(now[j] == x.postings[j]);
        }
    }
}

proof fn lemma_filter_keeps_wf(x: IndexView, val: ValueView, key: Seq<u8>)
    requires
        x.wf(),
    ensures
        (IndexView { sorted: x.sorted, postings: without_posting(x.postings, val, key) }).wf(),
    decreases x.postings.len(),
{
    reveal(Seq::filter);
    let ps = x.postings;
    if ps.len() > 0 {
        let rest = IndexView { sorted: x.sorted, postings: ps.drop_last() };
        assert(rest.wf());
        lemma_filter_keeps_wf(rest, val, key);
        let kept = without_posting(rest.postings, val, key);
        lemma_filter_members(rest.postings, val, key);
        let now = without_posting(ps, val, key);
        if !is_posting(ps.last(), val, key) {
            assert(now == kept.push(ps.last()));
            assert forall|i: int, j: int| 0 <= i < j < now.len() implies !is_posting(
                #[trigger] now[i],
                (#[trigger] now[j]).0,
                now[j].1,
            ) by {
                if j == kept.len() {
                    assert(now[i] == kept[i]);
                    assert(kept.contains(kept[i]));
                    let a = choose|a: int| 0 <= a < rest.postings.len() && rest.postings[a]
                        == kept[i];
                    let last = ps.len() - 1;
                    assert(ps[a] == kept[i]);
                    assert(ps[last] == now[j]);
                    assert(!is_posting(x.postings[a], x.postings[last].0, x.postings[last].1));
                } else {
                    let old_view = IndexView { sorted: x.sorted, postings: kept };
                    assert(now[i] == kept[i] && now[j] == kept[j]);
                    assert(old_view.wf());
                    assert(!is_posting(
                        old_view.postings[i],
                        old_view.postings[j].0,
                        old_view.postings[j].1,
                    ));
                }
            }
        } else {
            assert(now == kept);
        }
    }
}

/// What is kept was there and is no posting of the value and key.
proof fn lemma_filter_members(ps: Seq<PostingView>, val: ValueView, key: Seq<u8>)
    ensures
        forall|p: PostingView| #[trigger]
            without_posting(ps, val, key).contains(p) == (ps.contains(p) && !is_posting(
                p,
                val,
                key,
            )),
    decreases ps.len(),
{
    reveal(Seq::filter);
    if ps.len() > 0 {
        lemma_filter_members(ps.drop_last(), val, key);
        let kept = without_posting(ps.drop_last(), val, key);
        let now = without_posting(ps, val, key);
        assert forall|p: PostingView| #[trigger] now.contains(p) == (ps.contains(p) && !is_posting(
            p,
            val,
            key,
        )) by {
            assert(ps =~= ps.drop_last().push(ps.last()));
            vstd::seq_lib::lemma_seq_contains_after_push(ps.drop_last(), ps.last(), p);
            vstd::seq_lib::lemma_seq_contains_after_push(kept, ps.last(), p);
        }
    }
}

/// What the planner resolves a predicate to: the keys that an index finds for a comparison, a
/// range or a list of values, or the first resolved one of several predicates that are all to
/// hold; none if no index applies.
pub open spec fn resolved(p: Predicate, indexes: Map<Seq<char>, IndexView>) -> Option<
    Set<Seq<u8>>,
>
    decreases p,
{
    match p {
        Predicate::Compare { field, op, value } => if indexes.contains_key(field@) && (op == Op::Eq
            || op == Op::NotEq || indexes[field@].sorted) {
            Some(indexes[field@].found(op, value@))
        } else {
            None
        },
        Predicate::Between { field, from, to } => if indexes.contains_key(field@)
            && indexes[field@].sorted {
            Some(indexes[field@].found_between(from@, to@))
        } else {
            None
        },
        Predicate::In { field, values } => if indexes.contains_key(field@) {
            Some(found_among(indexes[field@], views(values@), values@.len() as int))
        } else {
            None
        },
        Predicate::And(ps) => first_resolved(ps, 0, indexes),
        _ => None,
    }
}

/// The keys whose value equals one of the first `n` values.
pub open spec fn found_among(index: IndexView, values: Seq<ValueView>, n: int) -> Set<Seq<u8>> {
    Set::new(
        |k: Seq<u8>| exists|j: int|
            0 <= j < n && index.found(Op::Eq, #[trigger] values[j]).contains(k),
    )
}

/// What the first predicate from `from` on that an index applies to is resolved to.
pub open spec fn first_resolved(
    ps: Vec<Predicate>,
    from: nat,
    indexes: Map<Seq<char>, IndexView>,
) -> Option<Set<Seq<u8>>>
    decreases ps, ps@.len() - from,
    via first_resolved_decreases
{
    if from >= ps@.len() {
        None
    } else {
        match resolved(ps[from as int], indexes) {
            Some(keys) => Some(keys),
            None => first_resolved(ps, from + 1, indexes),
        }
    }
}

#[via_fn]
proof fn first_resolved_decreases(
    ps: Vec<Predicate>,
    from: nat,
    indexes: Map<Seq<char>, IndexView>,
) {
    broadcast use vstd::std_specs::vec::axiom_vec_index_decreases;

    if from < ps@.len() {
        assert(decreases_to!(ps => ps[from as int]));
    }
}

fn query_all(index: &Index, values: &Vec<FieldValue>) -> (out: Vec<Vec<u8>>)
    ensures
        views(out@).no_duplicates(),
        views(out@).to_set() == found_among(index@, views(values@), values@.len() as int),
{
    let mut out: Vec<Vec<u8>> = Vec::new();
    let ghost vals = views(values@);
    let mut i: usize = 0;
    assert(views(out@) =~= Seq::empty());
    assert(views(out@).to_set() =~= found_among(index@, vals, 0));
    while i < values.len()
        invariant
            i <= values@.len(),
            vals == views(values@),
            views(out@).no_duplicates(),
            views(out@).to_set() == found_among(index@, vals, i as int),
        decreases values@.len() - i,
    {
        assert(vals[i as int] == values@[i as int]@);
        let keys = index.query(Op::Eq, &values[i]);
        let ghost before = views(out@).to_set();
        let ghost ks = views(keys@);
        let mut j: usize = 0;
        assert(ks.take(0).to_set() =~= Set::empty());
        assert(before.union(ks.take(0).to_set()) =~= before);
        while j < keys.len()
            invariant
                j <= keys@.len(),
                ks == views(keys@),
                views(out@).no_duplicates(),
                views(out@).to_set() == before.union(ks.take(j as int).to_set()),
            decreases keys@.len() - j,
        {
            assert(ks[j as int] == keys@[j as int]@);
            push_new(&mut out, keys[j].as_slice());
            assert(ks.take(j + 1) =~= ks.take(j as int).push(ks[j as int]));
            assert forall|k: Seq<u8>| #[trigger] ks.take(j + 1).to_set().contains(k) == (ks.take(
                j as int,
            ).to_set().contains(k) || k == ks[j as int]) by {
                vstd::seq_lib::lemma_seq_contains_after_push(ks.take(j as int), ks[j as int], k);
            }
            assert(views(out@).to_set() =~= before.union(ks.take(j + 1).to_set()));
            j = j + 1;
        }
        assert(ks.take(j as int) =~= ks);
        assert(before.union(ks.to_set()) =~= found_among(index@, vals, i + 1)) by {
            let after = found_among(index@, vals, i + 1);
            assert forall|k: Seq<u8>| after.contains(k) == (before.contains(k)
                || ks.to_set().contains(k)) by {
                if after.contains(k) {
                    let a = choose|a: int|
                        0 <= a < i + 1 && index@.found(Op::Eq, #[trigger] vals[a]).contains(k);
                    assert(a < i ==> before.contains(k));
                }
                if before.contains(k) {
                    let a = choose|a: int|
                        0 <= a < i && index@.found(Op::Eq, #[trigger] vals[a]).contains(k);
                    assert(0 <= a < i + 1);
                }
                if ks.to_set().contains(k) {
                    assert(index@.found(Op::Eq, vals[i as int]).contains(k));
                }
            }
        }
        i = i + 1;
    }
    out
}

/// Answers a predicate from the indexes, or says that none applies.
pub fn plan_and_resolve(predicate: &Predicate, indexes: &Table<String, Index>) -> (r: Option<
    Vec<Vec<u8>>,
>)
    ensures
        match r {
            Some(keys) => views(keys@).no_duplicates() && resolved(*predicate, indexes@) == Some(
                views(keys@).to_set(),
            ),
            None => resolved(*predicate, indexes@) is None,
        },
    decreases predicate,
{
    match predicate {
        Predicate::Compare { field, op, value } => match indexes.get(field) {
            Some(index) => if *op == Op::Eq || *op == Op::NotEq || index.is_sorted() {
                Some(index.query(*op, value))
            } else {
                None
            },
            None => None,
        },
        Predicate::Between { field, from, to } => match indexes.get(field) {
            Some(index) => if index.is_sorted() {
                Some(index.query_between(from, to))
            } else {
                None
            },
            None => None,
        },
        Predicate::In { field, values } => match indexes.get(field) {
            Some(index) => Some(query_all(index, values)),
            None => None,
        },
        Predicate::And(ps) => {
            let mut i: usize = 0;
            assert(decreases_to!(*predicate => predicate->And_0));
            while i < ps.len()
                invariant
                    i <= ps@.len(),
                    *predicate is And,
                    *ps == predicate->And_0,
                    first_resolved(*ps, 0, indexes@) == first_resolved(*ps, i as nat, indexes@),
                    decreases_to!(*predicate => *ps),
                decreases ps@.len() - i,
            {
                broadcast use vstd::std_specs::vec::axiom_vec_index_decreases;

                assert(decreases_to!(*ps => ps[i as int]));
                assert(decreases_to!(*predicate => ps[i as int]));
                match plan_and_resolve(&ps[i], indexes) {
                    Some(keys) => {
                        return Some(keys);
                    },
                    None => {},
                }
                i = i + 1;
            }
            None
        },
        _ => None,
    }
}

/// Values that compare stand in an index as they compare: an index finds what a scan would.
pub proof fn law_index_order_extends_comparing(v: ValueView, op: Op, val: ValueView)
    ensures
        compares(Some(v), op, val) ==> satisfies(index_order(v, val), op),
        v.compare(val) is Some ==> satisfies(index_order(v, val), op) == compares(
            Some(v),
            op,
            val,
        ),
{
}

/// The order of an index is total: of two values one comes first or they are equal, whichever
/// way they are put, and it is transitive.
pub proof fn law_index_order_is_total(a: ValueView, b: ValueView, c: ValueView)
    ensures
        index_order(a, a) == Order::Equal,
        index_order(b, a) == flipped(index_order(a, b)),
        index_order(a, b) != Order::Greater && index_order(b, c) != Order::Greater ==> index_order(
            a,
            c,
        ) != Order::Greater,
{
    law_comparing_flips(a, a);
    law_comparing_flips(a, b);
    if a.compare(b) is Some && b.compare(c) is Some && (a.compare(b) == b.compare(c) || a.compare(b)
        == Some(Order::Equal) || b.compare(c) == Some(Order::Equal)) {
        law_comparing_is_transitive(a, b, c);
    }
}

/// Taking back what was just posted leaves the index as it was.
pub proof fn law_removing_undoes_inserting(ps: Seq<PostingView>, val: ValueView, key: Seq<u8>)
    requires
        !has_posting(ps, val, key),
    ensures
        without_posting(ps.push((val, key)), val, key) == ps,
{
    law_index_order_is_total(val, val, val);
    lemma_nothing_to_drop(ps, val, key);
    reveal(Seq::filter);
    assert(ps.push((val, key)).drop_last() =~= ps);
}

proof fn lemma_nothing_to_drop(ps: Seq<PostingView>, val: ValueView, key: Seq<u8>)
    requires
        !has_posting(ps, val, key),
    ensures
        without_posting(ps, val, key) == ps,
    decreases ps.len(),
{
    reveal(Seq::filter);
    if ps.len() > 0 {
        let rest = ps.drop_last();
        assert forall|i: int| 0 <= i < rest.len() implies !is_posting(
            #[trigger] rest[i],
            val,
            key,
        ) by {
            assert(ps[i] == rest[i]);
        }
        lemma_nothing_to_drop(rest, val, key);
        assert(!is_posting(ps[ps.len() - 1], val, key));
        assert(rest.push(ps.last()) =~= ps);
    } else {
        assert(without_posting(ps, val, key) =~= ps);
    }
}

/// A key that was posted under a value is found under it, and one that was taken back is not.
pub proof fn law_postings_are_found(x: IndexView, val: ValueView, key: Seq<u8>)
    ensures
        (IndexView { sorted: x.sorted, postings: x.postings.push((val, key)) }).found(
            Op::Eq,
            val,
        ).contains(key),
        !(IndexView {
            sorted: x.sorted,
            postings: without_posting(x.postings, val, key),
        }).found(Op::Eq, val).contains(key),
{
    law_index_order_is_total(val, val, val);
    let more = x.postings.push((val, key));
    assert(more[x.postings.len() as int] == (val, key));
    lemma_filter_members(x.postings, val, key);
    let less = without_posting(x.postings, val, key);
    assert forall|i: int| 0 <= i < less.len() implies !is_posting(#[trigger] less[i], val, key) by {
        assert(less.contains(less[i]));
    }
}

/// Whether the indexes know an entry: each has posted the entry's key under the value of its
/// field, where the entry has that field.
pub open spec fn indexed(
    indexes: Map<Seq<char>, IndexView>,
    row: RowView,
    key: Seq<u8>,
) -> bool {
    forall|name: Seq<char>| #[trigger]
        indexes.contains_key(name) ==> match row(bare(name)) {
            Some(v) => has_posting(indexes[name].postings, v, key),
            None => true,
        }
}

/// The planner misses nothing: the key of every indexed entry for which the predicate holds is
/// among the resolved keys.
pub proof fn law_planner_misses_nothing(
    p: Predicate,
    indexes: Map<Seq<char>, IndexView>,
    row: RowView,
    probes: Seq<ProbeView>,
    key: Seq<u8>,
)
    requires
        indexed(indexes, row, key),
        holds(p, row, probes),
    ensures
        resolved(p, indexes) matches Some(keys) ==> keys.contains(key),
    decreases p,
{
    match p {
        Predicate::Compare { field, op, value } => {
            if resolved(p, indexes) is Some {
                let x = indexes[field@];
                let v = row(bare(field@))->0;
                assert(has_posting(x.postings, v, key));
                let i = choose|i: int|
                    0 <= i < x.postings.len() && is_posting(#[trigger] x.postings[i], v, key);
                lemma_order_of_equals(x.postings[i].0, v, value@);
            }
        },
        Predicate::Between { field, from, to } => {
            if resolved(p, indexes) is Some {
                let x = indexes[field@];
                let v = row(bare(field@))->0;
                assert(has_posting(x.postings, v, key));
                let i = choose|i: int|
                    0 <= i < x.postings.len() && is_posting(#[trigger] x.postings[i], v, key);
                lemma_order_of_equals(x.postings[i].0, v, from@);
                lemma_order_of_equals(x.postings[i].0, v, to@);
            }
        },
        Predicate::In { field, values } => {
            if resolved(p, indexes) is Some {
                let x = indexes[field@];
                let v = row(bare(field@))->0;
                let vals = views(values@);
                assert(has_posting(x.postings, v, key));
                let i = choose|i: int|
                    0 <= i < x.postings.len() && is_posting(#[trigger] x.postings[i], v, key);
                let j = choose|j: int|
                    0 <= j < vals.len() && v.compare(#[trigger] vals[j]) == Some(Order::Equal);
                lemma_order_of_equals(x.postings[i].0, v, vals[j]);
                assert(x.found(Op::Eq, vals[j]).contains(key));
            }
        },
        Predicate::And(ps) => {
            lemma_first_resolved(ps, 0, indexes, row, probes, key);
        },
        _ => {},
    }
}

/// Values that are equal in an index stand alike to every other.
proof fn lemma_order_of_equals(a: ValueView, v: ValueView, w: ValueView)
    requires
        index_order(a, v) == Order::Equal,
    ensures
        index_order(a, w) == index_order(v, w),
{
    law_comparing_flips(a, v);
    law_comparing_flips(v, w);
    law_comparing_flips(a, w);
    if a.compare(v) is Some && v.compare(w) is Some {
        law_comparing_is_transitive(a, v, w);
    }
}

proof fn lemma_first_resolved(
    ps: Vec<Predicate>,
    from: nat,
    indexes: Map<Seq<char>, IndexView>,
    row: RowView,
    probes: Seq<ProbeView>,
    key: Seq<u8>,
)
    requires
        indexed(indexes, row, key),
        all_hold(ps, ps@.len(), row, probes),
    ensures
        first_resolved(ps, from, indexes) matches Some(keys) ==> keys.contains(key),
    decreases ps, ps@.len() - from,
{
    broadcast use vstd::std_specs::vec::axiom_vec_index_decreases;

    if from < ps@.len() {
        assert(decreases_to!(ps => ps[from as int]));
        lemma_all_hold_at(ps, ps@.len(), from as int, row, probes);
        law_planner_misses_nothing(ps[from as int], indexes, row, probes, key);
        lemma_first_resolved(ps, from + 1, indexes, row, probes, key);
    }
}

proof fn lemma_all_hold_at(
    ps: Vec<Predicate>,
    n: nat,
    i: int,
    row: RowView,
    probes: Seq<ProbeView>,
)
    requires
        all_hold(ps, n, row, probes),
        0 <= i < n <= ps@.len(),
    ensures
        holds(ps[i], row, probes),
    decreases n,
{
    if i < n - 1 {
        lemma_all_hold_at(ps, (n - 1) as nat, i, row, probes);
    }
}

/// Where all values of an index compare with the one asked for, a key is found exactly if it is
/// posted under a value that compares as asked; a hash index finds for equality and its contrary
/// only.
pub proof fn law_indexes_answer_comparisons(x: IndexView, op: Op, val: ValueView, k: Seq<u8>)
    requires
        forall|i: int| 0 <= i < x.postings.len() ==> (#[trigger] x.postings[i]).0.compare(val) is Some,
    ensures
        (x.sorted || op == Op::Eq || op == Op::NotEq) ==> (x.found(op, val).contains(k) <==> exists|
            i: int,
        |
            0 <= i < x.postings.len() && (#[trigger] x.postings[i]).1 == k && compares(
                Some(x.postings[i].0),
                op,
                val,
            )),
        !(x.sorted || op == Op::Eq || op == Op::NotEq) ==> !x.found(op, val).contains(k),
{
    if x.found(op, val).contains(k) {
        let i = choose|i: int|
            0 <= i < x.postings.len() && (#[trigger] x.postings[i]).1 == k && satisfies(
                index_order(x.postings[i].0, val),
                op,
            );
        assert(x.postings[i].0.compare(val) is Some);
        assert(compares(Some(x.postings[i].0), op, val));
    }
    if exists|i: int|
        0 <= i < x.postings.len() && (#[trigger] x.postings[i]).1 == k && compares(
            Some(x.postings[i].0),
            op,
            val,
        ) {
        let i = choose|i: int|
            0 <= i < x.postings.len() && (#[trigger] x.postings[i]).1 == k && compares(
                Some(x.postings[i].0),
                op,
                val,
            );
        law_index_order_extends_comparing(x.postings[i].0, op, val);
        assert(satisfies(index_order(x.postings[i].0, val), op));
    }
}

/// A sorted index finds between two bounds exactly the keys that are posted under one value that
/// it would find for at least the one and for at most the other.
pub proof fn law_indexes_answer_ranges(x: IndexView, from: ValueView, to: ValueView, k: Seq<u8>)
    ensures
        x.found_between(from, to).contains(k) <==> x.sorted && exists|i: int|
            {
                let one = IndexView { sorted: true, postings: seq![#[trigger] x.postings[i]] };
                &&& 0 <= i < x.postings.len()
                &&& one.found(Op::Ge, from).contains(k)
                &&& one.found(Op::Le, to).contains(k)
            },
{
    if x.found_between(from, to).contains(k) {
        let i = choose|i: int|
            0 <= i < x.postings.len() && (#[trigger] x.postings[i]).1 == k && index_order(
                x.postings[i].0,
                from,
            ) != Order::Less && index_order(x.postings[i].0, to) != Order::Greater;
        let one = IndexView { sorted: true, postings: seq![x.postings[i]] };
        assert(one.postings[0] == x.postings[i]);
        assert(one.found(Op::Ge, from).contains(k) && one.found(Op::Le, to).contains(k));
    }
    if x.sorted && exists|i: int|
        {
            let one = IndexView { sorted: true, postings: seq![#[trigger] x.postings[i]] };
            &&& 0 <= i < x.postings.len()
            &&& one.found(Op::Ge, from).contains(k)
            &&& one.found(Op::Le, to).contains(k)
        } {
        let i = choose|i: int|
            {
                let one = IndexView { sorted: true, postings: seq![#[trigger] x.postings[i]] };
                &&& 0 <= i < x.postings.len()
                &&& one.found(Op::Ge, from).contains(k)
                &&& one.found(Op::Le, to).contains(k)
            };
        let one = IndexView { sorted: true, postings: seq![x.postings[i]] };
        let a = choose|a: int|
            0 <= a < one.postings.len() && (#[trigger] one.postings[a]).1 == k && satisfies(
                index_order(one.postings[a].0, from),
                Op::Ge,
            );
        let b = choose|b: int|
            0 <= b < one.postings.len() && (#[trigger] one.postings[b]).1 == k && satisfies(
                index_order(one.postings[b].0, to),
                Op::Le,
            );
        assert(one.postings[a] == x.postings[i] && one.postings[b] == x.postings[i]);
    }
}

/// What the planner resolves: a comparison and a range over a field by what its index finds, where
/// its index can; a list of values by what the index finds for one of them; a conjunction by its
/// first part that an index resolves; nothing else.
pub proof fn law_plans_come_from_indexes(
    field: String,
    op: Op,
    value: FieldValue,
    to: FieldValue,
    values: Vec<FieldValue>,
    p: Predicate,
    indexes: Map<Seq<char>, IndexView>,
    k: Seq<u8>,
)
    ensures
        ({
            let x = indexes[field@];
            let known = indexes.contains_key(field@);
            &&& resolved(Predicate::Compare { field, op, value }, indexes) == if known && (x.sorted
                || op == Op::Eq || op == Op::NotEq) {
                Some(x.found(op, value@))
            } else {
                None
            }
            &&& resolved(Predicate::Between { field, from: value, to }, indexes) == if known
                && x.sorted {
                Some(x.found_between(value@, to@))
            } else {
                None
            }
            &&& resolved(Predicate::In { field, values }, indexes) is Some <==> known
            &&& known ==> (resolved(Predicate::In { field, values }, indexes)->0.contains(k)
                <==> exists|i: int|
                0 <= i < values@.len() && x.found(Op::Eq, (#[trigger] values@[i])@).contains(k))
        }),
        !(p is Compare || p is Between || p is In || p is And) ==> resolved(p, indexes) is None,
{
    if indexes.contains_key(field@) {
        let x = indexes[field@];
        let all = views(values@);
        let keys = resolved(Predicate::In { field, values }, indexes)->0;
        if keys.contains(k) {
            let j = choose|j: int|
                0 <= j < all.len() && x.found(Op::Eq, #[trigger] all[j]).contains(k);
            assert(all[j] == values@[j]@);
        }
        if exists|i: int|
            0 <= i < values@.len() && x.found(Op::Eq, (#[trigger] values@[i])@).contains(k) {
            let i = choose|i: int|
                0 <= i < values@.len() && x.found(Op::Eq, (#[trigger] values@[i])@).contains(k);
            assert(all[i] == values@[i]@);
        }
    }
}

/// A conjunction is resolved by its first part that an index resolves.
pub proof fn law_conjunctions_take_the_first_plan(
    ps: Vec<Predicate>,
    indexes: Map<Seq<char>, IndexView>,
    n: int,
)
    requires
        0 <= n <= ps@.len(),
        forall|i: int| 0 <= i < n ==> resolved(#[trigger] ps@[i], indexes) is None,
        n < ps@.len() ==> resolved(ps@[n], indexes) is Some,
    ensures
        resolved(Predicate::And(ps), indexes) == if n < ps@.len() {
            resolved(ps@[n], indexes)
        } else {
            None
        },
{
    lemma_first_plan(ps, indexes, 0, n);
}

proof fn lemma_first_plan(
    ps: Vec<Predicate>,
    indexes: Map<Seq<char>, IndexView>,
    from: nat,
    n: int,
)
    requires
        from <= n <= ps@.len(),
        forall|i: int| 0 <= i < n ==> resolved(#[trigger] ps@[i], indexes) is None,
        n < ps@.len() ==> resolved(ps@[n], indexes) is Some,
    ensures
        first_resolved(ps, from, indexes) == if n < ps@.len() {
            resolved(ps@[n], indexes)
        } else {
            None
        },
    decreases n - from,
{
    if from < n {
        assert(ps[from as int] == ps@[from as int]);
        assert(resolved(ps@[from as int], indexes) is None);
        lemma_first_plan(ps, indexes, from + 1, n);
    } else if n < ps@.len() {
        assert(ps[n] == ps@[n]);
    }
}

/// In an index, nulls stand before booleans, those before numbers, those before doubles that are
/// no number, and those before texts.
pub proof fn law_kinds_stand_in_order(a: ValueView, b: ValueView)
    ensures
        a is Null && !(b is Null) ==> index_order(a, b) == Order::Less,
        a is Bool && !(b is Null || b is Bool) ==> index_order(a, b) == Order::Less,
        (a is I32 || a is I64) && b is Str ==> index_order(a, b) == Order::Less,
        (a is I32 || a is I64) && (b matches ValueView::F64(bits, _) && is_nan(bits))
            ==> index_order(a, b) == Order::Less,
        a is F64 && b is Str ==> index_order(a, b) == Order::Less,
        (a matches ValueView::F64(x, _) && !is_nan(x)) && (b matches ValueView::F64(y, _) && is_nan(y))
            ==> index_order(a, b) == Order::Less,
        (a matches ValueView::F64(x, _) && is_nan(x)) && (b matches ValueView::F64(y, _) && is_nan(y))
            ==> index_order(a, b) == Order::Equal,
        a is Null && b is Null ==> index_order(a, b) == Order::Equal,
{
}

} // verus!
