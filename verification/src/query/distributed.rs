//! Two-phase aggregation. Each member computes a partial result over its local entries:
//! accumulators by group key. The coordinator merges the partial results of all members and turns
//! them into rows.
//!
//! Accumulators keep the numbers that go into a sum, so that splitting the input over members and
//! merging is exactly the same as a run over the whole input.

use vstd::prelude::*;
use super::exec::{
    any_aggregates, column_names, entry_passes, extraction, first_seen, grouping, has_aggregates,
    lemma_first_seen, lemma_name_found, matched, name_position, names_of_columns, passes, position_of, Cell, CellView,
    Entry, EntryView,
};
use super::json::{decode_key_data, key_value, FieldExtractor};
use super::predicate::{bare, bare_col, Probe, ProbeView};
use super::rows::{
    arrange, copy_texts, is_arranged, ordered_by, same_texts, ResultRow, RowOrder, Texts,
};
use super::sql::{ColExpr, ColExprView, Select, Window, WindowView};
use super::value::{
    compare_nums, fmt_value, is_nan, law_numbers_compare_by_value, num_order, truncate, truncated,
    FieldValue, Num, NumView, ValueView,
};
use crate::model::{
    lemma_filter_nothing, lemma_filter_take, nested, nested_opt, opt_view, opt_views, views,
};
use crate::number::{integer_text, numeral_text};
use crate::order::Order;

verus! {

/// Which aggregate a SELECT column computes.
#[derive(Clone, Copy, Debug, PartialEq, Eq, Structural)]
pub enum AggKind {
    Count,
    Sum,
    Avg,
    Min,
    Max,
}

/// An accumulator of one aggregate of one group: how many entries it has seen, the numbers among
/// their values with their count, and the least and greatest of them.
#[derive(Clone, Debug, PartialEq, Eq)]
pub struct Acc {
    pub rows: i64,
    pub addends: Vec<Num>,
    pub nvals: i64,
    pub extremes: Option<(Num, Num)>,
}

/// What an [`Acc`] holds.
pub struct AccView {
    pub rows: i64,
    pub addends: Seq<NumView>,
    pub nvals: i64,
    pub extremes: Option<(NumView, NumView)>,
}

impl View for Acc {
    type V = AccView;

    open spec fn view(&self) -> AccView {
        AccView {
            rows: self.rows,
            addends: views(self.addends@),
            nvals: self.nvals,
            extremes: match self.extremes {
                Some((a, b)) => Some((a@, b@)),
                None => None,
            },
        }
    }
}

/// The accumulator of nothing.
pub open spec fn empty_acc() -> AccView {
    AccView { rows: 0, addends: Seq::empty(), nvals: 0, extremes: None }
}

/// The accumulator of one entry, with the number that it has, if any.
pub open spec fn unit_acc(n: Option<NumView>) -> AccView {
    match n {
        Some(n) => AccView { rows: 1, addends: seq![n], nvals: 1, extremes: Some((n, n)) },
        None => AccView { rows: 1, addends: Seq::empty(), nvals: 0, extremes: None },
    }
}

/// Whether a number is not one.
pub open spec fn no_number(n: NumView) -> bool {
    n matches NumView::Double(bits) && is_nan(bits)
}

/// The one of two numbers that stands as asked to the other; the first if neither does. What is
/// not a number gives way.
pub open spec fn better(a: NumView, b: NumView, wanted: Order) -> NumView {
    if no_number(b) {
        a
    } else if no_number(a) || num_order(b, a) == Some(wanted) {
        b
    } else {
        a
    }
}

/// The least and greatest of two lots of numbers.
pub open spec fn joined(
    a: Option<(NumView, NumView)>,
    b: Option<(NumView, NumView)>,
) -> Option<(NumView, NumView)> {
    match (a, b) {
        (None, _) => b,
        (_, None) => a,
        (Some(x), Some(y)) => Some(
            (better(x.0, y.0, Order::Less), better(x.1, y.1, Order::Greater)),
        ),
    }
}

impl AccView {
    /// The accumulator of what both have seen.
    pub open spec fn merge(self, o: AccView) -> AccView {
        AccView {
            rows: self.rows.wrapping_add(o.rows),
            addends: self.addends + o.addends,
            nvals: self.nvals.wrapping_add(o.nvals),
            extremes: joined(self.extremes, o.extremes),
        }
    }
}

/// Accumulators merged place by place.
pub open spec fn merge_all(a: Seq<AccView>, b: Seq<AccView>) -> Seq<AccView> {
    Seq::new(
        a.len(),
        |i: int|
            if i < b.len() {
                a[i].merge(b[i])
            } else {
                a[i]
            },
    )
}

/// A group: its key and one accumulator for each aggregate column.
pub struct Group {
    pub key: Vec<Option<String>>,
    pub accs: Vec<Acc>,
}

/// What a [`Group`] holds.
pub struct GroupView {
    pub key: Texts,
    pub accs: Seq<AccView>,
}

impl View for Group {
    type V = GroupView;

    open spec fn view(&self) -> GroupView {
        GroupView { key: opt_views(self.key@), accs: views(self.accs@) }
    }
}

/// One member's partial result: its groups, each key once.
pub struct Partial {
    pub groups: Vec<Group>,
}

impl View for Partial {
    type V = Seq<GroupView>;

    open spec fn view(&self) -> Seq<GroupView> {
        views(self.groups@)
    }
}

/// The position of the group of a key, from `from` on.
pub open spec fn group_at(groups: Seq<GroupView>, key: Texts, from: int) -> Option<int>
    decreases groups.len() - from,
{
    if 0 <= from < groups.len() {
        if groups[from].key == key {
            Some(from)
        } else {
            group_at(groups, key, from + 1)
        }
    } else {
        None
    }
}

/// Groups with one more lot of accumulators merged into the group of its key.
pub open spec fn with_group(groups: Seq<GroupView>, g: GroupView) -> Seq<GroupView> {
    match group_at(groups, g.key, 0) {
        Some(i) => groups.update(
            i,
            GroupView { key: g.key, accs: merge_all(groups[i].accs, g.accs) },
        ),
        None => groups.push(g),
    }
}

/// Lots of accumulators gathered into groups, each key once.
pub open spec fn gathered(lots: Seq<GroupView>) -> Seq<GroupView>
    decreases lots.len(),
{
    if lots.len() == 0 {
        lots
    } else {
        with_group(gathered(lots.drop_last()), lots.last())
    }
}

fn copy_nums(ns: &Vec<Num>, out: &mut Vec<Num>)
    ensures
        views(final(out)@) == views(old(out)@) + views(ns@),
{
    let ghost before = views(out@);
    let mut i: usize = 0;
    while i < ns.len()
        invariant
            i <= ns@.len(),
            views(out@) =~= before + views(ns@).take(i as int),
        decreases ns@.len() - i,
    {
        let ghost so_far = views(out@);
        let n: Num = ns[i];
        assert(views(ns@)[i as int] == n@);
        out.push(n);
        assert(views(out@) =~= so_far.push(n@));
        i = i + 1;
    }
    assert(views(ns@).take(i as int) =~= views(ns@));
}

fn is_no_number(n: Num) -> (b: bool)
    ensures
        b == no_number(n@),
{
    match n {
        Num::Int(_) => false,
        Num::Double(bits) => {
            let m: u64 = if bits >= 0x8000_0000_0000_0000 {
                bits - 0x8000_0000_0000_0000
            } else {
                bits
            };
            m > 0x7ff0_0000_0000_0000
        },
    }
}

fn better_of(a: Num, b: Num, wanted: Order) -> (r: Num)
    ensures
        r@ == better(a@, b@, wanted),
{
    if is_no_number(b) {
        return a;
    }
    if is_no_number(a) {
        return b;
    }
    match compare_nums(&b, &a) {
        Some(o) => if o == wanted {
            b
        } else {
            a
        },
        None => a,
    }
}

impl Acc {
    pub fn new() -> (a: Acc)
        ensures
            a@ == empty_acc(),
    {
        let a = Acc { rows: 0, addends: Vec::new(), nvals: 0, extremes: None };
        assert(a@.addends =~= Seq::empty());
        a
    }

    /// Takes in what another accumulator has seen.
    pub fn merge(&mut self, o: &Acc)
        ensures
            final(self)@ == old(self)@.merge(o@),
    {
        self.rows = self.rows.wrapping_add(o.rows);
        copy_nums(&o.addends, &mut self.addends);
        self.nvals = self.nvals.wrapping_add(o.nvals);
        self.extremes = match (self.extremes, o.extremes) {
            (None, x) => x,
            (x, None) => x,
            (Some((a, b)), Some((c, d))) => Some(
                (better_of(a, c, Order::Less), better_of(b, d, Order::Greater)),
            ),
        };
    }

    /// Takes in a number.
    pub fn add_value(&mut self, n: Num)
        ensures
            final(self)@ == (AccView { rows: old(self)@.rows, ..old(self)@.merge(unit_acc(Some(n@))) }),
    {
        self.extremes = match self.extremes {
            None => Some((n, n)),
            Some((a, b)) => Some((better_of(a, n, Order::Less), better_of(b, n, Order::Greater))),
        };
        let ghost before = views(self.addends@);
        self.addends.push(n);
        assert(views(self.addends@) =~= before + seq![n@]);
        self.nvals = self.nvals.wrapping_add(1);
    }
}

fn merge_accs(a: &mut Vec<Acc>, b: &Vec<Acc>)
    ensures
        views(final(a)@) == merge_all(views(old(a)@), views(b@)),
{
    let ghost before = views(a@);
    let ghost other = views(b@);
    let mut i: usize = 0;
    while i < a.len() && i < b.len()
        invariant
            i <= a@.len(),
            i <= b@.len(),
            a@.len() == before.len(),
            other == views(b@),
            forall|j: int|
                0 <= j < a@.len() ==> (#[trigger] a@[j])@ == if j < i {
                    before[j].merge(other[j])
                } else {
                    before[j]
                },
        decreases a@.len() - i,
    {
        assert(other[i as int] == b@[i as int]@);
        let ghost was = a@;
        let mut x = Acc::new();
        std::mem::swap(&mut x, &mut a[i]);
        x.merge(&b[i]);
        a.set(i, x);
        i = i + 1;
    }
    assert(views(a@) =~= merge_all(before, other));
}

fn find_group(groups: &Vec<Group>, key: &Vec<Option<String>>) -> (r: Option<usize>)
    ensures
        match r {
            Some(i) => group_at(views(groups@), opt_views(key@), 0) == Some(i as int) && i
                < groups@.len(),
            None => group_at(views(groups@), opt_views(key@), 0) is None,
        },
{
    let ghost all = views(groups@);
    let mut i: usize = 0;
    while i < groups.len()
        invariant
            i <= groups@.len(),
            all == views(groups@),
            group_at(all, opt_views(key@), 0) == group_at(all, opt_views(key@), i as int),
        decreases groups@.len() - i,
    {
        assert(all[i as int] == groups@[i as int]@);
        if same_texts(&groups[i].key, key) {
            return Some(i);
        }
        i = i + 1;
    }
    None
}

proof fn lemma_group_at(groups: Seq<GroupView>, key: Texts, from: int)
    requires
        0 <= from <= groups.len(),
    ensures
        match group_at(groups, key, from) {
            Some(i) => from <= i < groups.len() && groups[i].key == key,
            None => forall|j: int| from <= j < groups.len() ==> (#[trigger] groups[j]).key != key,
        },
    decreases groups.len() - from,
{
    if from < groups.len() && groups[from].key != key {
        lemma_group_at(groups, key, from + 1);
    }
}

fn add_group(groups: &mut Vec<Group>, g: Group)
    ensures
        views(final(groups)@) == with_group(views(old(groups)@), g@),
{
    let ghost before = views(groups@);
    match find_group(groups, &g.key) {
        Some(i) => {
            proof {
                lemma_group_at(before, g@.key, 0);
                assert(before[i as int] == groups@[i as int]@);
            }
            let mut x = Group { key: Vec::new(), accs: Vec::new() };
            std::mem::swap(&mut x, &mut groups[i]);
            merge_accs(&mut x.accs, &g.accs);
            groups.set(i, x);
            assert(views(groups@) =~= with_group(before, g@));
        },
        None => {
            groups.push(g);
            assert(views(groups@) =~= before.push(g@));
        },
    }
}

// ---- what an entry contributes ----

/// The aggregate columns of a SELECT, in order.
pub open spec fn agg_columns(cols: Seq<ColExprView>) -> Seq<(AggKind, Seq<char>)>
    decreases cols.len(),
{
    if cols.len() == 0 {
        Seq::empty()
    } else {
        let before = agg_columns(cols.drop_last());
        match cols.last() {
            ColExprView::Col(_) => before,
            ColExprView::Count(n) => before.push((AggKind::Count, bare(n))),
            ColExprView::Sum(n) => before.push((AggKind::Sum, bare(n))),
            ColExprView::Avg(n) => before.push((AggKind::Avg, bare(n))),
            ColExprView::Min(n) => before.push((AggKind::Min, bare(n))),
            ColExprView::Max(n) => before.push((AggKind::Max, bare(n))),
        }
    }
}

impl View for AggKind {
    type V = AggKind;

    open spec fn view(&self) -> AggKind {
        *self
    }
}

fn agg_cols(cols: &Vec<ColExpr>) -> (out: Vec<(AggKind, String)>)
    ensures
        views(out@) == agg_columns(views(cols@)),
{
    let ghost all = views(cols@);
    let mut out: Vec<(AggKind, String)> = Vec::new();
    let mut i: usize = 0;
    assert(views(out@) =~= agg_columns(all.take(0)));
    while i < cols.len()
        invariant
            i <= cols@.len(),
            all == views(cols@),
            views(out@) == agg_columns(all.take(i as int)),
        decreases cols@.len() - i,
    {
        let ghost so_far = views(out@);
        assert(all.take(i + 1).drop_last() =~= all.take(i as int));
        assert(all[i as int] == cols@[i as int]@);
        let found: Option<(AggKind, String)> = match &cols[i] {
            ColExpr::Col(_) => None,
            ColExpr::Count(n) => Some((AggKind::Count, bare_col(n.as_str()))),
            ColExpr::Sum(n) => Some((AggKind::Sum, bare_col(n.as_str()))),
            ColExpr::Avg(n) => Some((AggKind::Avg, bare_col(n.as_str()))),
            ColExpr::Min(n) => Some((AggKind::Min, bare_col(n.as_str()))),
            ColExpr::Max(n) => Some((AggKind::Max, bare_col(n.as_str()))),
        };
        match found {
            Some(x) => {
                let ghost xv = x@;
                out.push(x);
                assert(views(out@) =~= so_far.push(xv));
            },
            None => {},
        }
        i = i + 1;
    }
    assert(all.take(i as int) =~= all);
    out
}

/// The names without those of the window's bounds.
pub open spec fn without_bounds(names: Seq<Seq<char>>) -> Seq<Seq<char>>
    decreases names.len(),
{
    if names.len() == 0 {
        names
    } else {
        let before = without_bounds(names.drop_last());
        if names.last() == "window_start"@ || names.last() == "window_end"@ {
            before
        } else {
            before.push(names.last())
        }
    }
}

/// The effective grouping columns: a windowed SELECT groups by the bounds of the window first.
pub open spec fn group_columns(select: Select) -> Seq<Seq<char>> {
    if select.window is Some {
        seq!["window_start"@, "window_end"@] + without_bounds(grouping(select))
    } else {
        grouping(select)
    }
}

fn group_cols(select: &Select) -> (out: Vec<String>)
    ensures
        views(out@) == group_columns(*select),
{
    let mut out: Vec<String> = Vec::new();
    let windowed: bool = select.window.is_some();
    let start: String = "window_start".to_string();
    let end: String = "window_end".to_string();
    if windowed {
        out.push(start.clone());
        out.push(end.clone());
    }
    let ghost bounds = views(out@);
    assert(bounds =~= if windowed {
        seq!["window_start"@, "window_end"@]
    } else {
        Seq::empty()
    });
    match &select.group_by {
        None => {
            assert(views(out@) =~= group_columns(*select));
        },
        Some(names) => {
            let ghost all = views(names@);
            let mut i: usize = 0;
            assert(bounds + without_bounds(all.take(0)) =~= bounds);
            assert(bounds + all.take(0) =~= bounds);
            while i < names.len()
                invariant
                    i <= names@.len(),
                    all == views(names@),
                    start@ == "window_start"@,
                    end@ == "window_end"@,
                    views(out@) == if windowed {
                        bounds + without_bounds(all.take(i as int))
                    } else {
                        bounds + all.take(i as int)
                    },
                decreases names@.len() - i,
            {
                let ghost so_far = views(out@);
                assert(all.take(i + 1).drop_last() =~= all.take(i as int));
                assert(all[i as int] == names@[i as int]@);
                let n: String = names[i].clone();
                if windowed && (n == start || n == end) {
                } else {
                    out.push(n);
                    assert(views(out@) =~= so_far.push(n@));
                    assert(so_far.push(n@) =~= if windowed {
                        bounds + without_bounds(all.take(i + 1))
                    } else {
                        bounds + all.take(i + 1)
                    });
                }
                i = i + 1;
            }
            assert(all.take(i as int) =~= all);
            assert(bounds + all =~= if windowed {
                bounds + all
            } else {
                all
            });
        },
    }
    out
}

/// The start of the window of a time: the multiple of the size at or below it.
pub open spec fn window_start(ts: i64, size: i64) -> i64 {
    let r = ts as int % size as int;
    ts.wrapping_sub(r as i64)
}

/// The time that a value says: an integer, or the whole part of a double; else 0.
pub open spec fn time_of(v: ValueView) -> i64 {
    match v {
        ValueView::I32(i) => i as i64,
        ValueView::I64(i) => i,
        ValueView::F64(bits, text) => truncated(bits),
        _ => 0,
    }
}

fn time_of_value(v: &FieldValue) -> (t: i64)
    ensures
        t == time_of(v@),
{
    match v {
        FieldValue::I32(i) => *i as i64,
        FieldValue::I64(i) => *i,
        FieldValue::F64(d) => truncate(d.bits),
        _ => 0,
    }
}

/// The bounds of the window of an entry; none without windows.
pub open spec fn bounds<E: FieldExtractor>(
    window: Option<WindowView>,
    ex: E,
    value: Seq<u8>,
) -> Option<(i64, i64)> {
    match window {
        Some(w) => {
            let start = window_start(time_of(ex.extracted(value, w.ts_col)), w.size);
            Some((start, start.wrapping_add(w.size)))
        },
        None => None,
    }
}

fn window_of_entry<E: FieldExtractor>(window: &Option<Window>, ex: &E, value: &[u8]) -> (r: Option<
    (i64, i64),
>)
    requires
        window matches Some(w) ==> w.size > 0,
    ensures
        r == bounds(opt_view(*window), *ex, value@),
{
    match window {
        Some(w) => {
            let v = ex.extract(value, w.ts_col.as_str());
            let ts: i64 = time_of_value(&v);
            let start: i64 = start_of_window(ts, w.size);
            Some((start, start.wrapping_add(w.size)))
        },
        None => None,
    }
}

fn start_of_window(ts: i64, size: i64) -> (s: i64)
    requires
        size > 0,
    ensures
        s == window_start(ts, size),
{
    let r: i128 = if ts >= 0 {
        ts as i128 % size as i128
    } else {
        let m: i128 = (-(ts as i128)) % size as i128;
        proof {
            let (a, b) = (-(ts as int), size as int);
            vstd::arithmetic::div_mod::lemma_fundamental_div_mod(a, b);
            let q = a / b;
            if m == 0 {
                assert(ts as int == b * (-q)) by (nonlinear_arith)
                    requires
                        a == b * q,
                        a == -(ts as int),
                ;
                vstd::arithmetic::div_mod::lemma_fundamental_div_mod_converse(
                    ts as int,
                    b,
                    -q,
                    0,
                );
            } else {
                assert(ts as int == b * (-q - 1) + (b - m)) by (nonlinear_arith)
                    requires
                        a == b * q + m,
                        a == -(ts as int),
                ;
                vstd::arithmetic::div_mod::lemma_fundamental_div_mod_converse(
                    ts as int,
                    b,
                    -q - 1,
                    b - m,
                );
            }
        }
        if m == 0 {
            0
        } else {
            size as i128 - m
        }
    };
    assert(r == ts as int % size as int);
    ts.wrapping_sub(r as i64)
}

/// A cell of an entry's group key: a bound of its window, its key, or what is extracted from its
/// value.
pub open spec fn key_cell<E: FieldExtractor>(
    ex: E,
    e: EntryView,
    col: Seq<char>,
    key_col: Option<Seq<char>>,
    window: Option<(i64, i64)>,
) -> Option<Seq<char>> {
    let (start, end) = window->0;
    if window is Some && col == "window_start"@ {
        Some(numeral_text(start as int))
    } else if window is Some && col == "window_end"@ {
        Some(numeral_text(end as int))
    } else if key_col == Some(col) {
        key_value(e.0).text()
    } else {
        ex.extracted(e.1, col).text()
    }
}

fn cell_of_key<E: FieldExtractor>(
    ex: &E,
    e: &Entry,
    col: &String,
    key_col: &Option<String>,
    window: Option<(i64, i64)>,
) -> (r: Option<String>)
    ensures
        opt_view(r) == key_cell(*ex, e@, col@, opt_view(*key_col), window),
{
    if let Some((start, end)) = window {
        if *col == "window_start".to_string() {
            return Some(integer_text(start));
        }
        if *col == "window_end".to_string() {
            return Some(integer_text(end));
        }
    }
    let is_key: bool = match key_col {
        Some(k) => *k == *col,
        None => false,
    };
    if is_key {
        fmt_value(&decode_key_data(e.0.as_slice()))
    } else {
        fmt_value(&ex.extract(e.1.as_slice(), col.as_str()))
    }
}

/// The group key of an entry.
pub open spec fn entry_key<E: FieldExtractor>(
    ex: E,
    e: EntryView,
    cols: Seq<Seq<char>>,
    key_col: Option<Seq<char>>,
    window: Option<(i64, i64)>,
) -> Texts {
    Seq::new(cols.len(), |i: int| key_cell(ex, e, cols[i], key_col, window))
}

fn key_of_entry<E: FieldExtractor>(
    ex: &E,
    e: &Entry,
    cols: &Vec<String>,
    key_col: &Option<String>,
    window: Option<(i64, i64)>,
) -> (out: Vec<Option<String>>)
    ensures
        opt_views(out@) == entry_key(*ex, e@, views(cols@), opt_view(*key_col), window),
{
    let ghost all = entry_key(*ex, e@, views(cols@), opt_view(*key_col), window);
    let mut out: Vec<Option<String>> = Vec::new();
    let mut i: usize = 0;
    while i < cols.len()
        invariant
            i <= cols@.len(),
            all == entry_key(*ex, e@, views(cols@), opt_view(*key_col), window),
            opt_views(out@) =~= all.take(i as int),
        decreases cols@.len() - i,
    {
        let ghost so_far = opt_views(out@);
        assert(views(cols@)[i as int] == cols@[i as int]@);
        let t = cell_of_key(ex, e, &cols[i], key_col, window);
        let ghost tv = opt_view(t);
        assert(tv == all[i as int]);
        out.push(t);
        assert(opt_views(out@) =~= so_far.push(tv));
        i = i + 1;
    }
    assert(all.take(i as int) =~= all);
    out
}

/// The number that a value adds to an aggregate of a kind; COUNT takes none.
pub open spec fn addend<E: FieldExtractor>(
    ex: E,
    value: Seq<u8>,
    agg: (AggKind, Seq<char>),
) -> Option<NumView> {
    if agg.0 == AggKind::Count {
        None
    } else {
        ex.extracted(value, agg.1).num()
    }
}

/// The accumulators of one entry.
pub open spec fn entry_accs<E: FieldExtractor>(
    ex: E,
    value: Seq<u8>,
    aggs: Seq<(AggKind, Seq<char>)>,
) -> Seq<AccView> {
    Seq::new(aggs.len(), |i: int| unit_acc(addend(ex, value, aggs[i])))
}

fn accs_of_entry<E: FieldExtractor>(ex: &E, value: &[u8], aggs: &Vec<(AggKind, String)>) -> (out:
    Vec<Acc>)
    ensures
        views(out@) == entry_accs(*ex, value@, views(aggs@)),
{
    let ghost all = entry_accs(*ex, value@, views(aggs@));
    let mut out: Vec<Acc> = Vec::new();
    let mut i: usize = 0;
    while i < aggs.len()
        invariant
            i <= aggs@.len(),
            all == entry_accs(*ex, value@, views(aggs@)),
            views(out@) =~= all.take(i as int),
        decreases aggs@.len() - i,
    {
        let ghost so_far = views(out@);
        let agg = &aggs[i];
        assert(views(aggs@)[i as int] == agg@);
        let mut a = Acc::new();
        a.rows = 1;
        if agg.0 != AggKind::Count {
            match ex.extract(value, agg.1.as_str()).num() {
                Some(n) => a.add_value(n),
                None => {},
            }
        }
        assert(a@.addends =~= all[i as int].addends);
        assert(a@ == all[i as int]);
        let ghost av = a@;
        out.push(a);
        assert(views(out@) =~= so_far.push(av));
        i = i + 1;
    }
    assert(all.take(i as int) =~= all);
    out
}

/// What an entry contributes: its accumulators under its group key.
pub open spec fn contribution<E: FieldExtractor>(
    select: Select,
    ex: E,
    e: EntryView,
    key_col: Option<Seq<char>>,
) -> GroupView {
    GroupView {
        key: entry_key(
            ex,
            e,
            group_columns(select),
            key_col,
            bounds(opt_view(select.window), ex, e.1),
        ),
        accs: entry_accs(ex, e.1, agg_columns(views(select.cols@))),
    }
}

/// What entries contribute.
pub open spec fn contributions<E: FieldExtractor>(
    select: Select,
    ex: E,
    entries: Seq<EntryView>,
    key_col: Option<Seq<char>>,
) -> Seq<GroupView> {
    Seq::new(entries.len(), |i: int| contribution(select, ex, entries[i], key_col))
}

/// A member's partial result: what its entries that pass the filter contribute, gathered.
pub open spec fn partial_of<E: FieldExtractor>(
    select: Select,
    entries: Seq<EntryView>,
    ex: E,
    key_col: Option<Seq<char>>,
    probes: Seq<ProbeView>,
) -> Seq<GroupView> {
    gathered(contributions(select, ex, matched(select.filter, ex, entries, probes), key_col))
}

/// Computes a member's partial result over its local entries.
pub fn local_partial<E: FieldExtractor>(
    select: &Select,
    entries: &[Entry],
    ex: &E,
    key_col: Option<&str>,
    probes: &[Probe],
) -> (p: Partial)
    requires
        select.window matches Some(w) ==> w.size > 0,
    ensures
        p@ == partial_of(*select, views(entries@), *ex, opt_view(key_col), views(probes@)),
{
    let gcols = group_cols(select);
    let aggs = agg_cols(&select.cols);
    let key_name: Option<String> = match key_col {
        Some(k) => Some(k.to_string()),
        None => None,
    };
    let ghost all = views(entries@);
    let ghost key_view = opt_view(key_col);
    let ghost f = |e: EntryView|
        passes(select.filter, extraction(*ex, e.1), views(probes@));
    let mut groups: Vec<Group> = Vec::new();
    let mut i: usize = 0;
    proof {
        lemma_filter_nothing(all, f);
        assert(contributions(*select, *ex, Seq::empty(), key_view) =~= Seq::empty());
        assert(views(groups@) =~= Seq::empty());
    }
    while i < entries.len()
        invariant
            i <= entries@.len(),
            select.window matches Some(w) ==> w.size > 0,
            all == views(entries@),
            views(gcols@) == group_columns(*select),
            views(aggs@) == agg_columns(views(select.cols@)),
            opt_view(key_name) == key_view,
            f == (|e: EntryView| passes(select.filter, extraction(*ex, e.1), views(probes@))),
            views(groups@) == gathered(
                contributions(*select, *ex, all.take(i as int).filter(f), key_view),
            ),
        decreases entries@.len() - i,
    {
        let e = &entries[i];
        assert(all[i as int] == e@);
        let ghost so_far = all.take(i as int).filter(f);
        proof {
            lemma_filter_take(all, i as int, f);
        }
        if entry_passes(&select.filter, ex, e.1.as_slice(), probes) {
            let window = window_of_entry(&select.window, ex, e.1.as_slice());
            let key = key_of_entry(ex, e, &gcols, &key_name, window);
            let accs = accs_of_entry(ex, e.1.as_slice(), &aggs);
            let g = Group { key, accs };
            proof {
                let c = contribution(*select, *ex, e@, key_view);
                assert(g@ == c);
                let lots = contributions(*select, *ex, so_far.push(e@), key_view);
                assert(lots.drop_last() =~= contributions(*select, *ex, so_far, key_view));
                assert(lots.last() == c);
            }
            add_group(&mut groups, g);
        }
        i = i + 1;
    }
    assert(all.take(i as int) =~= all);
    Partial { groups }
}

/// The groups of partial results, one after the other.
pub open spec fn all_groups(partials: Seq<Seq<GroupView>>) -> Seq<GroupView>
    decreases partials.len(),
{
    if partials.len() == 0 {
        Seq::empty()
    } else {
        all_groups(partials.drop_last()) + partials.last()
    }
}

/// Merges the partial results of several members.
pub fn merge(partials: Vec<Partial>) -> (p: Partial)
    ensures
        p@ == gathered(all_groups(views(partials@))),
{
    let ghost all = views(partials@);
    let mut groups: Vec<Group> = Vec::new();
    let mut i: usize = 0;
    assert(views(groups@) =~= gathered(all_groups(all.take(0))));
    while i < partials.len()
        invariant
            i <= partials@.len(),
            all == views(partials@),
            views(groups@) == gathered(all_groups(all.take(i as int))),
        decreases partials@.len() - i,
    {
        let more = &partials[i].groups;
        let ghost start = all_groups(all.take(i as int));
        let ghost ms = views(more@);
        assert(all[i as int] == ms);
        assert(all.take(i + 1).drop_last() =~= all.take(i as int));
        assert(all_groups(all.take(i + 1)) == start + ms);
        let mut j: usize = 0;
        assert(start + ms.take(0) =~= start);
        while j < more.len()
            invariant
                j <= more@.len(),
                ms == views(more@),
                views(groups@) == gathered(start + ms.take(j as int)),
            decreases more@.len() - j,
        {
            let g = copy_group(&more[j]);
            proof {
                assert(ms[j as int] == more@[j as int]@);
                let lots = start + ms.take(j + 1);
                assert(lots.drop_last() =~= start + ms.take(j as int));
                assert(lots.last() == g@);
            }
            add_group(&mut groups, g);
            j = j + 1;
        }
        assert(ms.take(j as int) =~= ms);
        i = i + 1;
    }
    assert(all.take(i as int) =~= all);
    Partial { groups }
}

fn copy_group(g: &Group) -> (r: Group)
    ensures
        r@ == g@,
{
    let mut accs: Vec<Acc> = Vec::new();
    let mut i: usize = 0;
    while i < g.accs.len()
        invariant
            i <= g.accs@.len(),
            views(accs@) =~= views(g.accs@).take(i as int),
        decreases g.accs@.len() - i,
    {
        let ghost so_far = views(accs@);
        let a = &g.accs[i];
        assert(views(g.accs@)[i as int] == a@);
        let mut addends: Vec<Num> = Vec::new();
        copy_nums(&a.addends, &mut addends);
        let c = Acc { rows: a.rows, addends, nvals: a.nvals, extremes: a.extremes };
        assert(c@.addends =~= a@.addends);
        assert(c@ == a@);
        accs.push(c);
        assert(views(accs@) =~= so_far.push(a@));
        i = i + 1;
    }
    assert(views(accs@) =~= views(g.accs@));
    Group { key: copy_texts(&g.key), accs }
}

// ---- results ----

/// Whether a query aggregates, so that members return partial results rather than rows.
pub fn is_aggregate(select: &Select) -> (b: bool)
    ensures
        b == (select.window is Some || select.group_by is Some || any_aggregates(
            views(select.cols@),
        )),
{
    select.window.is_some() || select.group_by.is_some() || has_aggregates(&select.cols)
}

/// What an aggregate comes to: COUNT is the number of entries; SUM, MIN and MAX are null without
/// numbers, AVG is null without a count of them.
pub open spec fn acc_cell(kind: AggKind, acc: AccView) -> CellView {
    match kind {
        AggKind::Count => CellView::Text(Some(numeral_text(acc.rows as int))),
        AggKind::Sum => if acc.extremes is Some {
            CellView::Sum(acc.addends)
        } else {
            CellView::Text(None)
        },
        AggKind::Avg => if acc.nvals > 0 {
            CellView::Mean(acc.addends, acc.nvals)
        } else {
            CellView::Text(None)
        },
        AggKind::Min => match acc.extremes {
            Some((least, greatest)) => CellView::Number(least),
            None => CellView::Text(None),
        },
        AggKind::Max => match acc.extremes {
            Some((least, greatest)) => CellView::Number(greatest),
            None => CellView::Text(None),
        },
    }
}

impl Acc {
    /// What the accumulator comes to as an aggregate of a kind.
    pub fn finalize(&self, kind: AggKind) -> (c: Cell)
        ensures
            c@ == acc_cell(kind, self@),
    {
        let mut addends: Vec<Num> = Vec::new();
        copy_nums(&self.addends, &mut addends);
        assert(views(addends@) =~= self@.addends);
        match kind {
            AggKind::Count => Cell::Text(Some(integer_text(self.rows))),
            AggKind::Sum => if self.extremes.is_some() {
                Cell::Sum(addends)
            } else {
                Cell::Text(None)
            },
            AggKind::Avg => if self.nvals > 0 {
                Cell::Mean(addends, self.nvals)
            } else {
                Cell::Text(None)
            },
            AggKind::Min => match self.extremes {
                Some((least, _)) => Cell::Number(least),
                None => Cell::Text(None),
            },
            AggKind::Max => match self.extremes {
                Some((_, greatest)) => Cell::Number(greatest),
                None => Cell::Text(None),
            },
        }
    }
}

/// The kind of an aggregate column.
pub open spec fn kind_of(c: ColExprView) -> Option<AggKind> {
    match c {
        ColExprView::Col(_) => None,
        ColExprView::Count(_) => Some(AggKind::Count),
        ColExprView::Sum(_) => Some(AggKind::Sum),
        ColExprView::Avg(_) => Some(AggKind::Avg),
        ColExprView::Min(_) => Some(AggKind::Min),
        ColExprView::Max(_) => Some(AggKind::Max),
    }
}

/// The cell of a group in column `i`: for a plain column the cell of the group key under that
/// name, null if it is not grouped by; for an aggregate what its accumulator comes to.
pub open spec fn final_cell(
    cols: Seq<ColExprView>,
    i: int,
    group_cols: Seq<Seq<char>>,
    g: GroupView,
) -> CellView {
    match kind_of(cols[i]) {
        Some(kind) => acc_cell(kind, g.accs[agg_columns(cols.take(i)).len() as int]),
        None => CellView::Text(
            match name_position(group_cols, bare(cols[i]->Col_0), 0) {
                Some(k) => if k < g.key.len() {
                    g.key[k]
                } else {
                    None
                },
                None => None,
            },
        ),
    }
}

/// The row of a group.
pub open spec fn final_row(
    cols: Seq<ColExprView>,
    group_cols: Seq<Seq<char>>,
    g: GroupView,
) -> Seq<CellView> {
    Seq::new(cols.len(), |i: int| final_cell(cols, i, group_cols, g))
}

/// The rows of merged groups.
pub open spec fn final_rows(select: Select, groups: Seq<GroupView>) -> Seq<Seq<CellView>> {
    Seq::new(
        groups.len(),
        |i: int| final_row(views(select.cols@), group_columns(select), groups[i]),
    )
}

/// Whether every group has an accumulator for each aggregate column.
pub open spec fn complete(select: Select, groups: Seq<GroupView>) -> bool {
    forall|i: int|
        0 <= i < groups.len() ==> agg_columns(views(select.cols@)).len() <= (
        #[trigger] groups[i]).accs.len()
}

proof fn lemma_agg_columns_grow(cols: Seq<ColExprView>, i: int)
    requires
        0 <= i < cols.len(),
    ensures
        agg_columns(cols.take(i + 1)).len() == agg_columns(cols.take(i)).len() + (if kind_of(
            cols[i],
        ) is Some {
            1int
        } else {
            0int
        }),
        agg_columns(cols.take(i + 1)).len() <= agg_columns(cols).len(),
    decreases cols.len() - i,
{
    assert(cols.take(i + 1).drop_last() =~= cols.take(i));
    if i + 1 < cols.len() {
        lemma_agg_columns_grow(cols, i + 1);
    } else {
        assert(cols.take(i + 1) =~= cols);
    }
}

fn row_of_final_group(cols: &Vec<ColExpr>, gcols: &Vec<String>, g: &Group) -> (out: Vec<Cell>)
    requires
        agg_columns(views(cols@)).len() <= g.accs@.len(),
    ensures
        views(out@) == final_row(views(cols@), views(gcols@), g@),
{
    let ghost cv = views(cols@);
    let ghost all = final_row(cv, views(gcols@), g@);
    let mut out: Vec<Cell> = Vec::new();
    let mut i: usize = 0;
    let mut next: usize = 0;
    let count: usize = g.accs.len();
    assert(cv.take(0) =~= Seq::empty());
    while i < cols.len()
        invariant
            i <= cols@.len(),
            cv == views(cols@),
            all == final_row(cv, views(gcols@), g@),
            agg_columns(cv).len() <= count,
            count == g.accs@.len(),
            next == agg_columns(cv.take(i as int)).len(),
            views(out@) =~= all.take(i as int),
        decreases cols@.len() - i,
    {
        let ghost so_far = views(out@);
        assert(cv[i as int] == cols@[i as int]@);
        proof {
            lemma_agg_columns_grow(cv, i as int);
        }
        let kind: Option<AggKind> = match &cols[i] {
            ColExpr::Col(_) => None,
            ColExpr::Count(_) => Some(AggKind::Count),
            ColExpr::Sum(_) => Some(AggKind::Sum),
            ColExpr::Avg(_) => Some(AggKind::Avg),
            ColExpr::Min(_) => Some(AggKind::Min),
            ColExpr::Max(_) => Some(AggKind::Max),
        };
        let cell: Cell = match kind {
            Some(kind) => {
                assert(g@.accs[next as int] == g.accs@[next as int]@);
                let c = g.accs[next].finalize(kind);
                next = next + 1;
                c
            },
            None => Cell::Text(key_text(&cols[i], gcols, g)),
        };
        let ghost x = cell@;
        assert(x == all[i as int]);
        out.push(cell);
        assert(views(out@) =~= so_far.push(x));
        i = i + 1;
    }
    assert(all.take(i as int) =~= all);
    out
}

fn key_text(c: &ColExpr, gcols: &Vec<String>, g: &Group) -> (r: Option<String>)
    requires
        c@ is Col,
    ensures
        opt_view(r) == match name_position(views(gcols@), bare(c@->Col_0), 0) {
            Some(k) => if k < g@.key.len() {
                g@.key[k]
            } else {
                None
            },
            None => None,
        },
{
    match c {
        ColExpr::Col(n) => match position_of(gcols, &bare_col(n.as_str())) {
            Some(k) => if k < g.key.len() {
                assert(g@.key[k as int] == opt_view(g.key@[k as int]));
                match &g.key[k] {
                    Some(s) => Some(s.clone()),
                    None => None,
                }
            } else {
                None
            },
            None => None,
        },
        _ => None,
    }
}

/// Turns merged groups into result columns and rows of cells, not yet ordered.
pub fn finalize(select: &Select, merged: &Partial) -> (r: (Vec<String>, Vec<Vec<Cell>>))
    requires
        complete(*select, merged@),
    ensures
        views(r.0@) == column_names(views(select.cols@)),
        nested(r.1@) == final_rows(*select, merged@),
{
    let columns = names_of_columns(&select.cols);
    let gcols = group_cols(select);
    let ghost all = final_rows(*select, merged@);
    let mut rows: Vec<Vec<Cell>> = Vec::new();
    let mut i: usize = 0;
    while i < merged.groups.len()
        invariant
            i <= merged.groups@.len(),
            complete(*select, merged@),
            views(gcols@) == group_columns(*select),
            all == final_rows(*select, merged@),
            nested(rows@) =~= all.take(i as int),
        decreases merged.groups@.len() - i,
    {
        let ghost so_far = nested(rows@);
        assert(merged@[i as int] == merged.groups@[i as int]@);
        let row = row_of_final_group(&select.cols, &gcols, &merged.groups[i]);
        let ghost x = views(row@);
        assert(x == all[i as int]);
        rows.push(row);
        assert(nested(rows@) =~= so_far.push(x));
        i = i + 1;
    }
    assert(all.take(i as int) =~= all);
    (columns, rows)
}

/// How the coordinator orders: by the column of an ORDER BY, if there is such a column.
pub open spec fn coordinator_order(select: Select, columns: Seq<Seq<char>>) -> Option<RowOrder> {
    match select.order_by {
        Some((col, desc)) => Some(
            match name_position(columns, bare(col@), 0) {
                Some(i) => RowOrder::Keyed(i as usize, desc),
                None => RowOrder::Given,
            },
        ),
        None => None,
    }
}

/// How the coordinator orders.
pub fn order_of_coordinator(select: &Select, columns: &Vec<String>) -> (how: Option<RowOrder>)
    ensures
        how == coordinator_order(*select, views(columns@)),
{
    match &select.order_by {
        Some((col, desc)) => Some(
            match position_of(columns, &bare_col(col.as_str())) {
                Some(i) => RowOrder::Keyed(i, *desc),
                None => RowOrder::Given,
            },
        ),
        None => None,
    }
}

/// Finishes the rows of merged groups: ORDER BY, or all cells without one, and LIMIT.
pub fn finish_groups(select: &Select, columns: &Vec<String>, rows: Vec<ResultRow>) -> (out: Vec<
    Vec<Option<String>>,
>)
    ensures
        is_arranged(
            nested_opt(out@),
            views(rows@),
            false,
            match coordinator_order(*select, views(columns@)) {
                Some(how) => how,
                None => RowOrder::Whole,
            },
            select.limit,
        ),
{
    let how = match order_of_coordinator(select, columns) {
        Some(how) => how,
        None => RowOrder::Whole,
    };
    arrange(rows, false, how, select.limit)
}

/// The columns of a SELECT without aggregates; an aggregate has no name here.
pub open spec fn plain_column_names(cols: Seq<ColExprView>) -> Seq<Seq<char>> {
    Seq::new(
        cols.len(),
        |i: int|
            match cols[i] {
                ColExprView::Col(n) => bare(n),
                _ => Seq::empty(),
            },
    )
}

/// The columns of a SELECT without aggregates.
pub fn plain_columns(select: &Select) -> (out: Vec<String>)
    ensures
        views(out@) == plain_column_names(views(select.cols@)),
{
    let ghost all = plain_column_names(views(select.cols@));
    let mut out: Vec<String> = Vec::new();
    let mut i: usize = 0;
    while i < select.cols.len()
        invariant
            i <= select.cols@.len(),
            all == plain_column_names(views(select.cols@)),
            views(out@) =~= all.take(i as int),
        decreases select.cols@.len() - i,
    {
        let ghost so_far = views(out@);
        assert(views(select.cols@)[i as int] == select.cols@[i as int]@);
        let s: String = match &select.cols[i] {
            ColExpr::Col(n) => bare_col(n.as_str()),
            _ => String::new(),
        };
        assert(s@ =~= all[i as int]);
        out.push(s);
        assert(views(out@) =~= so_far.push(s@));
        i = i + 1;
    }
    assert(all.take(i as int) =~= all);
    out
}

/// Merges gathered plain rows at the coordinator: DISTINCT, ORDER BY and LIMIT, once over the
/// whole cluster.
pub fn finalize_rows(select: &Select, rows: Vec<ResultRow>) -> (r: (
    Vec<String>,
    Vec<Vec<Option<String>>>,
))
    ensures
        views(r.0@) == plain_column_names(views(select.cols@)),
        is_arranged(
            nested_opt(r.1@),
            views(rows@),
            select.is_distinct,
            match coordinator_order(*select, plain_column_names(views(select.cols@))) {
                Some(how) => how,
                None => RowOrder::Given,
            },
            select.limit,
        ),
{
    let columns = plain_columns(select);
    let how = match order_of_coordinator(select, &columns) {
        Some(how) => how,
        None => RowOrder::Given,
    };
    let out = arrange(rows, select.is_distinct, how, select.limit);
    (columns, out)
}

// ---- splitting and merging ----

/// The keys of lots of accumulators.
pub open spec fn keys_of(lots: Seq<GroupView>) -> Seq<Texts> {
    Seq::new(lots.len(), |i: int| lots[i].key)
}

/// The accumulators of a key over all lots, merged in order.
pub open spec fn total(lots: Seq<GroupView>, key: Texts) -> Option<Seq<AccView>>
    decreases lots.len(),
{
    if lots.len() == 0 {
        None
    } else {
        let before = total(lots.drop_last(), key);
        let last = lots.last();
        if last.key != key {
            before
        } else {
            match before {
                Some(accs) => Some(merge_all(accs, last.accs)),
                None => Some(last.accs),
            }
        }
    }
}

/// Whether all lots have `n` accumulators.
pub open spec fn uniform(lots: Seq<GroupView>, n: nat) -> bool {
    forall|i: int| 0 <= i < lots.len() ==> (#[trigger] lots[i]).accs.len() == n
}

proof fn lemma_total_some(lots: Seq<GroupView>, key: Texts)
    ensures
        total(lots, key) is Some <==> keys_of(lots).contains(key),
    decreases lots.len(),
{
    if lots.len() > 0 {
        let rest = lots.drop_last();
        lemma_total_some(rest, key);
        assert(keys_of(lots) =~= keys_of(rest).push(lots.last().key));
        vstd::seq_lib::lemma_seq_contains_after_push(keys_of(rest), lots.last().key, key);
    }
}

/// Gathering gives each key once, in the order in which the keys are seen first, with the
/// accumulators of all its lots merged in order.
pub proof fn law_gathering_totals_each_key(lots: Seq<GroupView>)
    ensures
        keys_of(gathered(lots)) == first_seen(keys_of(lots)),
        keys_of(gathered(lots)).no_duplicates(),
        forall|i: int|
            0 <= i < gathered(lots).len() ==> total(lots, (#[trigger] gathered(lots)[i]).key)
                == Some(gathered(lots)[i].accs),
    decreases lots.len(),
{
    lemma_first_seen(keys_of(lots));
    if lots.len() == 0 {
        assert(keys_of(lots) =~= Seq::empty());
    } else {
        let rest = lots.drop_last();
        let g = lots.last();
        let was = gathered(rest);
        let now = gathered(lots);
        law_gathering_totals_each_key(rest);
        lemma_first_seen(keys_of(rest));
        assert(keys_of(lots).drop_last() =~= keys_of(rest));
        lemma_group_at(was, g.key, 0);
        match group_at(was, g.key, 0) {
            Some(i) => {
                assert(keys_of(was)[i] == g.key);
                assert(keys_of(now) =~= keys_of(was));
                assert forall|j: int| 0 <= j < now.len() implies total(
                    lots,
                    (#[trigger] now[j]).key,
                ) == Some(now[j].accs) by {
                    assert(total(rest, was[j].key) == Some(was[j].accs));
                    if j != i {
                        assert(keys_of(was)[j] != keys_of(was)[i]);
                    }
                }
            },
            None => {
                assert(!keys_of(was).contains(g.key)) by {
                    if keys_of(was).contains(g.key) {
                        let j = choose|j: int| 0 <= j < was.len() && keys_of(was)[j] == g.key;
                        assert(was[j].key == g.key);
                    }
                }
                assert(keys_of(now) =~= keys_of(was).push(g.key));
                lemma_total_some(rest, g.key);
                assert forall|j: int| 0 <= j < now.len() implies total(
                    lots,
                    (#[trigger] now[j]).key,
                ) == Some(now[j].accs) by {
                    if j < was.len() {
                        assert(now[j] == was[j]);
                        assert(total(rest, was[j].key) == Some(was[j].accs));
                    }
                }
            },
        }
    }
}

proof fn lemma_better_assoc(a: NumView, b: NumView, c: NumView, wanted: Order)
    requires
        wanted != Order::Equal,
    ensures
        better(better(a, b, wanted), c, wanted) == better(a, better(b, c, wanted), wanted),
{
    law_numbers_compare_by_value(b, a);
    law_numbers_compare_by_value(c, b);
    law_numbers_compare_by_value(c, a);
}

proof fn lemma_merge_assoc(a: AccView, b: AccView, c: AccView)
    ensures
        a.merge(b).merge(c) == a.merge(b.merge(c)),
{
    assert((a.addends + b.addends) + c.addends =~= a.addends + (b.addends + c.addends));
    if let (Some(x), Some(y), Some(z)) = (a.extremes, b.extremes, c.extremes) {
        lemma_better_assoc(x.0, y.0, z.0, Order::Less);
        lemma_better_assoc(x.1, y.1, z.1, Order::Greater);
    }
}

proof fn lemma_merge_all_assoc(a: Seq<AccView>, b: Seq<AccView>, c: Seq<AccView>)
    requires
        a.len() == b.len() == c.len(),
    ensures
        merge_all(merge_all(a, b), c) == merge_all(a, merge_all(b, c)),
{
    assert forall|i: int| 0 <= i < a.len() implies #[trigger] a[i].merge(b[i]).merge(c[i])
        == a[i].merge(b[i].merge(c[i])) by {
        lemma_merge_assoc(a[i], b[i], c[i]);
    }
    assert(merge_all(merge_all(a, b), c) =~= merge_all(a, merge_all(b, c)));
}

/// Two totals of a key put together.
spec fn together(a: Option<Seq<AccView>>, b: Option<Seq<AccView>>) -> Option<Seq<AccView>> {
    match (a, b) {
        (None, _) => b,
        (_, None) => a,
        (Some(x), Some(y)) => Some(merge_all(x, y)),
    }
}

proof fn lemma_total_len(lots: Seq<GroupView>, key: Texts, n: nat)
    requires
        uniform(lots, n),
    ensures
        total(lots, key) matches Some(accs) ==> accs.len() == n,
    decreases lots.len(),
{
    if lots.len() > 0 {
        let rest = lots.drop_last();
        assert forall|i: int| 0 <= i < rest.len() implies (#[trigger] rest[i]).accs.len() == n by {
            assert(rest[i] == lots[i]);
        }
        lemma_total_len(rest, key, n);
        assert(lots[lots.len() - 1].accs.len() == n);
    }
}

proof fn lemma_total_append(a: Seq<GroupView>, b: Seq<GroupView>, key: Texts, n: nat)
    requires
        uniform(a, n),
        uniform(b, n),
    ensures
        total(a + b, key) == together(total(a, key), total(b, key)),
    decreases b.len(),
{
    if b.len() == 0 {
        assert(a + b =~= a);
    } else {
        let rest = b.drop_last();
        assert forall|i: int| 0 <= i < rest.len() implies (#[trigger] rest[i]).accs.len() == n by {
            assert(rest[i] == b[i]);
        }
        assert((a + b).drop_last() =~= a + rest);
        assert((a + b).last() == b.last());
        lemma_total_append(a, rest, key, n);
        lemma_total_len(a, key, n);
        lemma_total_len(rest, key, n);
        assert(b[b.len() - 1].accs.len() == n);
        if b.last().key == key && total(a, key) is Some && total(rest, key) is Some {
            lemma_merge_all_assoc(total(a, key)->0, total(rest, key)->0, b.last().accs);
        }
    }
}

/// With each key once, the total of a key is what stands under it.
proof fn lemma_total_of_distinct(groups: Seq<GroupView>, i: int)
    requires
        keys_of(groups).no_duplicates(),
        0 <= i < groups.len(),
    ensures
        total(groups, groups[i].key) == Some(groups[i].accs),
    decreases groups.len(),
{
    let rest = groups.drop_last();
    let key = groups[i].key;
    assert(keys_of(rest) =~= keys_of(groups).drop_last());
    assert forall|a: int, b: int| 0 <= a < b < rest.len() implies keys_of(rest)[a] != keys_of(
        rest,
    )[b] by {
        assert(keys_of(groups)[a] != keys_of(groups)[b]);
    }
    if i < rest.len() {
        lemma_total_of_distinct(rest, i);
        assert(keys_of(groups)[i] != keys_of(groups)[groups.len() - 1]);
        assert(rest[i] == groups[i]);
    } else {
        lemma_total_some(rest, key);
        if keys_of(rest).contains(key) {
            let j = choose|j: int| 0 <= j < rest.len() && keys_of(rest)[j] == key;
            assert(keys_of(groups)[j] == keys_of(groups)[i]);
        }
    }
}

proof fn lemma_total_of_gathered(lots: Seq<GroupView>, key: Texts)
    ensures
        total(gathered(lots), key) == total(lots, key),
{
    let g = gathered(lots);
    law_gathering_totals_each_key(lots);
    lemma_total_some(g, key);
    lemma_total_some(lots, key);
    lemma_first_seen(keys_of(lots));
    if keys_of(g).contains(key) {
        let i = choose|i: int| 0 <= i < g.len() && keys_of(g)[i] == key;
        assert(g[i].key == key);
        lemma_total_of_distinct(g, i);
    }
}

proof fn lemma_gathered_uniform(lots: Seq<GroupView>, n: nat)
    requires
        uniform(lots, n),
    ensures
        uniform(gathered(lots), n),
{
    law_gathering_totals_each_key(lots);
    let g = gathered(lots);
    assert forall|i: int| 0 <= i < g.len() implies (#[trigger] g[i]).accs.len() == n by {
        assert(total(lots, g[i].key) == Some(g[i].accs));
        lemma_total_len(lots, g[i].key, n);
    }
}

/// What is seen first in two sequences: what is seen first in one, then what the other has more.
proof fn lemma_first_seen_append<T>(x: Seq<T>, y: Seq<T>)
    ensures
        first_seen(x + y) == first_seen(x) + first_seen(y).filter(|k: T| !x.contains(k)),
    decreases y.len(),
{
    let fresh = |k: T| !x.contains(k);
    reveal(Seq::filter);
    if y.len() == 0 {
        assert(x + y =~= x);
        assert(first_seen(y).filter(fresh) =~= Seq::empty());
        assert(first_seen(x) + Seq::empty() =~= first_seen(x));
    } else {
        let rest = y.drop_last();
        let k = y.last();
        lemma_first_seen_append(x, rest);
        assert((x + y).drop_last() =~= x + rest);
        let before = first_seen(rest).filter(fresh);
        lemma_first_seen(x);
        lemma_first_seen(rest);
        lemma_first_seen(x + rest);
        assert((x + rest).contains(k) == (x.contains(k) || rest.contains(k))) by {
            if x.contains(k) {
                let i = choose|i: int| 0 <= i < x.len() && x[i] == k;
                assert((x + rest)[i] == k);
            }
            if rest.contains(k) {
                let i = choose|i: int| 0 <= i < rest.len() && rest[i] == k;
                assert((x + rest)[x.len() + i] == k);
            }
        }
        assert(first_seen(x + rest).contains(k) == (x + rest).contains(k));
        if !rest.contains(k) {
            let more = first_seen(rest).push(k);
            assert(more.drop_last() =~= first_seen(rest));
            assert(first_seen(y) == more);
            assert(more.filter(fresh) == if fresh(k) {
                before.push(k)
            } else {
                before
            });
        }
        assert(first_seen(x + y) =~= first_seen(x) + first_seen(y).filter(fresh));
    }
}

proof fn lemma_first_seen_same<T>(x: Seq<T>)
    requires
        x.no_duplicates(),
    ensures
        first_seen(x) == x,
    decreases x.len(),
{
    if x.len() > 0 {
        let rest = x.drop_last();
        assert(rest.no_duplicates());
        lemma_first_seen_same(rest);
        assert(!rest.contains(x.last())) by {
            if rest.contains(x.last()) {
                let i = choose|i: int| 0 <= i < rest.len() && rest[i] == x.last();
                assert(x[i] == x[x.len() - 1]);
            }
        }
        assert(rest.push(x.last()) =~= x);
    }
}

proof fn lemma_first_seen_of_parts<T>(x: Seq<T>, y: Seq<T>)
    ensures
        first_seen(first_seen(x) + first_seen(y)) == first_seen(x + y),
{
    let (p, q) = (first_seen(x), first_seen(y));
    lemma_first_seen(x);
    lemma_first_seen(y);
    lemma_first_seen_same(p);
    lemma_first_seen_same(q);
    lemma_first_seen_append(p, q);
    lemma_first_seen_append(x, y);
    lemma_same_filter(q, |k: T| !p.contains(k), |k: T| !x.contains(k));
}

proof fn lemma_same_filter<T>(s: Seq<T>, f: spec_fn(T) -> bool, g: spec_fn(T) -> bool)
    requires
        forall|k: T| #[trigger] f(k) == g(k),
    ensures
        s.filter(f) == s.filter(g),
    decreases s.len(),
{
    reveal(Seq::filter);
    if s.len() > 0 {
        lemma_same_filter(s.drop_last(), f, g);
    } else {
        assert(s.filter(f) =~= s.filter(g));
    }
}

/// Gathering what was gathered in two parts is the same as gathering all at once.
pub proof fn law_gathering_parts(a: Seq<GroupView>, b: Seq<GroupView>, n: nat)
    requires
        uniform(a, n),
        uniform(b, n),
    ensures
        gathered(gathered(a) + gathered(b)) == gathered(a + b),
{
    let (ga, gb) = (gathered(a), gathered(b));
    let left = gathered(ga + gb);
    let right = gathered(a + b);
    law_gathering_totals_each_key(a);
    law_gathering_totals_each_key(b);
    law_gathering_totals_each_key(ga + gb);
    law_gathering_totals_each_key(a + b);
    lemma_gathered_uniform(a, n);
    lemma_gathered_uniform(b, n);
    assert(keys_of(ga + gb) =~= keys_of(ga) + keys_of(gb));
    assert(keys_of(a + b) =~= keys_of(a) + keys_of(b));
    lemma_first_seen_of_parts(keys_of(a), keys_of(b));
    assert(keys_of(left) == keys_of(right));
    assert forall|i: int| 0 <= i < left.len() implies left[i] == right[i] by {
        assert(keys_of(left)[i] == keys_of(right)[i]);
        let key = left[i].key;
        assert(right[i].key == key);
        lemma_total_append(ga, gb, key, n);
        lemma_total_append(a, b, key, n);
        lemma_total_of_gathered(a, key);
        lemma_total_of_gathered(b, key);
        assert(total(ga + gb, key) == Some(left[i].accs));
        assert(total(a + b, key) == Some(right[i].accs));
    }
    assert(keys_of(left).len() == left.len() && keys_of(right).len() == right.len());
    assert(left =~= right);
}

proof fn lemma_gathering_again(a: Seq<GroupView>, n: nat)
    requires
        uniform(a, n),
    ensures
        gathered(gathered(a)) == gathered(a),
{
    let none = Seq::<GroupView>::empty();
    law_gathering_parts(a, none, n);
    assert(gathered(a) + gathered(none) =~= gathered(a));
    assert(a + none =~= a);
}

/// All entries of several members.
pub open spec fn all_entries(parts: Seq<Seq<EntryView>>) -> Seq<EntryView>
    decreases parts.len(),
{
    if parts.len() == 0 {
        Seq::empty()
    } else {
        all_entries(parts.drop_last()) + parts.last()
    }
}

/// The partial results of several members.
pub open spec fn partials_of<E: FieldExtractor>(
    select: Select,
    parts: Seq<Seq<EntryView>>,
    ex: E,
    key_col: Option<Seq<char>>,
    probes: Seq<ProbeView>,
) -> Seq<Seq<GroupView>> {
    Seq::new(parts.len(), |i: int| partial_of(select, parts[i], ex, key_col, probes))
}

/// Splitting the entries over members in any way and merging the members' partial results is the
/// same as one run over all entries.
pub proof fn law_split_then_merge<E: FieldExtractor>(
    select: Select,
    parts: Seq<Seq<EntryView>>,
    ex: E,
    key_col: Option<Seq<char>>,
    probes: Seq<ProbeView>,
)
    ensures
        gathered(all_groups(partials_of(select, parts, ex, key_col, probes))) == partial_of(
            select,
            all_entries(parts),
            ex,
            key_col,
            probes,
        ),
        uniform(
            all_groups(partials_of(select, parts, ex, key_col, probes)),
            agg_columns(views(select.cols@)).len(),
        ),
    decreases parts.len(),
{
    let n = agg_columns(views(select.cols@)).len();
    let ps = partials_of(select, parts, ex, key_col, probes);
    let f = |e: EntryView| passes(select.filter, extraction(ex, e.1), probes);
    if parts.len() == 0 {
        assert(all_entries(parts).filter(f) =~= Seq::empty()) by {
            reveal(Seq::filter);
        }
        assert(contributions(select, ex, Seq::empty(), key_col) =~= Seq::empty());
    } else {
        let rest = parts.drop_last();
        law_split_then_merge(select, rest, ex, key_col, probes);
        let x = all_groups(partials_of(select, rest, ex, key_col, probes));
        assert(ps.drop_last() =~= partials_of(select, rest, ex, key_col, probes));
        let before = all_entries(rest);
        let last = parts.last();
        let (ma, mb) = (before.filter(f), last.filter(f));
        let a = contributions(select, ex, ma, key_col);
        let b = contributions(select, ex, mb, key_col);
        Seq::filter_distributes_over_add(before, last, f);
        assert(contributions(select, ex, ma + mb, key_col) =~= a + b);
        let gb = gathered(b);
        assert(uniform(a, n) && uniform(b, n));
        lemma_gathered_uniform(b, n);
        assert(uniform(x + gb, n)) by {
            assert forall|i: int| 0 <= i < (x + gb).len() implies (#[trigger] (x
                + gb)[i]).accs.len() == n by {
                if i < x.len() {
                    assert((x + gb)[i] == x[i]);
                } else {
                    assert((x + gb)[i] == gb[i - x.len()]);
                }
            }
        }
        law_gathering_parts(x, gb, n);
        lemma_gathering_again(b, n);
        law_gathering_parts(a, b, n);
    }
}

/// The groups of a partial result have an accumulator for each aggregate column.
pub proof fn law_partials_are_complete<E: FieldExtractor>(
    select: Select,
    entries: Seq<EntryView>,
    ex: E,
    key_col: Option<Seq<char>>,
    probes: Seq<ProbeView>,
)
    ensures
        complete(select, partial_of(select, entries, ex, key_col, probes)),
{
    let n = agg_columns(views(select.cols@)).len();
    let lots = contributions(
        select,
        ex,
        matched(select.filter, ex, entries, probes),
        key_col,
    );
    assert(uniform(lots, n));
    lemma_gathered_uniform(lots, n);
}

/// The coordinator orders by the column of ORDER BY, whatever table it names, if there is one of
/// that name, in the direction that it says.
pub proof fn law_coordinators_order_by_the_column(
    select: Select,
    columns: Seq<Seq<char>>,
    c: int,
)
    requires
        columns.len() <= usize::MAX,
        0 <= c < columns.len(),
        forall|i: int| 0 <= i < c ==> columns[i] != columns[c],
    ensures
        select.order_by matches Some((col, desc)) ==> (bare(col@) == columns[c] ==> (
        coordinator_order(select, columns) matches Some(how) && ordered_by(how) == Some(
            (c as usize, desc),
        ))),
        select.order_by matches Some((col, desc)) ==> (!columns.contains(bare(col@))
            ==> coordinator_order(select, columns) == Some(RowOrder::Given)),
        select.order_by is None ==> coordinator_order(select, columns) is None,
{
    if let Some((col, desc)) = select.order_by {
        lemma_name_found(columns, bare(col@), 0, c);
    }
}

/// The time of an entry for its window: an integer as it is, a double cut towards zero; what is no
/// number counts as zero.
pub proof fn law_times_are_numbers(i: i32, n: i64, bits: u64, t: Seq<char>, b: bool)
    ensures
        time_of(ValueView::I32(i)) == i,
        time_of(ValueView::I64(n)) == n,
        time_of(ValueView::F64(bits, t)) == truncated(bits),
        time_of(ValueView::Str(t)) == 0,
        time_of(ValueView::Bool(b)) == 0,
        time_of(ValueView::Null) == 0,
{
}

/// Which SELECTs aggregate: those with windows, with GROUP BY, or with an aggregate among their
/// columns.
pub proof fn law_aggregating_selects(cols: Seq<ColExprView>, i: int)
    requires
        0 <= i < cols.len(),
    ensures
        !(cols[i] is Col) ==> any_aggregates(cols),
        any_aggregates(cols) ==> exists|k: int| 0 <= k < cols.len() && !((#[trigger] cols[k]) is Col),
{
    if !(cols[i] is Col) {
        assert(super::exec::aggregates(cols[i]));
    }
    if any_aggregates(cols) {
        let k = choose|k: int| 0 <= k < cols.len() && super::exec::aggregates(#[trigger] cols[k]);
        assert(!(cols[k] is Col));
    }
}

} // verus!
