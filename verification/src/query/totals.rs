//! What an aggregating SELECT comes to: which entries make up a row, and what stands in its cells.

use vstd::prelude::*;
use super::distributed::{
    acc_cell, addend, agg_columns, all_entries, all_groups, better, bounds, contribution,
    contributions, entry_accs, entry_key, final_cell, final_row, final_rows, gathered,
    group_columns, joined, key_cell, keys_of, kind_of, law_gathering_totals_each_key,
    law_split_then_merge, merge_all, no_number, partials_of, time_of, total, unit_acc,
    window_start, without_bounds, AccView, AggKind, GroupView,
};
use super::agg::{
    extreme, law_extreme_is_one_of_the_values, law_nothing_beats_the_extreme, numbers, present,
};
use super::exec::{
    aggregates, column_of, entry_texts, entry_values, first_seen, group_keys, group_members,
    group_rows, grouping, lemma_first_seen, matched, name_position, result_columns, result_rows,
    CellView, EntryView,
};
use super::json::{key_value, FieldExtractor};
use super::predicate::{bare, holds, ProbeView};
use super::sql::{ColExprView, Select};
use super::value::{law_numbers_compare_by_value, num_order, NumView, ValueView};
use crate::model::{opt_view, views};
use crate::number::{law_numerals_read_back, numeral, numeral_text};
use crate::order::Order;

verus! {

/// The text of an entry under a column: of its key, if that is the key column, or of the field of
/// its value.
pub open spec fn text_under<E: FieldExtractor>(
    ex: E,
    e: EntryView,
    col: Seq<char>,
    key_col: Option<Seq<char>>,
) -> Option<Seq<char>> {
    if key_col == Some(col) {
        key_value(e.0).text()
    } else {
        ex.extracted(e.1, col).text()
    }
}

/// The number of the window that an entry falls in: how many sizes its time comes to, rounded
/// down.
pub open spec fn slot<E: FieldExtractor>(select: Select, ex: E, e: EntryView) -> int {
    match select.window {
        Some(w) => time_of(ex.extracted(e.1, w.ts_col@)) as int / w.size as int,
        None => 0,
    }
}

/// Whether the bounds of an entry's window stay within an `i64`.
pub open spec fn slot_fits<E: FieldExtractor>(select: Select, ex: E, e: EntryView) -> bool {
    select.window matches Some(w) ==> w.size > 0 && i64::MIN <= w.size * slot(select, ex, e)
        && w.size * slot(select, ex, e) + w.size <= i64::MAX
}

/// The text of an entry under a column that is grouped by: a bound of its window, or its own.
pub open spec fn grouped_text<E: FieldExtractor>(
    select: Select,
    ex: E,
    e: EntryView,
    col: Seq<char>,
    key_col: Option<Seq<char>>,
) -> Option<Seq<char>> {
    match select.window {
        Some(w) => {
            let start = w.size * slot(select, ex, e);
            if col == "window_start"@ {
                Some(numeral_text(start))
            } else if col == "window_end"@ {
                Some(numeral_text(start + w.size))
            } else {
                text_under(ex, e, col, key_col)
            }
        },
        None => text_under(ex, e, col, key_col),
    }
}

/// Whether rows are grouped by a column: it stands in GROUP BY, or is a bound of the windows.
pub open spec fn is_grouped(select: Select, col: Seq<char>) -> bool {
    grouping(select).contains(col) || (select.window is Some && (col == "window_start"@ || col
        == "window_end"@))
}

/// Whether two entries fall in one group: in one window, and with the same text under every column
/// that is grouped by.
pub open spec fn alike<E: FieldExtractor>(
    select: Select,
    ex: E,
    key_col: Option<Seq<char>>,
    a: EntryView,
    b: EntryView,
) -> bool {
    &&& slot(select, ex, a) == slot(select, ex, b)
    &&& forall|col: Seq<char>| #[trigger]
        grouping(select).contains(col) ==> grouped_text(select, ex, a, col, key_col)
            == grouped_text(select, ex, b, col, key_col)
}

/// The entries that fall in one group with `head`, in order.
pub open spec fn group_of<E: FieldExtractor>(
    select: Select,
    ex: E,
    key_col: Option<Seq<char>>,
    found: Seq<EntryView>,
    head: EntryView,
) -> Seq<EntryView>
    decreases found.len(),
{
    if found.len() == 0 {
        found
    } else {
        let before = group_of(select, ex, key_col, found.drop_last(), head);
        if alike(select, ex, key_col, head, found.last()) {
            before.push(found.last())
        } else {
            before
        }
    }
}

/// The numbers that entries have under a column, in order.
pub open spec fn numbers_under<E: FieldExtractor>(
    ex: E,
    entries: Seq<EntryView>,
    col: Seq<char>,
) -> Seq<NumView>
    decreases entries.len(),
{
    if entries.len() == 0 {
        Seq::empty()
    } else {
        let before = numbers_under(ex, entries.drop_last(), col);
        match ex.extracted(entries.last().1, col).num() {
            Some(n) => before.push(n),
            None => before,
        }
    }
}

/// Whether `m` is one of some numbers and none of them stands as `wanted` to it; what is not a
/// number counts only if there is nothing else.
pub open spec fn is_extreme(m: NumView, numbers: Seq<NumView>, wanted: Order) -> bool {
    &&& numbers.contains(m)
    &&& forall|i: int|
        0 <= i < numbers.len() ==> num_order(#[trigger] numbers[i], m) != Some(wanted)
    &&& no_number(m) ==> forall|i: int| 0 <= i < numbers.len() ==> no_number(#[trigger] numbers[i])
}

/// Whether a cell is what a column asks of a group of entries: under a column that is grouped by,
/// the text that they all have there; COUNT is how many they are; SUM and AVG are over the numbers
/// that they have under the column, MIN and MAX the least and the greatest of those; null without
/// numbers, and under a plain column that is not grouped by.
pub open spec fn is_cell_of<E: FieldExtractor>(
    cell: CellView,
    select: Select,
    ex: E,
    key_col: Option<Seq<char>>,
    col: ColExprView,
    group: Seq<EntryView>,
) -> bool {
    match col {
        ColExprView::Col(n) => if is_grouped(select, bare(n)) {
            forall|i: int|
                0 <= i < group.len() ==> cell == CellView::Text(
                    grouped_text(select, ex, #[trigger] group[i], bare(n), key_col),
                )
        } else {
            cell == CellView::Text(None)
        },
        ColExprView::Count(n) => cell == CellView::Text(Some(numeral_text(group.len() as int))),
        ColExprView::Sum(n) => {
            let numbers = numbers_under(ex, group, bare(n));
            cell == if numbers.len() > 0 {
                CellView::Sum(numbers)
            } else {
                CellView::Text(None)
            }
        },
        ColExprView::Avg(n) => {
            let numbers = numbers_under(ex, group, bare(n));
            cell == if numbers.len() > 0 {
                CellView::Mean(numbers, numbers.len() as i64)
            } else {
                CellView::Text(None)
            }
        },
        ColExprView::Min(n) => is_extreme_cell(
            cell,
            numbers_under(ex, group, bare(n)),
            Order::Less,
        ),
        ColExprView::Max(n) => is_extreme_cell(
            cell,
            numbers_under(ex, group, bare(n)),
            Order::Greater,
        ),
    }
}

pub open spec fn is_extreme_cell(cell: CellView, numbers: Seq<NumView>, wanted: Order) -> bool {
    if numbers.len() > 0 {
        cell matches CellView::Number(m) && is_extreme(m, numbers, wanted)
    } else {
        cell == CellView::Text(None)
    }
}

/// Whether rows are those of groups: one for each group, with what its columns ask for.
pub open spec fn are_rows_of<E: FieldExtractor>(
    rows: Seq<Seq<CellView>>,
    heads: Seq<EntryView>,
    select: Select,
    ex: E,
    key_col: Option<Seq<char>>,
    found: Seq<EntryView>,
) -> bool {
    let cols = views(select.cols@);
    &&& heads.len() == rows.len()
    &&& forall|i: int| 0 <= i < heads.len() ==> found.contains(#[trigger] heads[i])
    &&& forall|i: int, j: int|
        0 <= i < j < heads.len() ==> !alike(
            select,
            ex,
            key_col,
            #[trigger] heads[i],
            #[trigger] heads[j],
        )
    &&& forall|e: EntryView| #[trigger]
        found.contains(e) ==> has_head(heads, select, ex, key_col, e)
    &&& forall|i: int| 0 <= i < rows.len() ==> (#[trigger] rows[i]).len() == cols.len()
    &&& forall|i: int, c: int|
        0 <= i < rows.len() && 0 <= c < cols.len() ==> is_cell_of(
            #[trigger] rows[i][c],
            select,
            ex,
            key_col,
            cols[c],
            group_of(select, ex, key_col, found, heads[i]),
        )
}

pub open spec fn has_head<E: FieldExtractor>(
    heads: Seq<EntryView>,
    select: Select,
    ex: E,
    key_col: Option<Seq<char>>,
    e: EntryView,
) -> bool {
    exists|i: int| 0 <= i < heads.len() && alike(select, ex, key_col, #[trigger] heads[i], e)
}

// ---- group keys ----

proof fn lemma_without_bounds(names: Seq<Seq<char>>, n: Seq<char>)
    ensures
        without_bounds(names).contains(n) <==> names.contains(n) && n != "window_start"@ && n
            != "window_end"@,
    decreases names.len(),
{
    if names.len() > 0 {
        let rest = names.drop_last();
        lemma_without_bounds(rest, n);
        vstd::seq_lib::lemma_seq_contains_after_push(rest, names.last(), n);
        assert(rest.push(names.last()) =~= names);
        vstd::seq_lib::lemma_seq_contains_after_push(without_bounds(rest), names.last(), n);
    }
}

proof fn lemma_group_columns(select: Select, n: Seq<char>)
    ensures
        group_columns(select).contains(n) <==> is_grouped(select, n),
{
    let g = group_columns(select);
    if select.window is Some {
        let rest = without_bounds(grouping(select));
        let b = seq!["window_start"@, "window_end"@];
        lemma_without_bounds(grouping(select), n);
        if rest.contains(n) {
            let i = choose|i: int| 0 <= i < rest.len() && rest[i] == n;
            assert(g[i + 2] == n);
        }
        assert(g[0] == "window_start"@ && g[1] == "window_end"@);
        if g.contains(n) {
            let i = choose|i: int| 0 <= i < g.len() && g[i] == n;
            if i >= 2 {
                assert(rest[i - 2] == n);
            }
        }
    }
}

proof fn lemma_key_cell<E: FieldExtractor>(
    select: Select,
    ex: E,
    key_col: Option<Seq<char>>,
    e: EntryView,
    col: Seq<char>,
)
    requires
        slot_fits(select, ex, e),
    ensures
        key_cell(ex, e, col, key_col, bounds(opt_view(select.window), ex, e.1)) == grouped_text(
            select,
            ex,
            e,
            col,
            key_col,
        ),
{
    if let Some(w) = select.window {
        let t = time_of(ex.extracted(e.1, w.ts_col@)) as int;
        vstd::arithmetic::div_mod::lemma_fundamental_div_mod(t, w.size as int);
        vstd::arithmetic::div_mod::lemma_mod_bound(t, w.size as int);
        assert(window_start(t as i64, w.size) == w.size * slot(select, ex, e));
    }
}

/// Different numbers have different numerals.
proof fn lemma_numerals_differ(a: i64, b: i64)
    requires
        numeral_text(a as int) == numeral_text(b as int),
    ensures
        a == b,
{
    let (x, y) = (numeral(a as int), numeral(b as int));
    law_numerals_read_back(a);
    law_numerals_read_back(b);
    assert(x =~= y) by {
        assert(x.len() == numeral_text(a as int).len());
        assert(y.len() == numeral_text(b as int).len());
        assert forall|i: int| 0 <= i < x.len() implies x[i] == y[i] by {
            assert(numeral_text(a as int)[i] == x[i] as char);
            assert(numeral_text(b as int)[i] == y[i] as char);
        }
    }
}

pub open spec fn key_of<E: FieldExtractor>(
    select: Select,
    ex: E,
    key_col: Option<Seq<char>>,
    e: EntryView,
) -> Seq<Option<Seq<char>>> {
    contribution(select, ex, e, key_col).key
}

/// Entries have one group key exactly if they fall in one group.
proof fn lemma_keys_tell<E: FieldExtractor>(
    select: Select,
    ex: E,
    key_col: Option<Seq<char>>,
    a: EntryView,
    b: EntryView,
)
    requires
        slot_fits(select, ex, a),
        slot_fits(select, ex, b),
    ensures
        key_of(select, ex, key_col, a) == key_of(select, ex, key_col, b) <==> alike(
            select,
            ex,
            key_col,
            a,
            b,
        ),
{
    let g = group_columns(select);
    let (x, y) = (key_of(select, ex, key_col, a), key_of(select, ex, key_col, b));
    assert forall|i: int| 0 <= i < g.len() implies x[i] == grouped_text(
        select,
        ex,
        a,
        #[trigger] g[i],
        key_col,
    ) && y[i] == grouped_text(select, ex, b, g[i], key_col) by {
        lemma_key_cell(select, ex, key_col, a, g[i]);
        lemma_key_cell(select, ex, key_col, b, g[i]);
    }
    if x == y {
        if let Some(w) = select.window {
            assert(g[0] == "window_start"@);
            let (p, q) = (slot(select, ex, a), slot(select, ex, b));
            assert(x[0] == y[0]);
            lemma_numerals_differ((w.size * p) as i64, (w.size * q) as i64);
            assert(p == q) by (nonlinear_arith)
                requires
                    w.size * p == w.size * q,
                    w.size > 0,
            ;
        }
        assert forall|col: Seq<char>| #[trigger] grouping(select).contains(col) implies grouped_text(
            select,
            ex,
            a,
            col,
            key_col,
        ) == grouped_text(select, ex, b, col, key_col) by {
            lemma_group_columns(select, col);
            let i = choose|i: int| 0 <= i < g.len() && g[i] == col;
            assert(x[i] == y[i]);
        }
    }
    if alike(select, ex, key_col, a, b) {
        assert forall|i: int| 0 <= i < g.len() implies x[i] == y[i] by {
            assert(g.contains(g[i]));
            lemma_group_columns(select, g[i]);
        }
        assert(x =~= y);
    }
}

// ---- accumulators ----

/// What entries accumulate to for an aggregate.
spec fn acc_over<E: FieldExtractor>(
    ex: E,
    group: Seq<EntryView>,
    agg: (AggKind, Seq<char>),
) -> AccView
    decreases group.len(),
{
    let last = unit_acc(addend(ex, group.last().1, agg));
    if group.len() <= 1 {
        last
    } else {
        acc_over(ex, group.drop_last(), agg).merge(last)
    }
}

proof fn lemma_better(a: NumView, b: NumView, numbers: Seq<NumView>, wanted: Order)
    requires
        is_extreme(a, numbers, wanted),
        wanted != Order::Equal,
    ensures
        is_extreme(better(a, b, wanted), numbers.push(b), wanted),
{
    let m = better(a, b, wanted);
    let all = numbers.push(b);
    assert(all[numbers.len() as int] == b);
    let k = choose|k: int| 0 <= k < numbers.len() && numbers[k] == a;
    assert(all[k] == a);
    law_numbers_compare_by_value(b, a);
    law_numbers_compare_by_value(a, b);
    assert forall|i: int| 0 <= i < all.len() implies num_order(#[trigger] all[i], m) != Some(
        wanted,
    ) && (no_number(m) ==> no_number(all[i])) by {
        law_numbers_compare_by_value(all[i], m);
        law_numbers_compare_by_value(all[i], a);
        if i < numbers.len() {
            assert(all[i] == numbers[i]);
            assert(num_order(numbers[i], a) != Some(wanted));
        }
    }
}

proof fn lemma_acc_over<E: FieldExtractor>(
    ex: E,
    group: Seq<EntryView>,
    agg: (AggKind, Seq<char>),
)
    requires
        0 < group.len() <= i64::MAX,
    ensures
        ({
            let acc = acc_over(ex, group, agg);
            let numbers = numbers_under(ex, group, agg.1);
            &&& acc.rows == group.len()
            &&& agg.0 != AggKind::Count ==> {
                &&& acc.addends == numbers
                &&& acc.nvals == numbers.len()
                &&& numbers.len() <= group.len()
                &&& match acc.extremes {
                    Some((lo, hi)) => is_extreme(lo, numbers, Order::Less) && is_extreme(
                        hi,
                        numbers,
                        Order::Greater,
                    ),
                    None => numbers.len() == 0,
                }
            }
        }),
    decreases group.len(),
{
    let rest = group.drop_last();
    let before = numbers_under(ex, rest, agg.1);
    let numbers = numbers_under(ex, group, agg.1);
    let n = ex.extracted(group.last().1, agg.1).num();
    if group.len() == 1 {
        assert(rest =~= Seq::empty());
        assert(before =~= Seq::empty());
        if let Some(x) = n {
            assert(numbers =~= seq![x]);
            assert(numbers[0] == x);
            law_numbers_compare_by_value(x, x);
        }
    } else {
        lemma_acc_over(ex, rest, agg);
        let acc = acc_over(ex, rest, agg);
        if agg.0 != AggKind::Count {
            match n {
                Some(x) => {
                    assert(numbers =~= before + seq![x]);
                    match acc.extremes {
                        Some((lo, hi)) => {
                            lemma_better(lo, x, before, Order::Less);
                            lemma_better(hi, x, before, Order::Greater);
                        },
                        None => {
                            assert(numbers =~= seq![x]);
                            assert(numbers[0] == x);
                            law_numbers_compare_by_value(x, x);
                        },
                    }
                },
                None => {
                    assert(acc.addends + Seq::<NumView>::empty() =~= acc.addends);
                },
            }
        }
    }
}

/// What a group key totals to: what its entries accumulate to, aggregate by aggregate.
proof fn lemma_total<E: FieldExtractor>(
    select: Select,
    ex: E,
    key_col: Option<Seq<char>>,
    found: Seq<EntryView>,
    head: EntryView,
)
    requires
        slot_fits(select, ex, head),
        forall|i: int| 0 <= i < found.len() ==> slot_fits(select, ex, #[trigger] found[i]),
    ensures
        ({
            let aggs = agg_columns(views(select.cols@));
            let group = group_of(select, ex, key_col, found, head);
            total(contributions(select, ex, found, key_col), key_of(select, ex, key_col, head))
                == if group.len() == 0 {
                None
            } else {
                Some(Seq::new(aggs.len(), |i: int| acc_over(ex, group, aggs[i])))
            }
        }),
    decreases found.len(),
{
    let aggs = agg_columns(views(select.cols@));
    let key = key_of(select, ex, key_col, head);
    let lots = contributions(select, ex, found, key_col);
    if found.len() > 0 {
        let rest = found.drop_last();
        let e = found.last();
        assert forall|i: int| 0 <= i < rest.len() implies slot_fits(select, ex, #[trigger] rest[i]) by {
            assert(rest[i] == found[i]);
        }
        lemma_total(select, ex, key_col, rest, head);
        assert(lots.drop_last() =~= contributions(select, ex, rest, key_col));
        assert(slot_fits(select, ex, found[found.len() - 1]));
        lemma_keys_tell(select, ex, key_col, head, e);
        let before = group_of(select, ex, key_col, rest, head);
        let group = group_of(select, ex, key_col, found, head);
        let want = Seq::new(aggs.len(), |i: int| acc_over(ex, group, aggs[i]));
        if alike(select, ex, key_col, head, e) {
            assert(group.drop_last() =~= before);
            assert(group.last() == e);
            let units = entry_accs(ex, e.1, aggs);
            if before.len() == 0 {
                assert(units =~= want);
            } else {
                let was = Seq::new(aggs.len(), |i: int| acc_over(ex, before, aggs[i]));
                assert(merge_all(was, units) =~= want);
            }
        } else {
            assert(group == before);
        }
    }
}

proof fn lemma_group_of<E: FieldExtractor>(
    select: Select,
    ex: E,
    key_col: Option<Seq<char>>,
    found: Seq<EntryView>,
    head: EntryView,
)
    ensures
        forall|e: EntryView| #[trigger]
            group_of(select, ex, key_col, found, head).contains(e) <==> found.contains(e) && alike(
                select,
                ex,
                key_col,
                head,
                e,
            ),
        group_of(select, ex, key_col, found, head).len() <= found.len(),
    decreases found.len(),
{
    if found.len() > 0 {
        let rest = found.drop_last();
        lemma_group_of(select, ex, key_col, rest, head);
        let before = group_of(select, ex, key_col, rest, head);
        let group = group_of(select, ex, key_col, found, head);
        assert(rest.push(found.last()) =~= found);
        assert forall|e: EntryView| #[trigger] group.contains(e) <==> found.contains(e) && alike(
            select,
            ex,
            key_col,
            head,
            e,
        ) by {
            vstd::seq_lib::lemma_seq_contains_after_push(rest, found.last(), e);
            vstd::seq_lib::lemma_seq_contains_after_push(before, found.last(), e);
            assert(before.contains(e) <==> rest.contains(e) && alike(select, ex, key_col, head, e));
        }
    }
}

/// Which aggregate column stands at which place.
proof fn lemma_agg_place(cols: Seq<ColExprView>, c: int)
    requires
        0 <= c < cols.len(),
        kind_of(cols[c]) is Some,
    ensures
        ({
            let k = agg_columns(cols.take(c)).len() as int;
            let n = match cols[c] {
                ColExprView::Col(n) => n,
                ColExprView::Count(n) => n,
                ColExprView::Sum(n) => n,
                ColExprView::Avg(n) => n,
                ColExprView::Min(n) => n,
                ColExprView::Max(n) => n,
            };
            &&& k < agg_columns(cols).len()
            &&& agg_columns(cols)[k] == (kind_of(cols[c])->0, bare(n))
        }),
    decreases cols.len(),
{
    if c + 1 < cols.len() {
        let init = cols.drop_last();
        lemma_agg_place(init, c);
        assert(init.take(c) =~= cols.take(c));
    } else {
        assert(cols.drop_last() =~= cols.take(c));
    }
}

proof fn lemma_name_position(names: Seq<Seq<char>>, n: Seq<char>, from: int)
    requires
        0 <= from <= names.len(),
    ensures
        match name_position(names, n, from) {
            Some(k) => from <= k < names.len() && names[k] == n,
            None => forall|k: int| from <= k < names.len() ==> names[k] != n,
        },
    decreases names.len() - from,
{
    if from < names.len() {
        lemma_name_position(names, n, from + 1);
    }
}

/// The cell of a group under a column.
proof fn lemma_cell<E: FieldExtractor>(
    select: Select,
    ex: E,
    key_col: Option<Seq<char>>,
    found: Seq<EntryView>,
    head: EntryView,
    c: int,
)
    requires
        found.contains(head),
        found.len() <= i64::MAX,
        forall|i: int| 0 <= i < found.len() ==> slot_fits(select, ex, #[trigger] found[i]),
        0 <= c < select.cols@.len(),
    ensures
        ({
            let cols = views(select.cols@);
            let aggs = agg_columns(cols);
            let group = group_of(select, ex, key_col, found, head);
            let g = GroupView {
                key: key_of(select, ex, key_col, head),
                accs: Seq::new(aggs.len(), |i: int| acc_over(ex, group, aggs[i])),
            };
            is_cell_of(
                final_cell(cols, c, group_columns(select), g),
                select,
                ex,
                key_col,
                cols[c],
                group,
            )
        }),
{
    let cols = views(select.cols@);
    let aggs = agg_columns(cols);
    let group = group_of(select, ex, key_col, found, head);
    let g = GroupView {
        key: key_of(select, ex, key_col, head),
        accs: Seq::new(aggs.len(), |i: int| acc_over(ex, group, aggs[i])),
    };
    lemma_group_of(select, ex, key_col, found, head);
    let h = choose|h: int| 0 <= h < found.len() && found[h] == head;
    assert(slot_fits(select, ex, found[h]));
    lemma_keys_tell(select, ex, key_col, head, head);
    assert(group.contains(head));
    match kind_of(cols[c]) {
        Some(kind) => {
            lemma_agg_place(cols, c);
            let k = agg_columns(cols.take(c)).len() as int;
            lemma_acc_over(ex, group, aggs[k]);
        },
        None => {
            let n = bare(cols[c]->Col_0);
            let gcols = group_columns(select);
            lemma_name_position(gcols, n, 0);
            lemma_group_columns(select, n);
            if is_grouped(select, n) {
                let k = name_position(gcols, n, 0)->0;
                assert forall|i: int| 0 <= i < group.len() implies final_cell(cols, c, gcols, g)
                    == CellView::Text(
                    grouped_text(select, ex, #[trigger] group[i], n, key_col),
                ) by {
                    assert(group.contains(group[i]));
                    let j = choose|j: int| 0 <= j < found.len() && found[j] == group[i];
                    assert(slot_fits(select, ex, found[j]));
                    lemma_keys_tell(select, ex, key_col, head, group[i]);
                    lemma_key_cell(select, ex, key_col, group[i], gcols[k]);
                    assert(key_of(select, ex, key_col, group[i])[k] == g.key[k]);
                }
            } else if name_position(gcols, n, 0) is Some {
                assert(gcols.contains(gcols[name_position(gcols, n, 0)->0]));
            }
        },
    }
}

/// An aggregating SELECT over several members gives one row for each group of the entries that
/// pass its filter: entries fall in one group exactly if they have the same text under every
/// GROUP BY column, and the same window. The cells of the row are what its columns ask of the
/// entries of the group.
pub proof fn law_rows_total_their_groups<E: FieldExtractor>(
    select: Select,
    parts: Seq<Seq<EntryView>>,
    ex: E,
    key_col: Option<Seq<char>>,
    probes: Seq<ProbeView>,
)
    requires
        matched(select.filter, ex, all_entries(parts), probes).len() <= i64::MAX,
        forall|i: int|
            0 <= i < matched(select.filter, ex, all_entries(parts), probes).len() ==> slot_fits(
                select,
                ex,
                #[trigger] matched(select.filter, ex, all_entries(parts), probes)[i],
            ),
    ensures
        exists|heads: Seq<EntryView>| #[trigger]
            are_rows_of(
                final_rows(
                    select,
                    gathered(all_groups(partials_of(select, parts, ex, key_col, probes))),
                ),
                heads,
                select,
                ex,
                key_col,
                matched(select.filter, ex, all_entries(parts), probes),
            ),
{
    let found = matched(select.filter, ex, all_entries(parts), probes);
    let lots = contributions(select, ex, found, key_col);
    let groups = gathered(lots);
    law_split_then_merge(select, parts, ex, key_col, probes);
    law_gathering_totals_each_key(lots);
    lemma_first_seen(keys_of(lots));
    let rows = final_rows(select, groups);
    let cols = views(select.cols@);
    let heads = Seq::new(
        groups.len(),
        |i: int| choose|e: EntryView|
            #[trigger] found.contains(e) && key_of(select, ex, key_col, e) == groups[i].key,
    );
    assert forall|i: int| 0 <= i < groups.len() implies found.contains(#[trigger] heads[i])
        && key_of(select, ex, key_col, heads[i]) == groups[i].key by {
        assert(keys_of(groups)[i] == groups[i].key);
        assert(keys_of(groups).contains(groups[i].key));
        assert(keys_of(lots).contains(groups[i].key));
        let k = choose|k: int| 0 <= k < lots.len() && keys_of(lots)[k] == groups[i].key;
        assert(lots[k].key == key_of(select, ex, key_col, found[k]));
        assert(found.contains(found[k]));
    }
    assert forall|e: EntryView| #[trigger] found.contains(e) implies slot_fits(select, ex, e) by {
        let k = choose|k: int| 0 <= k < found.len() && found[k] == e;
        assert(slot_fits(select, ex, found[k]));
    }
    assert forall|i: int, j: int| 0 <= i < j < heads.len() implies !alike(
        select,
        ex,
        key_col,
        #[trigger] heads[i],
        #[trigger] heads[j],
    ) by {
        assert(keys_of(groups)[i] != keys_of(groups)[j]);
        lemma_keys_tell(select, ex, key_col, heads[i], heads[j]);
    }
    assert forall|e: EntryView| #[trigger] found.contains(e) implies has_head(
        heads,
        select,
        ex,
        key_col,
        e,
    ) by {
        let k = choose|k: int| 0 <= k < found.len() && found[k] == e;
        let key = key_of(select, ex, key_col, e);
        assert(keys_of(lots)[k] == key);
        assert(keys_of(lots).contains(key));
        assert(keys_of(groups).contains(key));
        let i = choose|i: int| 0 <= i < groups.len() && keys_of(groups)[i] == key;
        lemma_keys_tell(select, ex, key_col, heads[i], e);
    }
    assert forall|i: int, c: int| 0 <= i < rows.len() && 0 <= c < cols.len() implies is_cell_of(
        #[trigger] rows[i][c],
        select,
        ex,
        key_col,
        cols[c],
        group_of(select, ex, key_col, found, heads[i]),
    ) by {
        assert(found.contains(heads[i]));
        lemma_total(select, ex, key_col, found, heads[i]);
        assert(total(lots, groups[i].key) == Some(groups[i].accs));
        lemma_cell(select, ex, key_col, found, heads[i], c);
    }
    assert(are_rows_of(rows, heads, select, ex, key_col, found));
}

// ---- one member ----

/// The value of an entry under a column: of its key, if that is the key column, or the field of
/// its value.
pub open spec fn value_under<E: FieldExtractor>(
    ex: E,
    e: EntryView,
    col: Seq<char>,
    key_col: Option<Seq<char>>,
) -> ValueView {
    if key_col == Some(col) {
        key_value(e.0)
    } else {
        ex.extracted(e.1, col)
    }
}

/// The values that entries have under a column, in order: those that are numbers, as numbers.
pub open spec fn numbers_of_all<E: FieldExtractor>(
    ex: E,
    entries: Seq<EntryView>,
    col: Seq<char>,
    key_col: Option<Seq<char>>,
) -> Seq<NumView>
    decreases entries.len(),
{
    if entries.len() == 0 {
        Seq::empty()
    } else {
        let before = numbers_of_all(ex, entries.drop_last(), col, key_col);
        match value_under(ex, entries.last(), col, key_col).num() {
            Some(n) => before.push(n),
            None => before,
        }
    }
}

/// Whether two entries have the same text under every one of some columns.
pub open spec fn same_under<E: FieldExtractor>(
    names: Seq<Seq<char>>,
    ex: E,
    key_col: Option<Seq<char>>,
    a: EntryView,
    b: EntryView,
) -> bool {
    forall|i: int|
        0 <= i < names.len() ==> value_under(ex, a, #[trigger] names[i], key_col).text()
            == value_under(ex, b, names[i], key_col).text()
}

/// The entries that have the same text as `head` under every one of some columns, in order.
pub open spec fn same_ones<E: FieldExtractor>(
    names: Seq<Seq<char>>,
    ex: E,
    key_col: Option<Seq<char>>,
    found: Seq<EntryView>,
    head: EntryView,
) -> Seq<EntryView>
    decreases found.len(),
{
    if found.len() == 0 {
        found
    } else {
        let before = same_ones(names, ex, key_col, found.drop_last(), head);
        if same_under(names, ex, key_col, head, found.last()) {
            before.push(found.last())
        } else {
            before
        }
    }
}

/// Whether a cell is the text of the least, or the greatest, value that entries have under a
/// column, null aside: one of them, and none that compares with all others beats it.
pub open spec fn is_extreme_text<E: FieldExtractor>(
    cell: CellView,
    ex: E,
    group: Seq<EntryView>,
    col: Seq<char>,
    key_col: Option<Seq<char>>,
    wanted: Order,
) -> bool {
    if forall|i: int| 0 <= i < group.len() ==> value_under(ex, #[trigger] group[i], col, key_col) is Null {
        cell == CellView::Text(None)
    } else {
        exists|k: int|
            {
                let best = value_under(ex, #[trigger] group[k], col, key_col);
                &&& 0 <= k < group.len()
                &&& !(best is Null)
                &&& cell == CellView::Text(best.text())
                &&& all_compare(ex, group, col, key_col) ==> forall|i: int|
                    0 <= i < group.len() ==> value_under(
                        ex,
                        #[trigger] group[i],
                        col,
                        key_col,
                    ).compare(best) != Some(wanted)
            }
    }
}

/// Whether the values that entries have under a column all compare, null aside.
pub open spec fn all_compare<E: FieldExtractor>(
    ex: E,
    group: Seq<EntryView>,
    col: Seq<char>,
    key_col: Option<Seq<char>>,
) -> bool {
    forall|i: int, j: int|
        0 <= i < group.len() && 0 <= j < group.len() && !(value_under(
            ex,
            #[trigger] group[i],
            col,
            key_col,
        ) is Null) && !(value_under(ex, #[trigger] group[j], col, key_col) is Null) ==> value_under(
            ex,
            group[i],
            col,
            key_col,
        ).compare(value_under(ex, group[j], col, key_col)) is Some
}

/// Whether a cell is what a column asks of a group of entries: a plain column has the text that
/// the first of them has, which all have if it is grouped by; COUNT is how many they are; SUM and
/// AVG are over the numbers that they have under the column; MIN and MAX are the least and the
/// greatest of the values that are not null; null without any.
pub open spec fn is_executed_cell<E: FieldExtractor>(
    cell: CellView,
    ex: E,
    key_col: Option<Seq<char>>,
    col: ColExprView,
    group: Seq<EntryView>,
) -> bool {
    match col {
        ColExprView::Col(n) => cell == CellView::Text(
            value_under(ex, group[0], bare(n), key_col).text(),
        ),
        ColExprView::Count(n) => cell == CellView::Text(Some(numeral_text(group.len() as int))),
        ColExprView::Sum(n) => {
            let ns = numbers_of_all(ex, group, bare(n), key_col);
            cell == if ns.len() > 0 {
                CellView::Sum(ns)
            } else {
                CellView::Text(None)
            }
        },
        ColExprView::Avg(n) => {
            let ns = numbers_of_all(ex, group, bare(n), key_col);
            cell == if ns.len() > 0 {
                CellView::Mean(ns, ns.len() as i64)
            } else {
                CellView::Text(None)
            }
        },
        ColExprView::Min(n) => is_extreme_text(cell, ex, group, bare(n), key_col, Order::Less),
        ColExprView::Max(n) => is_extreme_text(cell, ex, group, bare(n), key_col, Order::Greater),
    }
}

/// Whether rows are those of the groups that entries with the same texts make up.
pub open spec fn are_executed_rows<E: FieldExtractor>(
    rows: Seq<Seq<CellView>>,
    heads: Seq<EntryView>,
    cols: Seq<ColExprView>,
    names: Seq<Seq<char>>,
    ex: E,
    key_col: Option<Seq<char>>,
    found: Seq<EntryView>,
) -> bool {
    &&& heads.len() == rows.len()
    &&& forall|i: int| 0 <= i < heads.len() ==> found.contains(#[trigger] heads[i])
    &&& forall|i: int, j: int|
        0 <= i < j < heads.len() ==> !same_under(
            names,
            ex,
            key_col,
            #[trigger] heads[i],
            #[trigger] heads[j],
        )
    &&& forall|e: EntryView| #[trigger]
        found.contains(e) ==> exists|i: int|
            0 <= i < heads.len() && same_under(names, ex, key_col, #[trigger] heads[i], e)
    &&& forall|i: int| 0 <= i < rows.len() ==> (#[trigger] rows[i]).len() == cols.len()
    &&& forall|i: int, c: int|
        0 <= i < rows.len() && 0 <= c < cols.len() ==> is_executed_cell(
            #[trigger] rows[i][c],
            ex,
            key_col,
            cols[c],
            same_ones(names, ex, key_col, found, heads[i]),
        )
}

proof fn lemma_texts_tell<E: FieldExtractor>(
    names: Seq<Seq<char>>,
    ex: E,
    key_col: Option<Seq<char>>,
    a: EntryView,
    b: EntryView,
)
    ensures
        entry_texts(ex, a, names, key_col) == entry_texts(ex, b, names, key_col) <==> same_under(
            names,
            ex,
            key_col,
            a,
            b,
        ),
{
    let (x, y) = (entry_texts(ex, a, names, key_col), entry_texts(ex, b, names, key_col));
    if same_under(names, ex, key_col, a, b) {
        assert(x =~= y);
    }
    if x == y {
        assert forall|i: int| 0 <= i < names.len() implies value_under(
            ex,
            a,
            #[trigger] names[i],
            key_col,
        ).text() == value_under(ex, b, names[i], key_col).text() by {
            assert(x[i] == y[i]);
        }
    }
}

proof fn lemma_members<E: FieldExtractor>(
    names: Seq<Seq<char>>,
    ex: E,
    key_col: Option<Seq<char>>,
    found: Seq<EntryView>,
    head: EntryView,
)
    ensures
        group_members(ex, found, names, key_col, entry_texts(ex, head, names, key_col))
            == same_ones(names, ex, key_col, found, head),
        forall|e: EntryView| #[trigger]
            same_ones(names, ex, key_col, found, head).contains(e) <==> found.contains(e)
                && same_under(names, ex, key_col, head, e),
        same_ones(names, ex, key_col, found, head).len() <= found.len(),
    decreases found.len(),
{
    reveal(Seq::filter);
    let key = entry_texts(ex, head, names, key_col);
    if found.len() > 0 {
        let rest = found.drop_last();
        let last = found.last();
        lemma_members(names, ex, key_col, rest, head);
        lemma_texts_tell(names, ex, key_col, head, last);
        let before = same_ones(names, ex, key_col, rest, head);
        let all = same_ones(names, ex, key_col, found, head);
        assert(rest.push(last) =~= found);
        assert forall|e: EntryView| #[trigger] all.contains(e) <==> found.contains(e) && same_under(
            names,
            ex,
            key_col,
            head,
            e,
        ) by {
            vstd::seq_lib::lemma_seq_contains_after_push(rest, last, e);
            vstd::seq_lib::lemma_seq_contains_after_push(before, last, e);
            assert(before.contains(e) <==> rest.contains(e) && same_under(
                names,
                ex,
                key_col,
                head,
                e,
            ));
        }
    }
}

proof fn lemma_numbers<E: FieldExtractor>(
    ex: E,
    group: Seq<EntryView>,
    col: Seq<char>,
    key_col: Option<Seq<char>>,
)
    ensures
        numbers(entry_values(ex, group, col, key_col)) == numbers_of_all(ex, group, col, key_col),
        numbers_of_all(ex, group, col, key_col).len() <= group.len(),
    decreases group.len(),
{
    if group.len() > 0 {
        let values = entry_values(ex, group, col, key_col);
        lemma_numbers(ex, group.drop_last(), col, key_col);
        assert(values.drop_last() =~= entry_values(ex, group.drop_last(), col, key_col));
    }
}

proof fn lemma_extreme_text<E: FieldExtractor>(
    ex: E,
    group: Seq<EntryView>,
    col: Seq<char>,
    key_col: Option<Seq<char>>,
    wanted: Order,
)
    requires
        wanted != Order::Equal,
    ensures
        is_extreme_text(
            CellView::Text(
                extreme(present(entry_values(ex, group, col, key_col)), wanted).text(),
            ),
            ex,
            group,
            col,
            key_col,
            wanted,
        ),
{
    let values = entry_values(ex, group, col, key_col);
    let f = |v: ValueView| !(v is Null);
    let kept = values.filter(f);
    let best = extreme(kept, wanted);
    assert forall|v: ValueView| #[trigger] kept.contains(v) implies values.contains(v) && !(v is Null) by {
        values.lemma_filter_contains_rev(f, v);
        let i = choose|i: int| 0 <= i < kept.len() && kept[i] == v;
        values.lemma_filter_pred(f, i);
    }
    assert forall|i: int| 0 <= i < group.len() && !(value_under(ex, #[trigger] group[i], col, key_col) is Null)
        implies kept.contains(values[i]) by {
        values.lemma_filter_contains(f, i);
    }
    if forall|i: int| 0 <= i < group.len() ==> value_under(ex, #[trigger] group[i], col, key_col) is Null {
        if kept.len() > 0 {
            assert(kept.contains(kept[0]));
            let i = choose|i: int| 0 <= i < values.len() && values[i] == kept[0];
            assert(value_under(ex, group[i], col, key_col) is Null);
        }
    } else {
        let j = choose|j: int|
            0 <= j < group.len() && !(value_under(ex, #[trigger] group[j], col, key_col) is Null);
        assert(kept.contains(values[j]));
        law_extreme_is_one_of_the_values(kept, wanted);
        assert(kept.contains(best));
        let k = choose|k: int| 0 <= k < values.len() && values[k] == best;
        assert(value_under(ex, group[k], col, key_col) == best);
        if all_compare(ex, group, col, key_col) {
            assert forall|a: int, b: int| 0 <= a < kept.len() && 0 <= b < kept.len() implies
                #[trigger] kept[a].compare(kept[b]) is Some by {
                assert(kept.contains(kept[a]) && kept.contains(kept[b]));
                let x = choose|x: int| 0 <= x < values.len() && values[x] == kept[a];
                let y = choose|y: int| 0 <= y < values.len() && values[y] == kept[b];
                assert(value_under(ex, group[x], col, key_col) == kept[a]);
                assert(value_under(ex, group[y], col, key_col) == kept[b]);
            }
            assert forall|i: int| 0 <= i < group.len() implies value_under(
                ex,
                #[trigger] group[i],
                col,
                key_col,
            ).compare(best) != Some(wanted) by {
                let v = value_under(ex, group[i], col, key_col);
                if !(v is Null) {
                    assert(kept.contains(values[i]));
                    let n = choose|n: int| 0 <= n < kept.len() && kept[n] == values[i];
                    law_nothing_beats_the_extreme(kept, wanted, n);
                }
            }
        }
    }
}

/// An aggregating or grouping SELECT over entries gives one row for each group: entries fall in one
/// group exactly if they have the same text under every GROUP BY column, and the cells of the row
/// are what its columns ask of the entries of the group.
pub proof fn law_executed_rows_total_their_groups<E: FieldExtractor>(
    select: Select,
    found: Seq<EntryView>,
    columns: Seq<Seq<char>>,
    ex: E,
    key_col: Option<Seq<char>>,
)
    requires
        !select.star,
        select.group_by is Some || exists|i: int|
            0 <= i < select.cols@.len() && !((#[trigger] select.cols@[i])@ is Col),
        found.len() <= i64::MAX,
    ensures
        exists|heads: Seq<EntryView>| #[trigger]
            are_executed_rows(
                result_rows(select, found, columns, ex, key_col),
                heads,
                views(select.cols@),
                grouping(select),
                ex,
                key_col,
                found,
            ),
{
    let cols = views(select.cols@);
    let names = grouping(select);
    let rows = result_rows(select, found, columns, ex, key_col);
    let all = group_keys(ex, found, names, key_col);
    let keys = first_seen(all);
    if select.group_by is None {
        let i = choose|i: int|
            0 <= i < select.cols@.len() && !((#[trigger] select.cols@[i])@ is Col);
        assert(aggregates(cols[i]));
    }
    assert(rows == group_rows(cols, names, found, ex, key_col));
    lemma_first_seen(all);
    let heads = Seq::new(
        keys.len(),
        |i: int| choose|e: EntryView|
            #[trigger] found.contains(e) && entry_texts(ex, e, names, key_col) == keys[i],
    );
    assert forall|i: int| 0 <= i < keys.len() implies found.contains(#[trigger] heads[i])
        && entry_texts(ex, heads[i], names, key_col) == keys[i] by {
        assert(keys.contains(keys[i]));
        assert(all.contains(keys[i]));
        let k = choose|k: int| 0 <= k < all.len() && all[k] == keys[i];
        assert(found.contains(found[k]));
    }
    assert forall|i: int, j: int| 0 <= i < j < heads.len() implies !same_under(
        names,
        ex,
        key_col,
        #[trigger] heads[i],
        #[trigger] heads[j],
    ) by {
        assert(keys[i] != keys[j]);
        lemma_texts_tell(names, ex, key_col, heads[i], heads[j]);
    }
    assert forall|e: EntryView| #[trigger] found.contains(e) implies exists|i: int|
        0 <= i < heads.len() && same_under(names, ex, key_col, #[trigger] heads[i], e) by {
        let k = choose|k: int| 0 <= k < found.len() && found[k] == e;
        assert(all.contains(all[k]));
        assert(keys.contains(all[k]));
        let i = choose|i: int| 0 <= i < keys.len() && keys[i] == all[k];
        lemma_texts_tell(names, ex, key_col, heads[i], e);
        assert(same_under(names, ex, key_col, heads[i], e));
    }
    assert forall|i: int, c: int| 0 <= i < rows.len() && 0 <= c < cols.len() implies is_executed_cell(
        #[trigger] rows[i][c],
        ex,
        key_col,
        cols[c],
        same_ones(names, ex, key_col, found, heads[i]),
    ) by {
        let head = heads[i];
        let group = same_ones(names, ex, key_col, found, head);
        lemma_members(names, ex, key_col, found, head);
        lemma_texts_tell(names, ex, key_col, head, head);
        assert(group.contains(head));
        let col = column_of(cols[c]);
        lemma_numbers(ex, group, col, key_col);
        lemma_extreme_text(ex, group, col, key_col, Order::Less);
        lemma_extreme_text(ex, group, col, key_col, Order::Greater);
        if let ColExprView::Col(n) = cols[c] {
            lemma_name_position(names, bare(n), 0);
            if let Some(p) = name_position(names, bare(n), 0) {
                assert(group.contains(group[0]));
                lemma_texts_tell(names, ex, key_col, head, group[0]);
                assert(entry_texts(ex, group[0], names, key_col)[p] == keys[i][p]);
            }
        }
    }
    assert(are_executed_rows(rows, heads, cols, names, ex, key_col, found));
}

/// A SELECT that neither aggregates nor groups gives one row for each entry, in order, with the
/// text that the entry has under each column.
pub proof fn law_plain_rows_are_entries<E: FieldExtractor>(
    select: Select,
    found: Seq<EntryView>,
    columns: Seq<Seq<char>>,
    ex: E,
    key_col: Option<Seq<char>>,
    i: int,
    c: int,
)
    requires
        select.group_by is None,
        select.star || forall|k: int|
            0 <= k < select.cols@.len() ==> (#[trigger] select.cols@[k])@ is Col,
        0 <= i < found.len(),
        0 <= c < if select.star {
            columns.len()
        } else {
            select.cols@.len()
        },
    ensures
        ({
            let rows = result_rows(select, found, columns, ex, key_col);
            let name = if select.star {
                columns[c]
            } else {
                bare(select.cols@[c]@->Col_0)
            };
            &&& rows.len() == found.len()
            &&& rows[i].len() == if select.star {
                columns.len()
            } else {
                select.cols@.len()
            }
            &&& rows[i][c] == CellView::Text(value_under(ex, found[i], name, key_col).text())
        }),
{
    let cols = views(select.cols@);
    if !select.star {
        assert forall|k: int| 0 <= k < cols.len() implies !aggregates(#[trigger] cols[k]) by {
            assert(select.cols@[k]@ is Col);
        }
        assert(cols[c] == select.cols@[c]@);
    }
}

/// The names of result columns: the column itself, or the aggregate's name with the column in
/// brackets, in the order of the SELECT.
pub proof fn law_result_columns_are_named(select: Select, found: Seq<EntryView>, schemas: Map<i64, Seq<Seq<char>>>, given: Seq<Seq<char>>, c: int)
    requires
        !select.star,
        0 <= c < select.cols@.len(),
    ensures
        ({
            let names = result_columns(select, found, schemas, given);
            &&& names.len() == select.cols@.len()
            &&& match select.cols@[c]@ {
                ColExprView::Col(n) => names[c] == bare(n),
                ColExprView::Count(n) => names[c] == "count("@ + bare(n) + ")"@,
                ColExprView::Sum(n) => names[c] == "sum("@ + bare(n) + ")"@,
                ColExprView::Avg(n) => names[c] == "avg("@ + bare(n) + ")"@,
                ColExprView::Min(n) => names[c] == "min("@ + bare(n) + ")"@,
                ColExprView::Max(n) => names[c] == "max("@ + bare(n) + ")"@,
            }
        }),
{
}

/// A SELECT is over the entries for whose values its WHERE holds, in order; without one, over all.
pub proof fn law_filters_choose_the_entries<E: FieldExtractor>(
    select: Select,
    ex: E,
    entries: Seq<EntryView>,
    probes: Seq<ProbeView>,
)
    ensures
        select.filter matches Some(p) ==> matched(select.filter, ex, entries, probes)
            == entries.filter(
            |e: EntryView| holds(p, |name: Seq<char>| Some(ex.extracted(e.1, name)), probes),
        ),
        select.filter is None ==> matched(select.filter, ex, entries, probes) == entries,
    decreases entries.len(),
{
    reveal(Seq::filter);
    let found = matched(select.filter, ex, entries, probes);
    if entries.len() > 0 {
        law_filters_choose_the_entries(select, ex, entries.drop_last(), probes);
        assert(entries.drop_last().push(entries.last()) =~= entries);
    } else {
        assert(found =~= entries);
        if let Some(p) = select.filter {
            assert(entries.filter(
                |e: EntryView| holds(p, |name: Seq<char>| Some(ex.extracted(e.1, name)), probes),
            ) =~= found);
        }
    }
}

} // verus!
