//! Executing a SELECT over stored entries.
//!
//! An executed SELECT has cells; sums and means of numbers are left to be computed from a cell's
//! numbers. Once every cell is text, [`finish`] drops duplicates, orders and limits.

use vstd::prelude::*;
use vstd::string::StringExecFns;
use super::agg::{extreme, extreme_of, numbers, numbers_of, present};
use super::json::{decode_key_data, key_value, FieldExtractor, DATA_OFFSET};
use super::predicate::{
    bare, bare_col, eval_fields, eval_row, find, find_field, holds, lookup, Field, FieldView,
    Predicate, Probe, ProbeView, Row, RowView,
};
use super::rows::{
    arrange, copy_texts, is_arranged, ordered_by, same_texts, ResultRow, RowOrder, Texts,
};
use super::sql::{names_view, ColExpr, ColExprView, Select};
use super::value::{fmt_value, FieldValue, Num, NumView, ValueView};
use crate::bytes::{get_i64_be, i64_be_at};
use crate::model::{
    lemma_filter_nothing, lemma_filter_take, nested, nested_opt, opt_view, opt_views, views,
};
use crate::number::{integer_text, numeral_text};
use crate::order::Order;
use crate::table::Table;

verus! {

/// A stored entry: key and value.
pub type Entry = (Vec<u8>, Vec<u8>);

/// What an [`Entry`] holds.
pub type EntryView = (Seq<u8>, Seq<u8>);

/// The field names of a schema.
#[derive(Clone, Debug, PartialEq, Eq)]
pub struct Names {
    pub names: Vec<String>,
}

impl View for Names {
    type V = Seq<Seq<char>>;

    open spec fn view(&self) -> Seq<Seq<char>> {
        views(self.names@)
    }
}

/// A cell of an executed SELECT.
#[derive(Clone, Debug, PartialEq, Eq)]
pub enum Cell {
    /// Text, or null.
    Text(Option<String>),
    /// The sum of numbers.
    Sum(Vec<Num>),
    /// The sum of numbers by a count.
    Mean(Vec<Num>, i64),
    /// A number.
    Number(Num),
}

/// What a [`Cell`] holds.
pub enum CellView {
    Text(Option<Seq<char>>),
    Sum(Seq<NumView>),
    Mean(Seq<NumView>, i64),
    Number(NumView),
}

impl View for Cell {
    type V = CellView;

    open spec fn view(&self) -> CellView {
        match self {
            Cell::Text(t) => CellView::Text(opt_view(*t)),
            Cell::Sum(ns) => CellView::Sum(views(ns@)),
            Cell::Mean(ns, n) => CellView::Mean(views(ns@), *n),
            Cell::Number(n) => CellView::Number(n@),
        }
    }
}

/// A stored value as a row: what is extracted from it.
pub open spec fn extraction<E: FieldExtractor>(ex: E, value: Seq<u8>) -> RowView {
    |name: Seq<char>| Some(ex.extracted(value, name))
}

/// A stored value and how to extract from it.
pub struct ValueRow<'a, E: FieldExtractor> {
    pub ex: &'a E,
    pub value: &'a [u8],
}

impl<'a, E: FieldExtractor> Row for ValueRow<'a, E> {
    open spec fn cells(&self) -> RowView {
        extraction(*self.ex, self.value@)
    }

    fn cell(&self, name: &String) -> (v: Option<FieldValue>) {
        Some(self.ex.extract(self.value, name.as_str()))
    }
}

/// Whether a row passes a filter; every row passes none.
pub open spec fn passes(filter: Option<Predicate>, row: RowView, probes: Seq<ProbeView>) -> bool {
    match filter {
        Some(p) => holds(p, row, probes),
        None => true,
    }
}

/// Whether an entry's value passes a filter.
pub fn entry_passes<E: FieldExtractor>(
    filter: &Option<Predicate>,
    ex: &E,
    value: &[u8],
    probes: &[Probe],
) -> (b: bool)
    ensures
        b == passes(*filter, extraction(*ex, value@), views(probes@)),
{
    match filter {
        Some(p) => eval_row(p, &(ValueRow { ex, value }), probes),
        None => true,
    }
}

/// The entries whose values pass a filter.
pub open spec fn matched<E: FieldExtractor>(
    filter: Option<Predicate>,
    ex: E,
    entries: Seq<EntryView>,
    probes: Seq<ProbeView>,
) -> Seq<EntryView> {
    entries.filter(|e: EntryView| passes(filter, extraction(ex, e.1), probes))
}

fn matched_entries<'a, E: FieldExtractor>(
    filter: &Option<Predicate>,
    ex: &E,
    entries: &'a [Entry],
    probes: &[Probe],
) -> (out: Vec<&'a Entry>)
    ensures
        views(out@) == matched(*filter, *ex, views(entries@), views(probes@)),
{
    let ghost all = views(entries@);
    let ghost f = |e: EntryView| passes(*filter, extraction(*ex, e.1), views(probes@));
    let mut out: Vec<&'a Entry> = Vec::new();
    let mut i: usize = 0;
    proof {
        lemma_filter_nothing(all, f);
        assert(views(out@) =~= Seq::empty());
    }
    while i < entries.len()
        invariant
            i <= entries@.len(),
            all == views(entries@),
            f == (|e: EntryView| passes(*filter, extraction(*ex, e.1), views(probes@))),
            views(out@) == all.take(i as int).filter(f),
        decreases entries@.len() - i,
    {
        let ghost so_far = views(out@);
        let e = &entries[i];
        assert(all[i as int] == e@);
        proof {
            lemma_filter_take(all, i as int, f);
        }
        if entry_passes(filter, ex, e.1.as_slice(), probes) {
            out.push(e);
            assert(views(out@) =~= so_far.push(e@));
        }
        i = i + 1;
    }
    assert(all.take(i as int) =~= all);
    out
}

/// The value of an entry under a column: its key under the key column, else what is extracted
/// from its value.
pub open spec fn entry_value<E: FieldExtractor>(
    ex: E,
    e: EntryView,
    col: Seq<char>,
    key_col: Option<Seq<char>>,
) -> ValueView {
    if key_col == Some(col) {
        key_value(e.0)
    } else {
        ex.extracted(e.1, col)
    }
}

/// The value of an entry under a column.
pub fn value_of_entry<E: FieldExtractor>(
    ex: &E,
    e: &Entry,
    col: &String,
    key_col: &Option<String>,
) -> (v: FieldValue)
    ensures
        v@ == entry_value(*ex, e@, col@, opt_view(*key_col)),
{
    let is_key: bool = match key_col {
        Some(k) => *k == *col,
        None => false,
    };
    if is_key {
        decode_key_data(e.0.as_slice())
    } else {
        ex.extract(e.1.as_slice(), col.as_str())
    }
}

/// The column of an expression, without a table.
pub open spec fn column_of(c: ColExprView) -> Seq<char> {
    match c {
        ColExprView::Col(n) => bare(n),
        ColExprView::Count(n) => bare(n),
        ColExprView::Sum(n) => bare(n),
        ColExprView::Avg(n) => bare(n),
        ColExprView::Min(n) => bare(n),
        ColExprView::Max(n) => bare(n),
    }
}

/// The name of a result column.
pub open spec fn column_name(c: ColExprView) -> Seq<char> {
    match c {
        ColExprView::Col(n) => bare(n),
        ColExprView::Count(n) => "count("@ + bare(n) + ")"@,
        ColExprView::Sum(n) => "sum("@ + bare(n) + ")"@,
        ColExprView::Avg(n) => "avg("@ + bare(n) + ")"@,
        ColExprView::Min(n) => "min("@ + bare(n) + ")"@,
        ColExprView::Max(n) => "max("@ + bare(n) + ")"@,
    }
}

fn call_text(function: &str, n: &String) -> (s: String)
    ensures
        s@ == function@ + bare(n@) + ")"@,
{
    let mut s: String = function.to_string();
    s.append(bare_col(n.as_str()).as_str());
    s.append(")");
    s
}

fn name_of_column(c: &ColExpr) -> (s: String)
    ensures
        s@ == column_name(c@),
{
    match c {
        ColExpr::Col(n) => bare_col(n.as_str()),
        ColExpr::Count(n) => call_text("count(", n),
        ColExpr::Sum(n) => call_text("sum(", n),
        ColExpr::Avg(n) => call_text("avg(", n),
        ColExpr::Min(n) => call_text("min(", n),
        ColExpr::Max(n) => call_text("max(", n),
    }
}

/// The names of result columns.
pub open spec fn column_names(cols: Seq<ColExprView>) -> Seq<Seq<char>> {
    Seq::new(cols.len(), |i: int| column_name(cols[i]))
}

/// The names of result columns.
pub fn names_of_columns(cols: &Vec<ColExpr>) -> (out: Vec<String>)
    ensures
        views(out@) == column_names(views(cols@)),
{
    let ghost all = column_names(views(cols@));
    let mut out: Vec<String> = Vec::new();
    let mut i: usize = 0;
    while i < cols.len()
        invariant
            i <= cols@.len(),
            all == column_names(views(cols@)),
            views(out@) =~= all.take(i as int),
        decreases cols@.len() - i,
    {
        let ghost so_far = views(out@);
        let s = name_of_column(&cols[i]);
        assert(all[i as int] == s@);
        out.push(s);
        assert(views(out@) =~= so_far.push(s@));
        i = i + 1;
    }
    assert(all.take(i as int) =~= all);
    out
}

/// The field names of a stored value's schema, which its payload starts with.
pub open spec fn schema_names(value: Seq<u8>, schemas: Map<i64, Seq<Seq<char>>>) -> Seq<Seq<char>> {
    if value.len() < DATA_OFFSET + 8 || !schemas.contains_key(
        i64_be_at(value, DATA_OFFSET as int),
    ) {
        Seq::empty()
    } else {
        schemas[i64_be_at(value, DATA_OFFSET as int)]
    }
}

fn copy_names(names: &[String]) -> (out: Vec<String>)
    ensures
        views(out@) == views(names@),
{
    let mut out: Vec<String> = Vec::new();
    let mut i: usize = 0;
    while i < names.len()
        invariant
            i <= names@.len(),
            views(out@) =~= views(names@).take(i as int),
        decreases names@.len() - i,
    {
        let ghost so_far = views(out@);
        let n: String = names[i].clone();
        assert(views(names@)[i as int] == n@);
        out.push(n);
        assert(views(out@) =~= so_far.push(n@));
        i = i + 1;
    }
    assert(views(names@).take(i as int) =~= views(names@));
    out
}

fn schema_fields(value: &[u8], schemas: &Table<i64, Names>) -> (out: Vec<String>)
    ensures
        views(out@) == schema_names(value@, schemas@),
{
    let none: Vec<String> = Vec::new();
    assert(views(none@) =~= Seq::empty());
    if value.len() < DATA_OFFSET + 8 {
        return none;
    }
    match schemas.get(&get_i64_be(value, DATA_OFFSET)) {
        Some(n) => copy_names(n.names.as_slice()),
        None => none,
    }
}

/// The columns of a `SELECT *`: those given, or else those of the schema of the first entry.
pub open spec fn star_columns(
    given: Seq<Seq<char>>,
    found: Seq<EntryView>,
    schemas: Map<i64, Seq<Seq<char>>>,
) -> Seq<Seq<char>> {
    if given.len() > 0 {
        given
    } else if found.len() > 0 {
        schema_names(found[0].1, schemas)
    } else {
        Seq::empty()
    }
}

/// Whether a column is an aggregate.
pub open spec fn aggregates(c: ColExprView) -> bool {
    !(c is Col)
}

/// Whether one of the columns is an aggregate.
pub open spec fn any_aggregates(cols: Seq<ColExprView>) -> bool {
    exists|i: int| 0 <= i < cols.len() && aggregates(#[trigger] cols[i])
}

/// Whether one of the columns is an aggregate.
pub fn has_aggregates(cols: &Vec<ColExpr>) -> (b: bool)
    ensures
        b == any_aggregates(views(cols@)),
{
    let ghost all = views(cols@);
    let mut i: usize = 0;
    while i < cols.len()
        invariant
            i <= cols@.len(),
            all == views(cols@),
            forall|j: int| 0 <= j < i ==> !aggregates(#[trigger] all[j]),
        decreases cols@.len() - i,
    {
        assert(all[i as int] == cols@[i as int]@);
        match &cols[i] {
            ColExpr::Col(_) => {},
            _ => {
                return true;
            },
        }
        i = i + 1;
    }
    false
}

/// The text of an entry under each of some columns.
pub open spec fn entry_texts<E: FieldExtractor>(
    ex: E,
    e: EntryView,
    cols: Seq<Seq<char>>,
    key_col: Option<Seq<char>>,
) -> Texts {
    Seq::new(cols.len(), |i: int| entry_value(ex, e, cols[i], key_col).text())
}

fn texts_of_entry<E: FieldExtractor>(
    ex: &E,
    e: &Entry,
    cols: &Vec<String>,
    key_col: &Option<String>,
) -> (out: Vec<Option<String>>)
    ensures
        opt_views(out@) == entry_texts(*ex, e@, views(cols@), opt_view(*key_col)),
{
    let ghost all = entry_texts(*ex, e@, views(cols@), opt_view(*key_col));
    let mut out: Vec<Option<String>> = Vec::new();
    let mut i: usize = 0;
    while i < cols.len()
        invariant
            i <= cols@.len(),
            all == entry_texts(*ex, e@, views(cols@), opt_view(*key_col)),
            opt_views(out@) =~= all.take(i as int),
        decreases cols@.len() - i,
    {
        let ghost so_far = opt_views(out@);
        assert(views(cols@)[i as int] == cols@[i as int]@);
        let v = value_of_entry(ex, e, &cols[i], key_col);
        let t = fmt_value(&v);
        let ghost tv = opt_view(t);
        assert(tv == all[i as int]);
        out.push(t);
        assert(opt_views(out@) =~= so_far.push(tv));
        i = i + 1;
    }
    assert(all.take(i as int) =~= all);
    out
}

/// Items in the order in which each is seen first.
pub open spec fn first_seen<T>(s: Seq<T>) -> Seq<T>
    decreases s.len(),
{
    if s.len() == 0 {
        s
    } else {
        let before = first_seen(s.drop_last());
        if before.contains(s.last()) {
            before
        } else {
            before.push(s.last())
        }
    }
}

/// The group keys of entries.
pub open spec fn group_keys<E: FieldExtractor>(
    ex: E,
    entries: Seq<EntryView>,
    group_cols: Seq<Seq<char>>,
    key_col: Option<Seq<char>>,
) -> Seq<Texts> {
    Seq::new(entries.len(), |i: int| entry_texts(ex, entries[i], group_cols, key_col))
}

/// The entries of a group.
pub open spec fn group_members<E: FieldExtractor>(
    ex: E,
    entries: Seq<EntryView>,
    group_cols: Seq<Seq<char>>,
    key_col: Option<Seq<char>>,
    key: Texts,
) -> Seq<EntryView> {
    entries.filter(|e: EntryView| entry_texts(ex, e, group_cols, key_col) == key)
}

/// The values of entries under a column.
pub open spec fn entry_values<E: FieldExtractor>(
    ex: E,
    entries: Seq<EntryView>,
    col: Seq<char>,
    key_col: Option<Seq<char>>,
) -> Seq<ValueView> {
    Seq::new(entries.len(), |i: int| entry_value(ex, entries[i], col, key_col))
}

fn values_of_entries<E: FieldExtractor>(
    ex: &E,
    entries: &Vec<&Entry>,
    col: &String,
    key_col: &Option<String>,
) -> (out: Vec<FieldValue>)
    ensures
        views(out@) == entry_values(*ex, views(entries@), col@, opt_view(*key_col)),
{
    let ghost all = entry_values(*ex, views(entries@), col@, opt_view(*key_col));
    let mut out: Vec<FieldValue> = Vec::new();
    let mut i: usize = 0;
    while i < entries.len()
        invariant
            i <= entries@.len(),
            all == entry_values(*ex, views(entries@), col@, opt_view(*key_col)),
            views(out@) =~= all.take(i as int),
        decreases entries@.len() - i,
    {
        let ghost so_far = views(out@);
        assert(views(entries@)[i as int] == entries@[i as int]@);
        let v = value_of_entry(ex, entries[i], col, key_col);
        assert(v@ == all[i as int]);
        out.push(v);
        assert(views(out@) =~= so_far.push(v@));
        i = i + 1;
    }
    assert(all.take(i as int) =~= all);
    out
}

/// The position of the first of some names that is `n`, from `from` on.
pub open spec fn name_position(names: Seq<Seq<char>>, n: Seq<char>, from: int) -> Option<int>
    decreases names.len() - from,
{
    if 0 <= from < names.len() {
        if names[from] == n {
            Some(from)
        } else {
            name_position(names, n, from + 1)
        }
    } else {
        None
    }
}

/// The position of the first of some names that is `n`.
pub fn position_of(names: &Vec<String>, n: &String) -> (r: Option<usize>)
    ensures
        match r {
            Some(i) => name_position(views(names@), n@, 0) == Some(i as int) && i < names@.len(),
            None => name_position(views(names@), n@, 0) is None,
        },
{
    let mut i: usize = 0;
    while i < names.len()
        invariant
            i <= names@.len(),
            name_position(views(names@), n@, 0) == name_position(views(names@), n@, i as int),
        decreases names@.len() - i,
    {
        assert(views(names@)[i as int] == names@[i as int]@);
        if names[i] == *n {
            return Some(i);
        }
        i = i + 1;
    }
    None
}

/// The cell of a group under a column: for a plain column the group key, or what the group's
/// first entry has; COUNT counts the entries; SUM and AVG take the numbers, and are null without
/// any; MIN and MAX take the values that are not null.
pub open spec fn group_cell<E: FieldExtractor>(
    c: ColExprView,
    key: Texts,
    group_cols: Seq<Seq<char>>,
    members: Seq<EntryView>,
    ex: E,
    key_col: Option<Seq<char>>,
) -> CellView {
    let values = entry_values(ex, members, column_of(c), key_col);
    match c {
        ColExprView::Col(n) => CellView::Text(
            match name_position(group_cols, bare(n), 0) {
                Some(i) => key[i],
                None => if members.len() > 0 {
                    values[0].text()
                } else {
                    None
                },
            },
        ),
        ColExprView::Count(_) => CellView::Text(Some(numeral_text(members.len() as i64 as int))),
        ColExprView::Sum(_) => if numbers(values).len() > 0 {
            CellView::Sum(numbers(values))
        } else {
            CellView::Text(None)
        },
        ColExprView::Avg(_) => if numbers(values).len() > 0 {
            CellView::Mean(numbers(values), numbers(values).len() as i64)
        } else {
            CellView::Text(None)
        },
        ColExprView::Min(_) => CellView::Text(extreme(present(values), Order::Less).text()),
        ColExprView::Max(_) => CellView::Text(extreme(present(values), Order::Greater).text()),
    }
}

fn cell_of_group<E: FieldExtractor>(
    c: &ColExpr,
    key: &Vec<Option<String>>,
    group_cols: &Vec<String>,
    members: &Vec<&Entry>,
    ex: &E,
    key_col: &Option<String>,
) -> (r: Cell)
    requires
        key@.len() == group_cols@.len(),
    ensures
        r@ == group_cell(
            c@,
            opt_views(key@),
            views(group_cols@),
            views(members@),
            *ex,
            opt_view(*key_col),
        ),
{
    match c {
        ColExpr::Col(n) => {
            let b = bare_col(n.as_str());
            match position_of(group_cols, &b) {
                Some(i) => {
                    assert(opt_views(key@)[i as int] == opt_view(key@[i as int]));
                    Cell::Text(
                        match &key[i] {
                            Some(s) => Some(s.clone()),
                            None => None,
                        },
                    )
                },
                None => if members.len() > 0 {
                    assert(views(members@)[0] == members@[0]@);
                    let v = value_of_entry(ex, members[0], &b, key_col);
                    Cell::Text(fmt_value(&v))
                } else {
                    Cell::Text(None)
                },
            }
        },
        ColExpr::Count(_) => Cell::Text(Some(integer_text(members.len() as i64))),
        ColExpr::Sum(n) => {
            let ns = numbers_of(&values_of_entries(ex, members, &bare_col(n.as_str()), key_col));
            if ns.len() > 0 {
                Cell::Sum(ns)
            } else {
                Cell::Text(None)
            }
        },
        ColExpr::Avg(n) => {
            let ns = numbers_of(&values_of_entries(ex, members, &bare_col(n.as_str()), key_col));
            let count: i64 = ns.len() as i64;
            if ns.len() > 0 {
                Cell::Mean(ns, count)
            } else {
                Cell::Text(None)
            }
        },
        ColExpr::Min(n) => {
            let vs = values_of_entries(ex, members, &bare_col(n.as_str()), key_col);
            Cell::Text(fmt_value(&extreme_of(&vs, Order::Less)))
        },
        ColExpr::Max(n) => {
            let vs = values_of_entries(ex, members, &bare_col(n.as_str()), key_col);
            Cell::Text(fmt_value(&extreme_of(&vs, Order::Greater)))
        },
    }
}

/// The row of a group.
pub open spec fn group_row<E: FieldExtractor>(
    cols: Seq<ColExprView>,
    key: Texts,
    group_cols: Seq<Seq<char>>,
    members: Seq<EntryView>,
    ex: E,
    key_col: Option<Seq<char>>,
) -> Seq<CellView> {
    Seq::new(cols.len(), |i: int| group_cell(cols[i], key, group_cols, members, ex, key_col))
}

fn row_of_group<E: FieldExtractor>(
    cols: &Vec<ColExpr>,
    key: &Vec<Option<String>>,
    group_cols: &Vec<String>,
    members: &Vec<&Entry>,
    ex: &E,
    key_col: &Option<String>,
) -> (out: Vec<Cell>)
    requires
        key@.len() == group_cols@.len(),
    ensures
        views(out@) == group_row(
            views(cols@),
            opt_views(key@),
            views(group_cols@),
            views(members@),
            *ex,
            opt_view(*key_col),
        ),
{
    let ghost all = group_row(
        views(cols@),
        opt_views(key@),
        views(group_cols@),
        views(members@),
        *ex,
        opt_view(*key_col),
    );
    let mut out: Vec<Cell> = Vec::new();
    let mut i: usize = 0;
    while i < cols.len()
        invariant
            i <= cols@.len(),
            key@.len() == group_cols@.len(),
            all == group_row(
                views(cols@),
                opt_views(key@),
                views(group_cols@),
                views(members@),
                *ex,
                opt_view(*key_col),
            ),
            views(out@) =~= all.take(i as int),
        decreases cols@.len() - i,
    {
        let ghost so_far = views(out@);
        assert(views(cols@)[i as int] == cols@[i as int]@);
        let c = cell_of_group(&cols[i], key, group_cols, members, ex, key_col);
        let ghost cv = c@;
        assert(cv == all[i as int]);
        out.push(c);
        assert(views(out@) =~= so_far.push(cv));
        i = i + 1;
    }
    assert(all.take(i as int) =~= all);
    out
}

/// The rows of the groups, in the order in which each group is seen first.
pub open spec fn group_rows<E: FieldExtractor>(
    cols: Seq<ColExprView>,
    group_cols: Seq<Seq<char>>,
    entries: Seq<EntryView>,
    ex: E,
    key_col: Option<Seq<char>>,
) -> Seq<Seq<CellView>> {
    let keys = first_seen(group_keys(ex, entries, group_cols, key_col));
    Seq::new(
        keys.len(),
        |i: int|
            group_row(
                cols,
                keys[i],
                group_cols,
                group_members(ex, entries, group_cols, key_col, keys[i]),
                ex,
                key_col,
            ),
    )
}

fn members_of_group<'a, E: FieldExtractor>(
    ex: &E,
    entries: &Vec<&'a Entry>,
    keys: &Vec<Vec<Option<String>>>,
    key: &Vec<Option<String>>,
    group_cols: Ghost<Seq<Seq<char>>>,
    key_col: Ghost<Option<Seq<char>>>,
) -> (out: Vec<&'a Entry>)
    requires
        nested_opt(keys@) == group_keys(*ex, views(entries@), group_cols@, key_col@),
    ensures
        views(out@) == group_members(
            *ex,
            views(entries@),
            group_cols@,
            key_col@,
            opt_views(key@),
        ),
{
    let ghost all = views(entries@);
    let ghost k = opt_views(key@);
    let ghost f = |e: EntryView| entry_texts(*ex, e, group_cols@, key_col@) == k;
    let mut out: Vec<&'a Entry> = Vec::new();
    let mut i: usize = 0;
    proof {
        lemma_filter_nothing(all, f);
        assert(views(out@) =~= Seq::empty());
        assert(nested_opt(keys@).len() == all.len());
    }
    while i < entries.len()
        invariant
            i <= entries@.len(),
            keys@.len() == entries@.len(),
            all == views(entries@),
            k == opt_views(key@),
            nested_opt(keys@) == group_keys(*ex, views(entries@), group_cols@, key_col@),
            f == (|e: EntryView| entry_texts(*ex, e, group_cols@, key_col@) == k),
            views(out@) == all.take(i as int).filter(f),
        decreases entries@.len() - i,
    {
        let ghost so_far = views(out@);
        assert(all[i as int] == entries@[i as int]@);
        assert(nested_opt(keys@)[i as int] == opt_views(keys@[i as int]@));
        proof {
            lemma_filter_take(all, i as int, f);
        }
        if same_texts(&keys[i], key) {
            out.push(entries[i]);
            assert(views(out@) =~= so_far.push(all[i as int]));
        }
        i = i + 1;
    }
    assert(all.take(i as int) =~= all);
    out
}

fn keys_of_entries<E: FieldExtractor>(
    ex: &E,
    entries: &Vec<&Entry>,
    group_cols: &Vec<String>,
    key_col: &Option<String>,
) -> (out: Vec<Vec<Option<String>>>)
    ensures
        nested_opt(out@) == group_keys(
            *ex,
            views(entries@),
            views(group_cols@),
            opt_view(*key_col),
        ),
{
    let ghost all = group_keys(*ex, views(entries@), views(group_cols@), opt_view(*key_col));
    let mut out: Vec<Vec<Option<String>>> = Vec::new();
    let mut i: usize = 0;
    while i < entries.len()
        invariant
            i <= entries@.len(),
            all == group_keys(*ex, views(entries@), views(group_cols@), opt_view(*key_col)),
            nested_opt(out@) =~= all.take(i as int),
        decreases entries@.len() - i,
    {
        let ghost so_far = nested_opt(out@);
        assert(views(entries@)[i as int] == entries@[i as int]@);
        let k = texts_of_entry(ex, entries[i], group_cols, key_col);
        let ghost kv = opt_views(k@);
        assert(kv == all[i as int]);
        out.push(k);
        assert(nested_opt(out@) =~= so_far.push(kv));
        i = i + 1;
    }
    assert(all.take(i as int) =~= all);
    out
}

/// Keys in the order in which each is seen first.
pub fn distinct_texts(keys: &Vec<Vec<Option<String>>>) -> (out: Vec<Vec<Option<String>>>)
    ensures
        nested_opt(out@) == first_seen(nested_opt(keys@)),
{
    let ghost all = nested_opt(keys@);
    let mut out: Vec<Vec<Option<String>>> = Vec::new();
    let mut i: usize = 0;
    assert(nested_opt(out@) =~= first_seen(all.take(0)));
    while i < keys.len()
        invariant
            i <= keys@.len(),
            all == nested_opt(keys@),
            nested_opt(out@) == first_seen(all.take(i as int)),
        decreases keys@.len() - i,
    {
        let ghost so_far = nested_opt(out@);
        assert(all.take(i + 1).drop_last() =~= all.take(i as int));
        assert(all[i as int] == opt_views(keys@[i as int]@));
        if !texts_among(&out, &keys[i]) {
            let k = copy_texts(&keys[i]);
            out.push(k);
            assert(nested_opt(out@) =~= so_far.push(all[i as int]));
        }
        i = i + 1;
    }
    assert(all.take(i as int) =~= all);
    out
}

fn texts_among(keys: &Vec<Vec<Option<String>>>, key: &Vec<Option<String>>) -> (b: bool)
    ensures
        b == nested_opt(keys@).contains(opt_views(key@)),
{
    let ghost all = nested_opt(keys@);
    let mut i: usize = 0;
    while i < keys.len()
        invariant
            i <= keys@.len(),
            all == nested_opt(keys@),
            forall|j: int| 0 <= j < i ==> #[trigger] all[j] != opt_views(key@),
        decreases keys@.len() - i,
    {
        assert(all[i as int] == opt_views(keys@[i as int]@));
        if same_texts(&keys[i], key) {
            return true;
        }
        i = i + 1;
    }
    false
}

fn rows_of_groups<E: FieldExtractor>(
    cols: &Vec<ColExpr>,
    group_cols: &Vec<String>,
    entries: &Vec<&Entry>,
    ex: &E,
    key_col: &Option<String>,
) -> (out: Vec<Vec<Cell>>)
    ensures
        nested(out@) == group_rows(
            views(cols@),
            views(group_cols@),
            views(entries@),
            *ex,
            opt_view(*key_col),
        ),
{
    let ghost all = group_rows(
        views(cols@),
        views(group_cols@),
        views(entries@),
        *ex,
        opt_view(*key_col),
    );
    let keys = keys_of_entries(ex, entries, group_cols, key_col);
    let groups = distinct_texts(&keys);
    proof {
        lemma_first_seen(nested_opt(keys@));
    }
    let mut out: Vec<Vec<Cell>> = Vec::new();
    let mut i: usize = 0;
    while i < groups.len()
        invariant
            i <= groups@.len(),
            nested_opt(keys@) == group_keys(
                *ex,
                views(entries@),
                views(group_cols@),
                opt_view(*key_col),
            ),
            nested_opt(groups@) == first_seen(nested_opt(keys@)),
            forall|g: Texts| #[trigger]
                nested_opt(groups@).contains(g) ==> nested_opt(keys@).contains(g),
            all == group_rows(
                views(cols@),
                views(group_cols@),
                views(entries@),
                *ex,
                opt_view(*key_col),
            ),
            nested(out@) =~= all.take(i as int),
        decreases groups@.len() - i,
    {
        let ghost so_far = nested(out@);
        let key = &groups[i];
        proof {
            let g = nested_opt(groups@)[i as int];
            assert(g == opt_views(key@));
            assert(nested_opt(groups@).contains(g));
            let j = choose|j: int| 0 <= j < nested_opt(keys@).len() && nested_opt(keys@)[j] == g;
            assert(g.len() == group_cols@.len());
            assert(opt_views(key@).len() == key@.len());
        }
        let members = members_of_group(
            ex,
            entries,
            &keys,
            key,
            Ghost(views(group_cols@)),
            Ghost(opt_view(*key_col)),
        );
        let row = row_of_group(cols, key, group_cols, &members, ex, key_col);
        let ghost rv = views(row@);
        assert(rv == all[i as int]);
        out.push(row);
        assert(nested(out@) =~= so_far.push(rv));
        i = i + 1;
    }
    assert(all.take(i as int) =~= all);
    out
}

/// What is seen first was there, nothing twice, and everything that was there is seen.
pub proof fn lemma_first_seen<T>(s: Seq<T>)
    ensures
        forall|x: T| #[trigger] first_seen(s).contains(x) == s.contains(x),
        first_seen(s).no_duplicates(),
    decreases s.len(),
{
    if s.len() > 0 {
        let before = first_seen(s.drop_last());
        lemma_first_seen(s.drop_last());
        assert(s =~= s.drop_last().push(s.last()));
        assert forall|x: T| #[trigger] first_seen(s).contains(x) == s.contains(x) by {
            vstd::seq_lib::lemma_seq_contains_after_push(s.drop_last(), s.last(), x);
            vstd::seq_lib::lemma_seq_contains_after_push(before, s.last(), x);
        }
    }
}

/// The columns of an ungrouped SELECT, as they are looked up.
pub open spec fn plain_names(cols: Seq<ColExprView>) -> Seq<Seq<char>> {
    Seq::new(cols.len(), |i: int| column_of(cols[i]))
}

/// Texts as cells.
pub open spec fn text_cells(t: Texts) -> Seq<CellView> {
    Seq::new(t.len(), |i: int| CellView::Text(t[i]))
}

/// The rows of an ungrouped SELECT: one for each entry.
pub open spec fn plain_rows<E: FieldExtractor>(
    names: Seq<Seq<char>>,
    entries: Seq<EntryView>,
    ex: E,
    key_col: Option<Seq<char>>,
) -> Seq<Seq<CellView>> {
    Seq::new(entries.len(), |i: int| text_cells(entry_texts(ex, entries[i], names, key_col)))
}

fn cells_of_texts(t: Vec<Option<String>>) -> (out: Vec<Cell>)
    ensures
        views(out@) == text_cells(opt_views(t@)),
{
    let ghost all = text_cells(opt_views(t@));
    let mut out: Vec<Cell> = Vec::new();
    let mut i: usize = 0;
    while i < t.len()
        invariant
            i <= t@.len(),
            all == text_cells(opt_views(t@)),
            views(out@) =~= all.take(i as int),
        decreases t@.len() - i,
    {
        let ghost so_far = views(out@);
        let c: Option<String> = match &t[i] {
            Some(s) => Some(s.clone()),
            None => None,
        };
        assert(opt_views(t@)[i as int] == opt_view(c));
        let cell = Cell::Text(c);
        let ghost cv = cell@;
        out.push(cell);
        assert(views(out@) =~= so_far.push(cv));
        i = i + 1;
    }
    assert(all.take(i as int) =~= all);
    out
}

fn rows_of_entries<E: FieldExtractor>(
    names: &Vec<String>,
    entries: &Vec<&Entry>,
    ex: &E,
    key_col: &Option<String>,
) -> (out: Vec<Vec<Cell>>)
    ensures
        nested(out@) == plain_rows(views(names@), views(entries@), *ex, opt_view(*key_col)),
{
    let ghost all = plain_rows(views(names@), views(entries@), *ex, opt_view(*key_col));
    let mut out: Vec<Vec<Cell>> = Vec::new();
    let mut i: usize = 0;
    while i < entries.len()
        invariant
            i <= entries@.len(),
            all == plain_rows(views(names@), views(entries@), *ex, opt_view(*key_col)),
            nested(out@) =~= all.take(i as int),
        decreases entries@.len() - i,
    {
        let ghost so_far = nested(out@);
        assert(views(entries@)[i as int] == entries@[i as int]@);
        let row = cells_of_texts(texts_of_entry(ex, entries[i], names, key_col));
        let ghost rv = views(row@);
        assert(rv == all[i as int]);
        out.push(row);
        assert(nested(out@) =~= so_far.push(rv));
        i = i + 1;
    }
    assert(all.take(i as int) =~= all);
    out
}

/// The bare columns of a SELECT.
pub fn plain_columns_of(cols: &Vec<ColExpr>) -> (out: Vec<String>)
    ensures
        views(out@) == plain_names(views(cols@)),
{
    let ghost all = plain_names(views(cols@));
    let mut out: Vec<String> = Vec::new();
    let mut i: usize = 0;
    while i < cols.len()
        invariant
            i <= cols@.len(),
            all == plain_names(views(cols@)),
            views(out@) =~= all.take(i as int),
        decreases cols@.len() - i,
    {
        let ghost so_far = views(out@);
        assert(views(cols@)[i as int] == cols@[i as int]@);
        let s = match &cols[i] {
            ColExpr::Col(n) => bare_col(n.as_str()),
            ColExpr::Count(n) => bare_col(n.as_str()),
            ColExpr::Sum(n) => bare_col(n.as_str()),
            ColExpr::Avg(n) => bare_col(n.as_str()),
            ColExpr::Min(n) => bare_col(n.as_str()),
            ColExpr::Max(n) => bare_col(n.as_str()),
        };
        assert(s@ == all[i as int]);
        out.push(s);
        assert(views(out@) =~= so_far.push(s@));
        i = i + 1;
    }
    assert(all.take(i as int) =~= all);
    out
}

/// The grouping columns; none if the SELECT does not group.
pub open spec fn grouping(select: Select) -> Seq<Seq<char>> {
    match names_view(select.group_by) {
        Some(g) => g,
        None => Seq::empty(),
    }
}

/// The columns of an executed SELECT.
pub open spec fn result_columns(
    select: Select,
    found: Seq<EntryView>,
    schemas: Map<i64, Seq<Seq<char>>>,
    star_cols: Seq<Seq<char>>,
) -> Seq<Seq<char>> {
    if select.star {
        star_columns(star_cols, found, schemas)
    } else {
        column_names(views(select.cols@))
    }
}

/// The rows of an executed SELECT: of the groups if it aggregates or groups (a grouped `SELECT *`
/// has none), else of the entries.
pub open spec fn result_rows<E: FieldExtractor>(
    select: Select,
    found: Seq<EntryView>,
    columns: Seq<Seq<char>>,
    ex: E,
    key_col: Option<Seq<char>>,
) -> Seq<Seq<CellView>> {
    let cols = views(select.cols@);
    if (!select.star && any_aggregates(cols)) || select.group_by is Some {
        if select.star {
            Seq::empty()
        } else {
            group_rows(cols, grouping(select), found, ex, key_col)
        }
    } else if select.star {
        plain_rows(columns, found, ex, key_col)
    } else {
        plain_rows(plain_names(cols), found, ex, key_col)
    }
}

/// Executes a SELECT over entries: columns and rows, not yet ordered. `star_cols` are the
/// columns of a `SELECT *`; without them it takes those of the schema. `key_col` names the
/// column that stands for the key.
pub fn execute_with<E: FieldExtractor>(
    select: &Select,
    entries: &[Entry],
    schemas: &Table<i64, Names>,
    ex: &E,
    star_cols: &[String],
    key_col: Option<&str>,
    probes: &[Probe],
) -> (r: (Vec<String>, Vec<Vec<Cell>>))
    ensures
        ({
            let found = matched(select.filter, *ex, views(entries@), views(probes@));
            let columns = result_columns(*select, found, schemas@, views(star_cols@));
            &&& views(r.0@) == columns
            &&& nested(r.1@) == result_rows(*select, found, columns, *ex, opt_view(key_col))
        }),
{
    let found = matched_entries(&select.filter, ex, entries, probes);
    let key_name: Option<String> = match key_col {
        Some(k) => Some(k.to_string()),
        None => None,
    };
    let columns: Vec<String> = if select.star {
        if star_cols.len() > 0 {
            copy_names(star_cols)
        } else if found.len() > 0 {
            assert(views(found@)[0] == found@[0]@);
            schema_fields(found[0].1.as_slice(), schemas)
        } else {
            let none: Vec<String> = Vec::new();
            assert(views(none@) =~= Seq::empty());
            none
        }
    } else {
        names_of_columns(&select.cols)
    };
    let rows: Vec<Vec<Cell>> = if (!select.star && has_aggregates(&select.cols))
        || select.group_by.is_some() {
        if select.star {
            let none: Vec<Vec<Cell>> = Vec::new();
            assert(nested(none@) =~= Seq::empty());
            none
        } else {
            match &select.group_by {
                Some(g) => rows_of_groups(&select.cols, g, &found, ex, &key_name),
                None => {
                    let g: Vec<String> = Vec::new();
                    assert(views(g@) =~= Seq::empty());
                    rows_of_groups(&select.cols, &g, &found, ex, &key_name)
                },
            }
        }
    } else if select.star {
        rows_of_entries(&columns, &found, ex, &key_name)
    } else {
        rows_of_entries(&plain_columns_of(&select.cols), &found, ex, &key_name)
    };
    (columns, rows)
}

/// Executes a SELECT without a mapping.
pub fn execute<E: FieldExtractor>(
    select: &Select,
    entries: &[Entry],
    schemas: &Table<i64, Names>,
    ex: &E,
    probes: &[Probe],
) -> (r: (Vec<String>, Vec<Vec<Cell>>))
    ensures
        ({
            let found = matched(select.filter, *ex, views(entries@), views(probes@));
            let columns = result_columns(*select, found, schemas@, Seq::empty());
            &&& views(r.0@) == columns
            &&& nested(r.1@) == result_rows(*select, found, columns, *ex, None)
        }),
{
    let none: Vec<String> = Vec::new();
    assert(views(none@) =~= Seq::empty());
    execute_with(select, entries, schemas, ex, none.as_slice(), None, probes)
}

/// How a SELECT orders its rows: by the column of its ORDER BY, if there is such a column.
pub open spec fn select_order(select: Select, columns: Seq<Seq<char>>) -> RowOrder {
    match select.order_by {
        Some((col, desc)) => match name_position(columns, col@, 0) {
            Some(i) => RowOrder::Mixed(i as usize, desc),
            None => RowOrder::Given,
        },
        None => RowOrder::Given,
    }
}

/// How a SELECT orders its rows.
pub fn order_of_select(select: &Select, columns: &Vec<String>) -> (how: RowOrder)
    ensures
        how == select_order(*select, views(columns@)),
{
    match &select.order_by {
        Some((col, desc)) => match position_of(columns, col) {
            Some(i) => RowOrder::Mixed(i, *desc),
            None => RowOrder::Given,
        },
        None => RowOrder::Given,
    }
}

/// Finishes the rows of an executed SELECT: DISTINCT, ORDER BY, LIMIT.
pub fn finish(select: &Select, columns: &Vec<String>, rows: Vec<ResultRow>) -> (out: Vec<
    Vec<Option<String>>,
>)
    ensures
        is_arranged(
            nested_opt(out@),
            views(rows@),
            select.is_distinct,
            select_order(*select, views(columns@)),
            select.limit,
        ),
{
    let how = order_of_select(select, columns);
    arrange(rows, select.is_distinct, how, select.limit)
}

/// The output columns of a row: all its fields for a star, else the plain columns.
pub open spec fn projected_names(select: Select, fields: Seq<FieldView>) -> Seq<Seq<char>> {
    if select.star {
        Seq::new(fields.len(), |i: int| fields[i].0)
    } else {
        bare_columns(views(select.cols@))
    }
}

/// The plain columns, without tables.
pub open spec fn bare_columns(cols: Seq<ColExprView>) -> Seq<Seq<char>>
    decreases cols.len(),
{
    if cols.len() == 0 {
        Seq::empty()
    } else {
        let before = bare_columns(cols.drop_last());
        match cols.last() {
            ColExprView::Col(n) => before.push(bare(n)),
            _ => before,
        }
    }
}

/// A field list's value under a name; null if it has none.
pub open spec fn field_or_null(fields: Seq<FieldView>, name: Seq<char>) -> ValueView {
    match find(fields, name) {
        Some(v) => v,
        None => ValueView::Null,
    }
}

/// Names with a field list's values.
pub open spec fn projection(names: Seq<Seq<char>>, fields: Seq<FieldView>) -> Seq<FieldView> {
    Seq::new(names.len(), |i: int| (names[i], field_or_null(fields, names[i])))
}

fn names_to_project(select: &Select, fields: &[Field]) -> (out: Vec<String>)
    ensures
        views(out@) == projected_names(*select, views(fields@)),
{
    let mut out: Vec<String> = Vec::new();
    let mut i: usize = 0;
    if select.star {
        let ghost all = projected_names(*select, views(fields@));
        while i < fields.len()
            invariant
                i <= fields@.len(),
                select.star,
                all == projected_names(*select, views(fields@)),
                views(out@) =~= all.take(i as int),
            decreases fields@.len() - i,
        {
            let ghost so_far = views(out@);
            assert(views(fields@)[i as int] == fields@[i as int]@);
            let n: String = fields[i].0.clone();
            assert(all[i as int] == n@);
            out.push(n);
            assert(views(out@) =~= so_far.push(n@));
            i = i + 1;
        }
        assert(all.take(i as int) =~= all);
    } else {
        let ghost cols = views(select.cols@);
        assert(views(out@) =~= bare_columns(cols.take(0)));
        while i < select.cols.len()
            invariant
                i <= select.cols@.len(),
                cols == views(select.cols@),
                views(out@) == bare_columns(cols.take(i as int)),
            decreases select.cols@.len() - i,
        {
            let ghost so_far = views(out@);
            assert(cols.take(i + 1).drop_last() =~= cols.take(i as int));
            assert(cols[i as int] == select.cols@[i as int]@);
            match &select.cols[i] {
                ColExpr::Col(n) => {
                    let b = bare_col(n.as_str());
                    out.push(b);
                    assert(views(out@) =~= so_far.push(b@));
                },
                _ => {},
            }
            i = i + 1;
        }
        assert(cols.take(i as int) =~= cols);
    }
    out
}

/// Applies a SELECT's WHERE to a combined field row and projects its output columns; none if the
/// row is filtered out. `SELECT *` emits all fields in order.
pub fn project_row(select: &Select, fields: &[Field], probes: &[Probe]) -> (r: Option<Vec<Field>>)
    ensures
        match r {
            Some(row) => passes(select.filter, lookup(views(fields@)), views(probes@)) && views(row@)
                == projection(projected_names(*select, views(fields@)), views(fields@)),
            None => !passes(select.filter, lookup(views(fields@)), views(probes@)),
        },
{
    let passed: bool = match &select.filter {
        Some(p) => eval_fields(p, fields, probes),
        None => true,
    };
    if !passed {
        return None;
    }
    let names = names_to_project(select, fields);
    let ghost all = projection(views(names@), views(fields@));
    let mut out: Vec<Field> = Vec::new();
    let mut i: usize = 0;
    while i < names.len()
        invariant
            i <= names@.len(),
            all == projection(views(names@), views(fields@)),
            views(out@) =~= all.take(i as int),
        decreases names@.len() - i,
    {
        let ghost so_far = views(out@);
        let n: String = names[i].clone();
        assert(views(names@)[i as int] == n@);
        let v = match find_field(fields, &n) {
            Some(v) => v.duplicate(),
            None => FieldValue::Null,
        };
        let f: Field = (n, v);
        assert(f@ == all[i as int]);
        out.push(f);
        assert(views(out@) =~= so_far.push(all[i as int]));
        i = i + 1;
    }
    assert(all.take(i as int) =~= all);
    Some(out)
}

/// Every group has an entry, and every entry is in the group of its key: no group is empty, and
/// grouping loses nothing.
pub proof fn law_groups_cover_the_entries<E: FieldExtractor>(
    ex: E,
    entries: Seq<EntryView>,
    group_cols: Seq<Seq<char>>,
    key_col: Option<Seq<char>>,
    i: int,
)
    requires
        0 <= i < entries.len(),
    ensures
        ({
            let key = entry_texts(ex, entries[i], group_cols, key_col);
            &&& first_seen(group_keys(ex, entries, group_cols, key_col)).contains(key)
            &&& group_members(ex, entries, group_cols, key_col, key).contains(entries[i])
        }),
{
    let keys = group_keys(ex, entries, group_cols, key_col);
    let key = entry_texts(ex, entries[i], group_cols, key_col);
    lemma_first_seen(keys);
    assert(keys[i] == key);
    let f = |e: EntryView| entry_texts(ex, e, group_cols, key_col) == key;
    entries.lemma_filter_contains(f, i);
}

/// A row is projected to the plain columns of a SELECT in order, each with the row's value, null if
/// it has none; `SELECT *` projects all its fields.
pub proof fn law_projections(select: Select, fields: Seq<FieldView>, k: int)
    requires
        0 <= k < if select.star {
            fields.len() as int
        } else {
            select.cols@.len() as int
        },
        !select.star ==> forall|i: int|
            0 <= i < select.cols@.len() ==> (#[trigger] select.cols@[i])@ is Col,
    ensures
        ({
            let row = projection(projected_names(select, fields), fields);
            let name = if select.star {
                fields[k].0
            } else {
                bare(select.cols@[k]@->Col_0)
            };
            &&& row.len() == if select.star {
                fields.len()
            } else {
                select.cols@.len()
            }
            &&& row[k].0 == name
            &&& row[k].1 == match lookup(fields)(name) {
                Some(v) => v,
                None => ValueView::Null,
            }
        }),
{
    if !select.star {
        let cols = views(select.cols@);
        assert forall|i: int| 0 <= i < cols.len() implies (#[trigger] cols[i]) is Col by {
            assert(select.cols@[i]@ is Col);
        }
        lemma_bare_columns(cols, k);
    }
}

proof fn lemma_bare_columns(cols: Seq<ColExprView>, k: int)
    requires
        0 <= k < cols.len(),
        forall|i: int| 0 <= i < cols.len() ==> (#[trigger] cols[i]) is Col,
    ensures
        bare_columns(cols).len() == cols.len(),
        bare_columns(cols)[k] == bare(cols[k]->Col_0),
    decreases cols.len(),
{
    let rest = cols.drop_last();
    assert(cols[cols.len() - 1] is Col);
    assert forall|i: int| 0 <= i < rest.len() implies (#[trigger] rest[i]) is Col by {
        assert(cols[i] is Col);
    }
    if rest.len() > 0 {
        lemma_bare_columns(
            rest,
            if k < rest.len() {
                k
            } else {
                0
            },
        );
    } else {
        assert(bare_columns(rest).len() == 0);
    }
}

/// Rows are ordered by the column of ORDER BY, if there is one of that name, in the direction that
/// it says, and else not at all.
pub proof fn law_orders_come_from_the_select(
    select: Select,
    columns: Seq<Seq<char>>,
    c: int,
)
    requires
        columns.len() <= usize::MAX,
        0 <= c < columns.len(),
        forall|i: int| 0 <= i < c ==> columns[i] != columns[c],
    ensures
        select.order_by matches Some((col, desc)) ==> (col@ == columns[c] ==> ordered_by(
            select_order(select, columns),
        ) == Some((c as usize, desc))),
        select.order_by matches Some((col, desc)) ==> (!columns.contains(col@) ==> select_order(
            select,
            columns,
        ) == RowOrder::Given),
        select.order_by is None ==> select_order(select, columns) == RowOrder::Given,
{
    if let Some((col, desc)) = select.order_by {
        lemma_name_found(columns, col@, 0, c);
    }
}

pub proof fn lemma_name_found(names: Seq<Seq<char>>, n: Seq<char>, from: int, c: int)
    requires
        0 <= from <= c < names.len(),
        forall|i: int| 0 <= i < c ==> names[i] != names[c],
    ensures
        n == names[c] ==> name_position(names, n, from) == Some(c),
        !names.contains(n) ==> name_position(names, n, from) is None,
    decreases names.len() - from,
{
    if from < c {
        assert(names.contains(names[from]));
        lemma_name_found(names, n, from + 1, c);
    } else if !names.contains(n) {
        lemma_name_missing(names, n, from);
    }
}

proof fn lemma_name_missing(names: Seq<Seq<char>>, n: Seq<char>, from: int)
    requires
        0 <= from,
        !names.contains(n),
    ensures
        name_position(names, n, from) is None,
    decreases names.len() - from,
{
    if from < names.len() {
        assert(names.contains(names[from]));
        lemma_name_missing(names, n, from + 1);
    }
}

} // verus!
