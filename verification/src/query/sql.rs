//! A small SQL surface: SELECT, CREATE MAPPING, INSERT and CREATE JOB.
//!
//! What follows a complete statement is not looked at.

use vstd::prelude::*;
use vstd::string::StrSliceExecFns;
use super::predicate::{
    bare, bare_col, compares, holds, law_connectives, Op, Predicate, ProbeView, RowView,
};
use super::token::{
    before, closed_at, col_ref_at, count_at, ident_at, integer_at, keyword_at, lemma_list_advances,
    lemma_tokens_advance, list_at, literal_at, op_at, pass_symbol, past, same_word, string_at,
    symbol_at, take_closed, take_count, take_integer, take_keyword, take_list, take_literal,
    take_op, take_string, take_symbol, take_word, words_match, Class, IdentPart, Input, LiteralPart,
    Part, Separator,
};
use super::value::{FieldValue, ValueView};
use crate::model::{nested, opt_view, views};
use crate::table::Table;

verus! {

#[derive(Clone, Copy, Debug, PartialEq, Eq, Structural)]
pub enum ColType {
    Varchar,
    Int,
    Bigint,
    Double,
    Boolean,
}

impl View for ColType {
    type V = ColType;

    open spec fn view(&self) -> ColType {
        *self
    }
}

#[derive(Clone, Copy, Debug, PartialEq, Eq, Structural)]
pub enum MappingKind {
    Imap,
    Kafka,
}

/// A `CREATE MAPPING` definition (catalog entry).
pub struct Mapping {
    pub name: String,
    pub kind: MappingKind,
    pub columns: Vec<(String, ColType)>,
    pub options: Table<String, String>,
}

/// What a [`Mapping`] holds.
pub struct MappingView {
    pub name: Seq<char>,
    pub kind: MappingKind,
    pub columns: Seq<(Seq<char>, ColType)>,
    pub options: Map<Seq<char>, Seq<char>>,
}

impl View for Mapping {
    type V = MappingView;

    open spec fn view(&self) -> MappingView {
        MappingView {
            name: self.name@,
            kind: self.kind,
            columns: views(self.columns@),
            options: self.options@,
        }
    }
}

impl Mapping {
    /// The value of an option.
    pub fn option(&self, k: &str) -> (r: Option<&str>)
        ensures
            match r {
                Some(v) => self@.options.contains_key(k@) && self@.options[k@] == v@,
                None => !self@.options.contains_key(k@),
            },
    {
        match self.options.get(&k.to_string()) {
            Some(v) => Some(v.as_str()),
            None => None,
        }
    }

    /// The format of the values: compact unless an option says otherwise.
    pub fn value_format(&self) -> (r: &str)
        ensures
            r@ == if self@.options.contains_key("valueFormat"@) {
                self@.options["valueFormat"@]
            } else {
                "compact"@
            },
    {
        match self.option("valueFormat") {
            Some(v) => v,
            None => "compact",
        }
    }
}

/// An `INSERT INTO <mapping> VALUES (..),(..)`.
#[derive(Debug, PartialEq, Eq)]
pub struct Insert {
    pub mapping: String,
    pub rows: Vec<Vec<FieldValue>>,
}

/// What an [`Insert`] holds.
pub struct InsertView {
    pub mapping: Seq<char>,
    pub rows: Seq<Seq<ValueView>>,
}

impl View for Insert {
    type V = InsertView;

    open spec fn view(&self) -> InsertView {
        InsertView { mapping: self.mapping@, rows: nested(self.rows@) }
    }
}

#[derive(Clone, Debug, PartialEq, Eq)]
pub enum ColExpr {
    Col(String),
    Count(String),
    Sum(String),
    Avg(String),
    Min(String),
    Max(String),
}

/// What a [`ColExpr`] holds.
pub enum ColExprView {
    Col(Seq<char>),
    Count(Seq<char>),
    Sum(Seq<char>),
    Avg(Seq<char>),
    Min(Seq<char>),
    Max(Seq<char>),
}

impl View for ColExpr {
    type V = ColExprView;

    open spec fn view(&self) -> ColExprView {
        match self {
            ColExpr::Col(n) => ColExprView::Col(n@),
            ColExpr::Count(n) => ColExprView::Count(n@),
            ColExpr::Sum(n) => ColExprView::Sum(n@),
            ColExpr::Avg(n) => ColExprView::Avg(n@),
            ColExpr::Min(n) => ColExprView::Min(n@),
            ColExpr::Max(n) => ColExprView::Max(n@),
        }
    }
}

/// A join clause: `JOIN <right> ON <left_col> = <right_col>`.
#[derive(Clone, Debug, PartialEq, Eq)]
pub struct Join {
    pub right: String,
    pub left_col: String,
    pub right_col: String,
}

/// What a [`Join`] holds.
pub struct JoinView {
    pub right: Seq<char>,
    pub left_col: Seq<char>,
    pub right_col: Seq<char>,
}

impl View for Join {
    type V = JoinView;

    open spec fn view(&self) -> JoinView {
        JoinView {
            right: self.right@,
            left_col: self.left_col@,
            right_col: self.right_col@,
        }
    }
}

/// Tumbling windows over a time column: `TUMBLE(<map>, <ts_col>, <size>)`.
#[derive(Clone, Debug, PartialEq, Eq)]
pub struct Window {
    pub ts_col: String,
    pub size: i64,
}

/// What a [`Window`] holds.
pub struct WindowView {
    pub ts_col: Seq<char>,
    pub size: i64,
}

impl View for Window {
    type V = WindowView;

    open spec fn view(&self) -> WindowView {
        WindowView { ts_col: self.ts_col@, size: self.size }
    }
}

#[derive(Debug, PartialEq, Eq)]
pub struct Select {
    pub is_distinct: bool,
    pub cols: Vec<ColExpr>,
    pub star: bool,
    pub map: String,
    pub window: Option<Window>,
    pub join: Option<Join>,
    pub filter: Option<Predicate>,
    pub group_by: Option<Vec<String>>,
    /// The column, and whether the order is descending.
    pub order_by: Option<(String, bool)>,
    pub limit: Option<usize>,
}

/// A condition of a WHERE clause.
pub struct CondView {
    pub field: Seq<char>,
    pub op: Op,
    pub value: ValueView,
}

/// What a SELECT says.
pub struct SelectView {
    pub is_distinct: bool,
    pub cols: Seq<ColExprView>,
    pub star: bool,
    pub map: Seq<char>,
    pub window: Option<WindowView>,
    pub join: Option<JoinView>,
    pub filter: Option<Seq<CondView>>,
    pub group_by: Option<Seq<Seq<char>>>,
    pub order_by: Option<(Seq<char>, bool)>,
    pub limit: Option<usize>,
}

/// Whether a predicate is a comparison of this condition.
pub open spec fn is_cond(p: Predicate, c: CondView) -> bool {
    p matches Predicate::Compare { field, op, value } && field@ == c.field && op == c.op && value@
        == c.value
}

/// Whether a predicate is what conditions joined by AND become: the comparison itself if there
/// is one, else all of them.
pub open spec fn is_filter(p: Predicate, conds: Seq<CondView>) -> bool {
    if conds.len() == 1 {
        is_cond(p, conds[0])
    } else {
        p matches Predicate::And(ps) && ps@.len() == conds.len() && forall|i: int|
            0 <= i < ps@.len() ==> is_cond(#[trigger] ps@[i], conds[i])
    }
}

impl Select {
    /// Whether this is the SELECT that a view says.
    pub open spec fn says(&self, v: SelectView) -> bool {
        &&& self.is_distinct == v.is_distinct
        &&& views(self.cols@) == v.cols
        &&& self.star == v.star
        &&& self.map@ == v.map
        &&& opt_view(self.window) == v.window
        &&& opt_view(self.join) == v.join
        &&& match v.filter {
            Some(conds) => self.filter matches Some(p) && is_filter(p, conds),
            None => self.filter is None,
        }
        &&& names_view(self.group_by) == v.group_by
        &&& match v.order_by {
            Some((c, d)) => self.order_by matches Some(o) && o.0@ == c && o.1 == d,
            None => self.order_by is None,
        }
        &&& self.limit == v.limit
    }
}

/// What a list of names holds, if there is one.
pub open spec fn names_view(names: Option<Vec<String>>) -> Option<Seq<Seq<char>>> {
    match names {
        Some(n) => Some(views(n@)),
        None => None,
    }
}

/// A `CREATE JOB <name> AS SINK INTO <sink> <select>`.
#[derive(Debug, PartialEq, Eq)]
pub struct Job {
    pub name: String,
    pub sink: String,
    pub select: Select,
}

/// A statement.
pub enum Statement {
    Select(Select),
    CreateMapping(Mapping),
    Insert(Insert),
    CreateJob(Job),
}

/// What a statement says.
pub enum StatementView {
    Select(SelectView),
    CreateMapping(MappingView),
    Insert(InsertView),
    CreateJob { name: Seq<char>, sink: Seq<char>, select: SelectView },
}

impl Statement {
    /// Whether this is the statement that a view says.
    pub open spec fn says(&self, v: StatementView) -> bool {
        match (self, v) {
            (Statement::Select(s), StatementView::Select(t)) => s.says(t),
            (Statement::CreateMapping(m), StatementView::CreateMapping(n)) => m@ == n,
            (Statement::Insert(i), StatementView::Insert(j)) => i@ == j,
            (
                Statement::CreateJob(j),
                StatementView::CreateJob { name, sink, select },
            ) => j.name@ == name && j.sink@ == sink && j.select.says(select),
            _ => false,
        }
    }
}

// ---- columns ----

/// The argument of an aggregate: a column reference between optional brackets.
pub open spec fn argument_at(s: Seq<char>, i: int) -> Option<(Seq<char>, int)> {
    match col_ref_at(s, past(s, i, '(')) {
        Some((n, j)) => Some((n, past(s, j, ')'))),
        None => None,
    }
}

fn take_argument(input: &Input, i: usize) -> (r: Option<(String, usize)>)
    requires
        input.wf(),
        i <= input.chars@.len(),
    ensures
        match r {
            Some((n, j)) => argument_at(input.text@, i as int) == Some((n@, j as int)) && i <= j
                <= input.chars@.len(),
            None => argument_at(input.text@, i as int) is None,
        },
{
    match take_word(input, pass_symbol(input, i, '('), Class::Reference) {
        Some((n, j)) => Some((n, pass_symbol(input, j, ')'))),
        None => None,
    }
}

/// The argument of COUNT: a star or a column reference.
pub open spec fn count_argument_at(s: Seq<char>, i: int) -> Option<(Seq<char>, int)> {
    match symbol_at(s, past(s, i, '('), '*') {
        Some(j) => Some(("*"@, past(s, j, ')'))),
        None => argument_at(s, i),
    }
}

fn take_count_argument(input: &Input, i: usize) -> (r: Option<(String, usize)>)
    requires
        input.wf(),
        i <= input.chars@.len(),
    ensures
        match r {
            Some((n, j)) => count_argument_at(input.text@, i as int) == Some((n@, j as int)) && i
                <= j <= input.chars@.len(),
            None => count_argument_at(input.text@, i as int) is None,
        },
{
    match take_symbol(input, pass_symbol(input, i, '('), '*') {
        Some(j) => Some(("*".to_string(), pass_symbol(input, j, ')'))),
        None => take_argument(input, i),
    }
}

/// A column of a SELECT: an aggregate or a column reference.
pub struct ColExprPart;

/// A column with the argument of its aggregate.
pub open spec fn aggregate_at(
    arg: Option<(Seq<char>, int)>,
    make: spec_fn(Seq<char>) -> ColExprView,
) -> Option<(ColExprView, int)> {
    match arg {
        Some((n, j)) => Some((make(n), j)),
        None => None,
    }
}

impl Part for ColExprPart {
    type Out = ColExpr;

    open spec fn at(s: Seq<char>, i: int) -> Option<(ColExprView, int)> {
        match keyword_at(s, i, "count"@) {
            Some(j) => aggregate_at(count_argument_at(s, j), |n: Seq<char>| ColExprView::Count(n)),
            None => match keyword_at(s, i, "sum"@) {
                Some(j) => aggregate_at(argument_at(s, j), |n: Seq<char>| ColExprView::Sum(n)),
                None => match keyword_at(s, i, "avg"@) {
                    Some(j) => aggregate_at(argument_at(s, j), |n: Seq<char>| ColExprView::Avg(n)),
                    None => match keyword_at(s, i, "min"@) {
                        Some(j) => aggregate_at(
                            argument_at(s, j),
                            |n: Seq<char>| ColExprView::Min(n),
                        ),
                        None => match keyword_at(s, i, "max"@) {
                            Some(j) => aggregate_at(
                                argument_at(s, j),
                                |n: Seq<char>| ColExprView::Max(n),
                            ),
                            None => aggregate_at(
                                col_ref_at(s, i),
                                |n: Seq<char>| ColExprView::Col(n),
                            ),
                        },
                    },
                },
            },
        }
    }

    proof fn advances(s: Seq<char>, i: int) {
        lemma_aggregate_advances(s, i, "count"@);
        lemma_aggregate_advances(s, i, "sum"@);
        lemma_aggregate_advances(s, i, "avg"@);
        lemma_aggregate_advances(s, i, "min"@);
        lemma_aggregate_advances(s, i, "max"@);
        lemma_tokens_advance(s, i, ',', Seq::empty(), Class::Reference);
    }

    fn take(input: &Input, i: usize) -> (r: Option<(ColExpr, usize)>) {
        if let Some(j) = take_keyword(input, i, "count") {
            return match take_count_argument(input, j) {
                Some((n, k)) => Some((ColExpr::Count(n), k)),
                None => None,
            };
        }
        if let Some(j) = take_keyword(input, i, "sum") {
            return match take_argument(input, j) {
                Some((n, k)) => Some((ColExpr::Sum(n), k)),
                None => None,
            };
        }
        if let Some(j) = take_keyword(input, i, "avg") {
            return match take_argument(input, j) {
                Some((n, k)) => Some((ColExpr::Avg(n), k)),
                None => None,
            };
        }
        if let Some(j) = take_keyword(input, i, "min") {
            return match take_argument(input, j) {
                Some((n, k)) => Some((ColExpr::Min(n), k)),
                None => None,
            };
        }
        if let Some(j) = take_keyword(input, i, "max") {
            return match take_argument(input, j) {
                Some((n, k)) => Some((ColExpr::Max(n), k)),
                None => None,
            };
        }
        match take_word(input, i, Class::Reference) {
            Some((n, k)) => Some((ColExpr::Col(n), k)),
            None => None,
        }
    }
}

proof fn lemma_aggregate_advances(s: Seq<char>, i: int, word: Seq<char>)
    requires
        0 <= i <= s.len(),
    ensures
        keyword_at(s, i, word) matches Some(j) ==> {
            &&& (argument_at(s, j) matches Some((n, k)) ==> i < k <= s.len())
            &&& (count_argument_at(s, j) matches Some((n, k)) ==> i < k <= s.len())
        },
{
    lemma_tokens_advance(s, i, ',', word, Class::Word);
    if let Some(j) = keyword_at(s, i, word) {
        lemma_tokens_advance(s, j, '(', Seq::empty(), Class::Word);
        let k = past(s, j, '(');
        lemma_tokens_advance(s, k, '*', Seq::empty(), Class::Reference);
        if let Some((n, e)) = col_ref_at(s, k) {
            lemma_tokens_advance(s, e, ')', Seq::empty(), Class::Word);
        }
        if let Some(e) = symbol_at(s, k, '*') {
            lemma_tokens_advance(s, e, ')', Seq::empty(), Class::Word);
        }
    }
}

// ---- conditions ----

/// A condition: a field, a comparison, a literal.
pub struct Cond {
    pub field: String,
    pub op: Op,
    pub value: FieldValue,
}

impl View for Cond {
    type V = CondView;

    open spec fn view(&self) -> CondView {
        CondView { field: self.field@, op: self.op, value: self.value@ }
    }
}

/// Conditions.
pub struct CondPart;

impl Part for CondPart {
    type Out = Cond;

    open spec fn at(s: Seq<char>, i: int) -> Option<(CondView, int)> {
        match ident_at(s, i) {
            None => None,
            Some((field, j)) => match op_at(s, j) {
                None => None,
                Some((op, k)) => match literal_at(s, k) {
                    None => None,
                    Some((value, e)) => Some((CondView { field, op, value }, e)),
                },
            },
        }
    }

    proof fn advances(s: Seq<char>, i: int) {
        lemma_tokens_advance(s, i, ',', Seq::empty(), Class::Word);
        if let Some((f, j)) = ident_at(s, i) {
            lemma_tokens_advance(s, j, ',', Seq::empty(), Class::Word);
            if let Some((o, k)) = op_at(s, j) {
                lemma_tokens_advance(s, k, ',', Seq::empty(), Class::Word);
            }
        }
    }

    fn take(input: &Input, i: usize) -> (r: Option<(Cond, usize)>) {
        let (field, j) = match take_word(input, i, Class::Word) {
            Some(x) => x,
            None => {
                return None;
            },
        };
        let (op, k) = match take_op(input, j) {
            Some(x) => x,
            None => {
                return None;
            },
        };
        match take_literal(input, k) {
            Some((value, e)) => Some((Cond { field, op, value }, e)),
            None => None,
        }
    }
}

fn filter_of(conds: Vec<Cond>) -> (p: Predicate)
    ensures
        is_filter(p, views(conds@)),
{
    let ghost all = views(conds@);
    let mut ps: Vec<Predicate> = Vec::new();
    let mut i: usize = 0;
    while i < conds.len()
        invariant
            i <= conds@.len(),
            all == views(conds@),
            ps@.len() == i,
            forall|j: int| 0 <= j < i ==> is_cond(#[trigger] ps@[j], all[j]),
        decreases conds@.len() - i,
    {
        let c = &conds[i];
        assert(all[i as int] == c@);
        let value = c.value.duplicate();
        ps.push(Predicate::Compare { field: c.field.clone(), op: c.op, value });
        i = i + 1;
    }
    if ps.len() == 1 {
        match ps.pop() {
            Some(p) => p,
            None => Predicate::And(ps),
        }
    } else {
        Predicate::And(ps)
    }
}

/// A filter holds of a row exactly if each of its conditions does.
pub proof fn law_filters_are_conjunctions(
    p: Predicate,
    conds: Seq<CondView>,
    row: RowView,
    probes: Seq<ProbeView>,
)
    requires
        is_filter(p, conds),
    ensures
        holds(p, row, probes) <==> forall|i: int|
            0 <= i < conds.len() ==> compares(
                row(bare((#[trigger] conds[i]).field)),
                conds[i].op,
                conds[i].value,
            ),
{
    if conds.len() != 1 {
        let ps = p->And_0;
        law_connectives(ps, row, probes);
        assert forall|i: int| 0 <= i < conds.len() implies holds(#[trigger] ps@[i], row, probes)
            == compares(row(bare(conds[i].field)), conds[i].op, conds[i].value) by {
            assert(is_cond(ps@[i], conds[i]));
        }
        if holds(p, row, probes) {
            assert forall|i: int| 0 <= i < conds.len() implies compares(
                row(bare((#[trigger] conds[i]).field)),
                conds[i].op,
                conds[i].value,
            ) by {
                assert(holds(ps@[i], row, probes));
            }
        }
    }
}

// ---- clauses ----

/// What a SELECT reads from: a map, or tumbling windows over one.
pub open spec fn source_at(s: Seq<char>, i: int) -> Option<
    ((Seq<char>, Option<WindowView>), int),
> {
    match keyword_at(s, i, "tumble"@) {
        None => plain_source_at(s, i),
        Some(j) => match symbol_at(s, j, '(') {
            None => plain_source_at(s, i),
            Some(k) => tumble_at(s, k),
        },
    }
}

pub open spec fn plain_source_at(s: Seq<char>, i: int) -> Option<
    ((Seq<char>, Option<WindowView>), int),
> {
    match ident_at(s, i) {
        Some((map, j)) => Some(((map, None), j)),
        None => None,
    }
}

/// What stands in the brackets of TUMBLE: a map, a time column and a positive size.
pub open spec fn tumble_at(s: Seq<char>, i: int) -> Option<
    ((Seq<char>, Option<WindowView>), int),
> {
    match name_and_comma_at(s, i) {
        None => None,
        Some((map, j)) => match name_and_comma_at(s, j) {
            None => None,
            Some((ts_col, k)) => match integer_at(s, k) {
                None => None,
                Some((size, m)) => match symbol_at(s, m, ')') {
                    Some(e) => if size > 0 {
                        Some(((map, Some(WindowView { ts_col, size })), e))
                    } else {
                        None
                    },
                    None => None,
                },
            },
        },
    }
}

pub open spec fn name_and_comma_at(s: Seq<char>, i: int) -> Option<(Seq<char>, int)> {
    match ident_at(s, i) {
        None => None,
        Some((n, j)) => match symbol_at(s, j, ',') {
            Some(k) => Some((n, k)),
            None => None,
        },
    }
}

fn take_name_and_comma(input: &Input, i: usize) -> (r: Option<(String, usize)>)
    requires
        input.wf(),
        i <= input.chars@.len(),
    ensures
        match r {
            Some((n, j)) => name_and_comma_at(input.text@, i as int) == Some((n@, j as int)) && i
                < j <= input.chars@.len(),
            None => name_and_comma_at(input.text@, i as int) is None,
        },
{
    match take_word(input, i, Class::Word) {
        None => None,
        Some((n, j)) => match take_symbol(input, j, ',') {
            Some(k) => Some((n, k)),
            None => None,
        },
    }
}

fn take_tumble(input: &Input, i: usize) -> (r: Option<(String, Window, usize)>)
    requires
        input.wf(),
        i <= input.chars@.len(),
    ensures
        match r {
            Some((m, w, j)) => tumble_at(input.text@, i as int) == Some(
                ((m@, Some(w@)), j as int),
            ) && i < j <= input.chars@.len(),
            None => tumble_at(input.text@, i as int) is None,
        },
{
    let (map, j) = match take_name_and_comma(input, i) {
        Some(x) => x,
        None => {
            return None;
        },
    };
    let (ts_col, k) = match take_name_and_comma(input, j) {
        Some(x) => x,
        None => {
            return None;
        },
    };
    let (size, m) = match take_integer(input, k) {
        Some(x) => x,
        None => {
            return None;
        },
    };
    match take_symbol(input, m, ')') {
        Some(e) => if size > 0 {
            Some((map, Window { ts_col, size }, e))
        } else {
            None
        },
        None => None,
    }
}

fn take_source(input: &Input, i: usize) -> (r: Option<(String, Option<Window>, usize)>)
    requires
        input.wf(),
        i <= input.chars@.len(),
    ensures
        match r {
            Some((m, w, j)) => source_at(input.text@, i as int) == Some(
                ((m@, opt_view(w)), j as int),
            ) && i < j <= input.chars@.len(),
            None => source_at(input.text@, i as int) is None,
        },
{
    if let Some(j) = take_keyword(input, i, "tumble") {
        if let Some(k) = take_symbol(input, j, '(') {
            return match take_tumble(input, k) {
                Some((map, w, e)) => Some((map, Some(w), e)),
                None => None,
            };
        }
    }
    match take_word(input, i, Class::Word) {
        Some((map, j)) => Some((map, None, j)),
        None => None,
    }
}

/// Whether a column reference is qualified by a table.
pub open spec fn qualified_by(c: Seq<char>, table: Seq<char>) -> bool {
    table.len() < c.len() && c.take(table.len() as int) == table && c[table.len() as int] == '.'
}

fn is_qualified_by(c: &String, table: &String) -> (b: bool)
    ensures
        b == qualified_by(c@, table@),
{
    let n: usize = table.as_str().unicode_len();
    if n >= c.as_str().unicode_len() {
        return false;
    }
    let start: String = c.as_str().substring_char(0, n).to_string();
    assert(start@ =~= c@.take(n as int));
    start == *table && c.as_str().get_char(n) == '.'
}

/// The columns of `ON a = b`, the left table's first: the references are swapped where a
/// qualifier says so, and their qualifiers dropped.
pub open spec fn join_columns(
    left: Seq<char>,
    right: Seq<char>,
    a: Seq<char>,
    b: Seq<char>,
) -> (Seq<char>, Seq<char>) {
    if qualified_by(a, right) || qualified_by(b, left) {
        (bare(b), bare(a))
    } else {
        (bare(a), bare(b))
    }
}

fn split_join_cols(left: &String, right: &String, a: &String, b: &String) -> (r: (String, String))
    ensures
        (r.0@, r.1@) == join_columns(left@, right@, a@, b@),
{
    if is_qualified_by(a, right) || is_qualified_by(b, left) {
        (bare_col(b.as_str()), bare_col(a.as_str()))
    } else {
        (bare_col(a.as_str()), bare_col(b.as_str()))
    }
}

/// A join clause, if there is one.
pub open spec fn join_at(s: Seq<char>, i: int, left: Seq<char>) -> Option<
    (Option<JoinView>, int),
> {
    match keyword_at(s, i, "join"@) {
        None => Some((None, i)),
        Some(j) => match ident_at(s, j) {
            None => None,
            Some((right, k)) => match keyword_at(s, k, "on"@) {
                None => None,
                Some(m) => match equation_at(s, m) {
                    None => None,
                    Some(((a, b), e)) => Some(
                        (
                            Some(
                                JoinView {
                                    right,
                                    left_col: join_columns(left, right, a, b).0,
                                    right_col: join_columns(left, right, a, b).1,
                                },
                            ),
                            e,
                        ),
                    ),
                },
            },
        },
    }
}

/// Two column references with a comparison sign between them.
pub open spec fn equation_at(s: Seq<char>, i: int) -> Option<((Seq<char>, Seq<char>), int)> {
    match col_ref_at(s, i) {
        None => None,
        Some((a, j)) => match op_at(s, j) {
            None => None,
            Some((o, k)) => match col_ref_at(s, k) {
                Some((b, e)) => Some(((a, b), e)),
                None => None,
            },
        },
    }
}

fn take_equation(input: &Input, i: usize) -> (r: Option<(String, String, usize)>)
    requires
        input.wf(),
        i <= input.chars@.len(),
    ensures
        match r {
            Some((a, b, j)) => equation_at(input.text@, i as int) == Some(((a@, b@), j as int)) && i
                < j <= input.chars@.len(),
            None => equation_at(input.text@, i as int) is None,
        },
{
    let (a, j) = match take_word(input, i, Class::Reference) {
        Some(x) => x,
        None => {
            return None;
        },
    };
    let (_, k) = match take_op(input, j) {
        Some(x) => x,
        None => {
            return None;
        },
    };
    match take_word(input, k, Class::Reference) {
        Some((b, e)) => Some((a, b, e)),
        None => None,
    }
}

fn take_join(input: &Input, i: usize, left: &String) -> (r: Option<(Option<Join>, usize)>)
    requires
        input.wf(),
        i <= input.chars@.len(),
    ensures
        match r {
            Some((v, j)) => join_at(input.text@, i as int, left@) == Some((opt_view(v), j as int))
                && i <= j <= input.chars@.len(),
            None => join_at(input.text@, i as int, left@) is None,
        },
{
    let j: usize = match take_keyword(input, i, "join") {
        Some(j) => j,
        None => {
            return Some((None, i));
        },
    };
    let (right, k) = match take_word(input, j, Class::Word) {
        Some(x) => x,
        None => {
            return None;
        },
    };
    let m: usize = match take_keyword(input, k, "on") {
        Some(m) => m,
        None => {
            return None;
        },
    };
    match take_equation(input, m) {
        None => None,
        Some((a, b, e)) => {
            let (left_col, right_col) = split_join_cols(left, &right, &a, &b);
            Some((Some(Join { right, left_col, right_col }), e))
        },
    }
}

/// A WHERE clause, if there is one.
pub open spec fn where_at(s: Seq<char>, i: int) -> Option<(Option<Seq<CondView>>, int)> {
    match keyword_at(s, i, "where"@) {
        None => Some((None, i)),
        Some(j) => match list_at::<CondPart>(s, j, Separator::And) {
            Some((conds, e)) => Some((Some(conds), e)),
            None => None,
        },
    }
}

fn take_where(input: &Input, i: usize) -> (r: Option<(Option<Predicate>, usize)>)
    requires
        input.wf(),
        i <= input.chars@.len(),
    ensures
        match r {
            Some((f, j)) => i <= j <= input.chars@.len() && (where_at(input.text@, i as int) matches
                Some((v, e)) && e == j && match v {
                Some(conds) => f matches Some(p) && is_filter(p, conds),
                None => f is None,
            }),
            None => where_at(input.text@, i as int) is None,
        },
{
    match take_keyword(input, i, "where") {
        None => Some((None, i)),
        Some(j) => match take_list::<CondPart>(input, j, Separator::And) {
            Some((conds, e)) => Some((Some(filter_of(conds)), e)),
            None => None,
        },
    }
}

/// A GROUP BY clause, if there is one.
pub open spec fn group_at(s: Seq<char>, i: int) -> Option<(Option<Seq<Seq<char>>>, int)> {
    match keyword_at(s, i, "group"@) {
        None => Some((None, i)),
        Some(j) => match keyword_at(s, j, "by"@) {
            None => None,
            Some(k) => match list_at::<IdentPart>(s, k, Separator::Comma) {
                Some((names, e)) => Some((Some(names), e)),
                None => None,
            },
        },
    }
}

fn take_group(input: &Input, i: usize) -> (r: Option<(Option<Vec<String>>, usize)>)
    requires
        input.wf(),
        i <= input.chars@.len(),
    ensures
        match r {
            Some((v, j)) => group_at(input.text@, i as int) == Some((names_view(v), j as int)) && i
                <= j <= input.chars@.len(),
            None => group_at(input.text@, i as int) is None,
        },
{
    let j: usize = match take_keyword(input, i, "group") {
        Some(j) => j,
        None => {
            return Some((None, i));
        },
    };
    let k: usize = match take_keyword(input, j, "by") {
        Some(k) => k,
        None => {
            return None;
        },
    };
    match take_list::<IdentPart>(input, k, Separator::Comma) {
        Some((names, e)) => Some((Some(names), e)),
        None => None,
    }
}

/// An ORDER BY clause, if there is one; ascending unless DESC is said.
pub open spec fn order_at(s: Seq<char>, i: int) -> Option<(Option<(Seq<char>, bool)>, int)> {
    match keyword_at(s, i, "order"@) {
        None => Some((None, i)),
        Some(j) => match keyword_at(s, j, "by"@) {
            None => None,
            Some(k) => match ident_at(s, k) {
                None => None,
                Some((col, m)) => match keyword_at(s, m, "desc"@) {
                    Some(e) => Some((Some((col, true)), e)),
                    None => match keyword_at(s, m, "asc"@) {
                        Some(e) => Some((Some((col, false)), e)),
                        None => Some((Some((col, false)), m)),
                    },
                },
            },
        },
    }
}

/// What an order holds.
pub open spec fn order_view(o: Option<(String, bool)>) -> Option<(Seq<char>, bool)> {
    match o {
        Some((c, d)) => Some((c@, d)),
        None => None,
    }
}

fn take_order(input: &Input, i: usize) -> (r: Option<(Option<(String, bool)>, usize)>)
    requires
        input.wf(),
        i <= input.chars@.len(),
    ensures
        match r {
            Some((v, j)) => order_at(input.text@, i as int) == Some((order_view(v), j as int)) && i
                <= j <= input.chars@.len(),
            None => order_at(input.text@, i as int) is None,
        },
{
    let j: usize = match take_keyword(input, i, "order") {
        Some(j) => j,
        None => {
            return Some((None, i));
        },
    };
    let k: usize = match take_keyword(input, j, "by") {
        Some(k) => k,
        None => {
            return None;
        },
    };
    let (col, m) = match take_word(input, k, Class::Word) {
        Some(x) => x,
        None => {
            return None;
        },
    };
    match take_keyword(input, m, "desc") {
        Some(e) => Some((Some((col, true)), e)),
        None => match take_keyword(input, m, "asc") {
            Some(e) => Some((Some((col, false)), e)),
            None => Some((Some((col, false)), m)),
        },
    }
}

/// A LIMIT clause, if there is one.
pub open spec fn limit_at(s: Seq<char>, i: int) -> Option<(Option<usize>, int)> {
    match keyword_at(s, i, "limit"@) {
        None => Some((None, i)),
        Some(j) => match count_at(s, j) {
            Some((n, e)) => if n <= usize::MAX {
                Some((Some(n as usize), e))
            } else {
                None
            },
            None => None,
        },
    }
}

fn take_limit(input: &Input, i: usize) -> (r: Option<(Option<usize>, usize)>)
    requires
        input.wf(),
        i <= input.chars@.len(),
    ensures
        match r {
            Some((v, j)) => limit_at(input.text@, i as int) == Some((v, j as int)) && i <= j
                <= input.chars@.len(),
            None => limit_at(input.text@, i as int) is None,
        },
{
    match take_keyword(input, i, "limit") {
        None => Some((None, i)),
        Some(j) => match take_count(input, j) {
            Some((n, e)) => if n <= usize::MAX as u64 {
                Some((Some(n as usize), e))
            } else {
                None
            },
            None => None,
        },
    }
}

/// The columns of a SELECT: whether it is a star, and the columns if not.
pub open spec fn columns_at(s: Seq<char>, i: int) -> Option<((bool, Seq<ColExprView>), int)> {
    match symbol_at(s, i, '*') {
        Some(j) => Some(((true, Seq::empty()), j)),
        None => match list_at::<ColExprPart>(s, i, Separator::Comma) {
            Some((cols, j)) => Some(((false, cols), j)),
            None => None,
        },
    }
}

fn take_columns(input: &Input, i: usize) -> (r: Option<(bool, Vec<ColExpr>, usize)>)
    requires
        input.wf(),
        i <= input.chars@.len(),
    ensures
        match r {
            Some((star, cols, j)) => columns_at(input.text@, i as int) == Some(
                ((star, views(cols@)), j as int),
            ) && i <= j <= input.chars@.len(),
            None => columns_at(input.text@, i as int) is None,
        },
{
    match take_symbol(input, i, '*') {
        Some(j) => {
            let cols: Vec<ColExpr> = Vec::new();
            assert(views(cols@) =~= Seq::empty());
            Some((true, cols, j))
        },
        None => match take_list::<ColExprPart>(input, i, Separator::Comma) {
            Some((cols, j)) => Some((false, cols, j)),
            None => None,
        },
    }
}

/// What follows SELECT.
pub open spec fn select_at(s: Seq<char>, i: int) -> Option<SelectView> {
    let (is_distinct, i1) = match keyword_at(s, i, "distinct"@) {
        Some(j) => (true, j),
        None => (false, i),
    };
    match columns_at(s, i1) {
        None => None,
        Some(((star, cols), i2)) => match keyword_at(s, i2, "from"@) {
            None => None,
            Some(i3) => match source_at(s, i3) {
                None => None,
                Some(((map, window), i4)) => match clauses_at(s, i4, map) {
                    None => None,
                    Some((join, filter, group_by, order_by, limit)) => Some(
                        SelectView {
                            is_distinct,
                            cols,
                            star,
                            map,
                            window,
                            join,
                            filter,
                            group_by,
                            order_by,
                            limit,
                        },
                    ),
                },
            },
        },
    }
}

/// The clauses that may follow what a SELECT reads from, in their order.
pub open spec fn clauses_at(s: Seq<char>, i: int, map: Seq<char>) -> Option<
    (
        Option<JoinView>,
        Option<Seq<CondView>>,
        Option<Seq<Seq<char>>>,
        Option<(Seq<char>, bool)>,
        Option<usize>,
    ),
> {
    match join_at(s, i, map) {
        None => None,
        Some((join, j)) => match where_at(s, j) {
            None => None,
            Some((filter, k)) => match group_at(s, k) {
                None => None,
                Some((group_by, m)) => match order_at(s, m) {
                    None => None,
                    Some((order_by, n)) => match limit_at(s, n) {
                        None => None,
                        Some((limit, e)) => Some((join, filter, group_by, order_by, limit)),
                    },
                },
            },
        },
    }
}

fn parse_select_body(input: &Input, i: usize) -> (r: Option<Select>)
    requires
        input.wf(),
        i <= input.chars@.len(),
    ensures
        match r {
            Some(v) => select_at(input.text@, i as int) matches Some(t) && v.says(t),
            None => select_at(input.text@, i as int) is None,
        },
{
    let distinct = take_keyword(input, i, "distinct");
    let is_distinct: bool = distinct.is_some();
    let i1: usize = match distinct {
        Some(j) => j,
        None => i,
    };
    let (star, cols, i2) = match take_columns(input, i1) {
        Some(x) => x,
        None => {
            return None;
        },
    };
    let i3: usize = match take_keyword(input, i2, "from") {
        Some(j) => j,
        None => {
            return None;
        },
    };
    let (map, window, i4) = match take_source(input, i3) {
        Some(x) => x,
        None => {
            return None;
        },
    };
    let (join, i5) = match take_join(input, i4, &map) {
        Some(x) => x,
        None => {
            return None;
        },
    };
    let (filter, i6) = match take_where(input, i5) {
        Some(x) => x,
        None => {
            return None;
        },
    };
    let (group_by, i7) = match take_group(input, i6) {
        Some(x) => x,
        None => {
            return None;
        },
    };
    let (order_by, i8) = match take_order(input, i7) {
        Some(x) => x,
        None => {
            return None;
        },
    };
    let (limit, i9) = match take_limit(input, i8) {
        Some(x) => x,
        None => {
            return None;
        },
    };
    Some(
        Select { is_distinct, cols, star, map, window, join, filter, group_by, order_by, limit },
    )
}

// ---- CREATE MAPPING ----

/// The column type of a name; an unknown name is text.
pub open spec fn coltype_of(name: Seq<char>) -> ColType {
    if same_word(name, "int"@) || same_word(name, "integer"@) {
        ColType::Int
    } else if same_word(name, "bigint"@) {
        ColType::Bigint
    } else if same_word(name, "double"@) {
        ColType::Double
    } else if same_word(name, "boolean"@) {
        ColType::Boolean
    } else {
        ColType::Varchar
    }
}

fn parse_coltype(name: &str) -> (t: ColType)
    ensures
        t == coltype_of(name@),
{
    if words_match(name, "int") || words_match(name, "integer") {
        ColType::Int
    } else if words_match(name, "bigint") {
        ColType::Bigint
    } else if words_match(name, "double") {
        ColType::Double
    } else if words_match(name, "boolean") {
        ColType::Boolean
    } else {
        ColType::Varchar
    }
}

/// Declared columns: a name and a type.
pub struct ColumnPart;

impl Part for ColumnPart {
    type Out = (String, ColType);

    open spec fn at(s: Seq<char>, i: int) -> Option<((Seq<char>, ColType), int)> {
        match ident_at(s, i) {
            None => None,
            Some((col, j)) => match ident_at(s, j) {
                Some((ty, k)) => Some(((col, coltype_of(ty)), k)),
                None => None,
            },
        }
    }

    proof fn advances(s: Seq<char>, i: int) {
        lemma_tokens_advance(s, i, ',', Seq::empty(), Class::Word);
        if let Some((c, j)) = ident_at(s, i) {
            lemma_tokens_advance(s, j, ',', Seq::empty(), Class::Word);
        }
    }

    fn take(input: &Input, i: usize) -> (r: Option<((String, ColType), usize)>) {
        match take_word(input, i, Class::Word) {
            None => None,
            Some((col, j)) => match take_word(input, j, Class::Word) {
                Some((ty, k)) => {
                    let t = parse_coltype(ty.as_str());
                    Some(((col, t), k))
                },
                None => None,
            },
        }
    }
}

/// The position behind a comparison sign that may be there.
pub open spec fn past_op(s: Seq<char>, i: int) -> int {
    match op_at(s, i) {
        Some((o, j)) => j,
        None => i,
    }
}

/// Options: quoted name and value, with a sign between them that may be left out.
pub struct OptionPart;

impl Part for OptionPart {
    type Out = (String, String);

    open spec fn at(s: Seq<char>, i: int) -> Option<((Seq<char>, Seq<char>), int)> {
        match string_at(s, i) {
            None => None,
            Some((k, j)) => match string_at(s, past_op(s, j)) {
                Some((v, e)) => Some(((k, v), e)),
                None => None,
            },
        }
    }

    proof fn advances(s: Seq<char>, i: int) {
        lemma_tokens_advance(s, i, ',', Seq::empty(), Class::Word);
        if let Some((k, j)) = string_at(s, i) {
            lemma_tokens_advance(s, j, ',', Seq::empty(), Class::Word);
            lemma_tokens_advance(s, past_op(s, j), ',', Seq::empty(), Class::Word);
        }
    }

    fn take(input: &Input, i: usize) -> (r: Option<((String, String), usize)>) {
        match take_string(input, i) {
            None => None,
            Some((k, j)) => {
                let m: usize = match take_op(input, j) {
                    Some((_, m)) => m,
                    None => j,
                };
                match take_string(input, m) {
                    Some((v, e)) => Some(((k, v), e)),
                    None => None,
                }
            },
        }
    }
}

/// The table that options make: of two of one name, the later one counts.
pub open spec fn options_map(options: Seq<(Seq<char>, Seq<char>)>) -> Map<Seq<char>, Seq<char>>
    decreases options.len(),
{
    if options.len() == 0 {
        Map::empty()
    } else {
        options_map(options.drop_last()).insert(options.last().0, options.last().1)
    }
}

fn table_of_options(options: Vec<(String, String)>) -> (t: Table<String, String>)
    ensures
        t@ == options_map(views(options@)),
{
    let ghost all = views(options@);
    let mut t: Table<String, String> = Table::new();
    let mut i: usize = 0;
    assert(all.take(0) =~= Seq::empty());
    while i < options.len()
        invariant
            i <= options@.len(),
            all == views(options@),
            t@ == options_map(all.take(i as int)),
        decreases options@.len() - i,
    {
        let o = &options[i];
        assert(all[i as int] == o@);
        assert(all.take(i + 1).drop_last() =~= all.take(i as int));
        t.insert(o.0.clone(), o.1.clone());
        i = i + 1;
    }
    assert(all.take(i as int) =~= all);
    t
}

/// The declared columns, if there are any.
pub open spec fn declared_at(s: Seq<char>, i: int) -> Option<(Seq<(Seq<char>, ColType)>, int)> {
    match symbol_at(s, i, '(') {
        None => Some((Seq::empty(), i)),
        Some(j) => closed_at::<ColumnPart>(s, j),
    }
}

fn take_declared(input: &Input, i: usize) -> (r: Option<(Vec<(String, ColType)>, usize)>)
    requires
        input.wf(),
        i <= input.chars@.len(),
    ensures
        match r {
            Some((v, j)) => declared_at(input.text@, i as int) == Some((views(v@), j as int)) && i
                <= j <= input.chars@.len(),
            None => declared_at(input.text@, i as int) is None,
        },
{
    match take_symbol(input, i, '(') {
        None => {
            let none: Vec<(String, ColType)> = Vec::new();
            assert(views(none@) =~= Seq::empty());
            Some((none, i))
        },
        Some(j) => take_closed::<ColumnPart>(input, j),
    }
}

/// The options, if there are any.
pub open spec fn options_at(s: Seq<char>, i: int) -> Option<Seq<(Seq<char>, Seq<char>)>> {
    match keyword_at(s, i, "options"@) {
        None => Some(Seq::empty()),
        Some(j) => match symbol_at(s, j, '(') {
            None => Some(Seq::empty()),
            Some(k) => match closed_at::<OptionPart>(s, k) {
                Some((o, e)) => Some(o),
                None => None,
            },
        },
    }
}

fn take_options(input: &Input, i: usize) -> (r: Option<Vec<(String, String)>>)
    requires
        input.wf(),
        i <= input.chars@.len(),
    ensures
        match r {
            Some(v) => options_at(input.text@, i as int) == Some(views(v@)),
            None => options_at(input.text@, i as int) is None,
        },
{
    let none: Vec<(String, String)> = Vec::new();
    assert(views(none@) =~= Seq::empty());
    match take_keyword(input, i, "options") {
        None => Some(none),
        Some(j) => match take_symbol(input, j, '(') {
            None => Some(none),
            Some(k) => match take_closed::<OptionPart>(input, k) {
                Some((o, _)) => Some(o),
                None => None,
            },
        },
    }
}

/// What follows CREATE MAPPING.
pub open spec fn mapping_at(s: Seq<char>, i: int) -> Option<MappingView> {
    match ident_at(s, i) {
        None => None,
        Some((name, j)) => match declared_at(s, j) {
            None => None,
            Some((columns, k)) => match keyword_at(s, k, "type"@) {
                None => None,
                Some(m) => match ident_at(s, m) {
                    None => None,
                    Some((kind, n)) => match options_at(s, n) {
                        None => None,
                        Some(options) => Some(
                            MappingView {
                                name,
                                kind: if same_word(kind, "kafka"@) {
                                    MappingKind::Kafka
                                } else {
                                    MappingKind::Imap
                                },
                                columns,
                                options: options_map(options),
                            },
                        ),
                    },
                },
            },
        },
    }
}

fn parse_create_mapping(input: &Input, i: usize) -> (r: Option<Mapping>)
    requires
        input.wf(),
        i <= input.chars@.len(),
    ensures
        match r {
            Some(m) => mapping_at(input.text@, i as int) == Some(m@),
            None => mapping_at(input.text@, i as int) is None,
        },
{
    let (name, j) = match take_word(input, i, Class::Word) {
        Some(x) => x,
        None => {
            return None;
        },
    };
    let (columns, k) = match take_declared(input, j) {
        Some(x) => x,
        None => {
            return None;
        },
    };
    let m: usize = match take_keyword(input, k, "type") {
        Some(m) => m,
        None => {
            return None;
        },
    };
    let (word, n) = match take_word(input, m, Class::Word) {
        Some(x) => x,
        None => {
            return None;
        },
    };
    let kind = if words_match(word.as_str(), "kafka") {
        MappingKind::Kafka
    } else {
        MappingKind::Imap
    };
    match take_options(input, n) {
        Some(o) => Some(Mapping { name, kind, columns, options: table_of_options(o) }),
        None => None,
    }
}

// ---- INSERT ----

/// Rows in brackets with commas between them; a comma at the end is no fault.
pub open spec fn rows_at(s: Seq<char>, i: int) -> Option<(Seq<Seq<ValueView>>, int)>
    decreases s.len() - i,
    when 0 <= i <= s.len()
    via rows_at_decreases
{
    match symbol_at(s, i, '(') {
        None => Some((Seq::empty(), i)),
        Some(j) => match list_at::<LiteralPart>(s, j, Separator::Comma) {
            None => None,
            Some((row, k)) => match symbol_at(s, past(s, k, ')'), ',') {
                None => Some((seq![row], past(s, k, ')'))),
                Some(n) => before(seq![row], rows_at(s, n)),
            },
        },
    }
}

#[via_fn]
proof fn rows_at_decreases(s: Seq<char>, i: int) {
    lemma_row_advances(s, i);
}

proof fn lemma_row_advances(s: Seq<char>, i: int)
    requires
        0 <= i <= s.len(),
    ensures
        symbol_at(s, i, '(') matches Some(j) ==> i < j <= s.len() && (list_at::<LiteralPart>(
            s,
            j,
            Separator::Comma,
        ) matches Some((row, k)) ==> i < k <= s.len() && k <= past(s, k, ')') <= s.len() && (
        symbol_at(s, past(s, k, ')'), ',') matches Some(n) ==> i < n <= s.len())),
{
    lemma_tokens_advance(s, i, '(', Seq::empty(), Class::Word);
    if let Some(j) = symbol_at(s, i, '(') {
        lemma_list_advances::<LiteralPart>(s, j, Separator::Comma);
        if let Some((row, k)) = list_at::<LiteralPart>(s, j, Separator::Comma) {
            lemma_tokens_advance(s, k, ')', Seq::empty(), Class::Word);
            lemma_tokens_advance(s, past(s, k, ')'), ',', Seq::empty(), Class::Word);
        }
    }
}

fn take_rows(input: &Input, start: usize) -> (r: Option<Vec<Vec<FieldValue>>>)
    requires
        input.wf(),
        start <= input.chars@.len(),
    ensures
        match r {
            Some(v) => rows_at(input.text@, start as int) matches Some((rows, e)) && nested(v@)
                == rows,
            None => rows_at(input.text@, start as int) is None,
        },
{
    let ghost s = input.text@;
    let ghost whole = rows_at(s, start as int);
    let mut out: Vec<Vec<FieldValue>> = Vec::new();
    let mut i: usize = start;
    proof {
        assert(nested(out@) =~= Seq::empty());
        if let Some((v, e)) = whole {
            assert(Seq::empty() + v =~= v);
        }
    }
    loop
        invariant
            input.wf(),
            s == input.text@,
            i <= s.len(),
            whole == rows_at(s, start as int),
            whole == before(nested(out@), rows_at(s, i as int)),
        decreases s.len() - i,
    {
        let ghost so_far = nested(out@);
        proof {
            lemma_row_advances(s, i as int);
        }
        let j: usize = match take_symbol(input, i, '(') {
            Some(j) => j,
            None => {
                assert(so_far + Seq::empty() =~= so_far);
                return Some(out);
            },
        };
        match take_list::<LiteralPart>(input, j, Separator::Comma) {
            None => {
                return None;
            },
            Some((row, k)) => {
                let ghost x = views(row@);
                out.push(row);
                assert(nested(out@) =~= so_far.push(x));
                match take_symbol(input, pass_symbol(input, k, ')'), ',') {
                    None => {
                        assert(so_far + seq![x] =~= nested(out@));
                        return Some(out);
                    },
                    Some(n) => {
                        proof {
                            if let Some((more, e)) = rows_at(s, n as int) {
                                assert(so_far + (seq![x] + more) =~= nested(out@) + more);
                            }
                        }
                        i = n;
                    },
                }
            },
        }
    }
}

/// The position behind a column list that may be there; the list itself is not used, as values
/// go by position.
pub open spec fn past_names(s: Seq<char>, i: int) -> Option<int> {
    match symbol_at(s, i, '(') {
        None => Some(i),
        Some(j) => match closed_at::<IdentPart>(s, j) {
            Some((names, e)) => Some(e),
            None => None,
        },
    }
}

/// What follows INSERT.
pub open spec fn insert_at(s: Seq<char>, i: int) -> Option<InsertView> {
    match keyword_at(s, i, "into"@) {
        None => None,
        Some(j) => match ident_at(s, j) {
            None => None,
            Some((mapping, k)) => match past_names(s, k) {
                None => None,
                Some(m) => match keyword_at(s, m, "values"@) {
                    None => None,
                    Some(n) => match rows_at(s, n) {
                        Some((rows, e)) => Some(InsertView { mapping, rows }),
                        None => None,
                    },
                },
            },
        },
    }
}

fn parse_insert(input: &Input, i: usize) -> (r: Option<Insert>)
    requires
        input.wf(),
        i <= input.chars@.len(),
    ensures
        match r {
            Some(v) => insert_at(input.text@, i as int) == Some(v@),
            None => insert_at(input.text@, i as int) is None,
        },
{
    let j: usize = match take_keyword(input, i, "into") {
        Some(j) => j,
        None => {
            return None;
        },
    };
    let (mapping, k) = match take_word(input, j, Class::Word) {
        Some(x) => x,
        None => {
            return None;
        },
    };
    let m: usize = match take_symbol(input, k, '(') {
        None => k,
        Some(n) => match take_closed::<IdentPart>(input, n) {
            Some((_, e)) => e,
            None => {
                return None;
            },
        },
    };
    let n: usize = match take_keyword(input, m, "values") {
        Some(n) => n,
        None => {
            return None;
        },
    };
    match take_rows(input, n) {
        Some(rows) => Some(Insert { mapping, rows }),
        None => None,
    }
}

// ---- CREATE JOB and statements ----

/// The position behind AS SINK INTO.
pub open spec fn past_sink_words(s: Seq<char>, i: int) -> Option<int> {
    match keyword_at(s, i, "as"@) {
        None => None,
        Some(j) => match keyword_at(s, j, "sink"@) {
            None => None,
            Some(k) => keyword_at(s, k, "into"@),
        },
    }
}

/// What follows CREATE JOB.
pub open spec fn job_at(s: Seq<char>, i: int) -> Option<StatementView> {
    match ident_at(s, i) {
        None => None,
        Some((name, j)) => match past_sink_words(s, j) {
            None => None,
            Some(k) => match ident_at(s, k) {
                None => None,
                Some((sink, m)) => match keyword_at(s, m, "select"@) {
                    None => None,
                    Some(n) => match select_at(s, n) {
                        Some(select) => Some(StatementView::CreateJob { name, sink, select }),
                        None => None,
                    },
                },
            },
        },
    }
}

fn parse_create_job(input: &Input, i: usize) -> (r: Option<Job>)
    requires
        input.wf(),
        i <= input.chars@.len(),
    ensures
        match r {
            Some(j) => job_at(input.text@, i as int) matches Some(t) && Statement::CreateJob(
                j,
            ).says(t),
            None => job_at(input.text@, i as int) is None,
        },
{
    let (name, j) = match take_word(input, i, Class::Word) {
        Some(x) => x,
        None => {
            return None;
        },
    };
    let j1: usize = match take_keyword(input, j, "as") {
        Some(k) => k,
        None => {
            return None;
        },
    };
    let j2: usize = match take_keyword(input, j1, "sink") {
        Some(k) => k,
        None => {
            return None;
        },
    };
    let j3: usize = match take_keyword(input, j2, "into") {
        Some(k) => k,
        None => {
            return None;
        },
    };
    let (sink, m) = match take_word(input, j3, Class::Word) {
        Some(x) => x,
        None => {
            return None;
        },
    };
    let n: usize = match take_keyword(input, m, "select") {
        Some(n) => n,
        None => {
            return None;
        },
    };
    match parse_select_body(input, n) {
        Some(select) => Some(Job { name, sink, select }),
        None => None,
    }
}

/// What SQL text says; none if it is no statement.
pub open spec fn parsed(s: Seq<char>) -> Option<StatementView> {
    match keyword_at(s, 0, "select"@) {
        Some(j) => match select_at(s, j) {
            Some(v) => Some(StatementView::Select(v)),
            None => None,
        },
        None => match keyword_at(s, 0, "insert"@) {
            Some(j) => match insert_at(s, j) {
                Some(v) => Some(StatementView::Insert(v)),
                None => None,
            },
            None => match keyword_at(s, 0, "create"@) {
                None => None,
                Some(j) => match keyword_at(s, j, "mapping"@) {
                    Some(k) => match mapping_at(s, k) {
                        Some(v) => Some(StatementView::CreateMapping(v)),
                        None => None,
                    },
                    None => match keyword_at(s, j, "job"@) {
                        Some(k) => job_at(s, k),
                        None => None,
                    },
                },
            },
        },
    }
}

/// Parses a statement.
pub fn parse(sql: &str) -> (r: Option<Statement>)
    ensures
        match r {
            Some(st) => parsed(sql@) matches Some(v) && st.says(v),
            None => parsed(sql@) is None,
        },
{
    let input = Input::new(sql);
    if let Some(j) = take_keyword(&input, 0, "select") {
        return match parse_select_body(&input, j) {
            Some(v) => Some(Statement::Select(v)),
            None => None,
        };
    }
    if let Some(j) = take_keyword(&input, 0, "insert") {
        return match parse_insert(&input, j) {
            Some(v) => Some(Statement::Insert(v)),
            None => None,
        };
    }
    if let Some(j) = take_keyword(&input, 0, "create") {
        if let Some(k) = take_keyword(&input, j, "mapping") {
            return match parse_create_mapping(&input, k) {
                Some(v) => Some(Statement::CreateMapping(v)),
                None => None,
            };
        }
        if let Some(k) = take_keyword(&input, j, "job") {
            return match parse_create_job(&input, k) {
                Some(v) => Some(Statement::CreateJob(v)),
                None => None,
            };
        }
    }
    None
}

/// Parses a SELECT; another statement is none.
pub fn parse_select(sql: &str) -> (r: Option<Select>)
    ensures
        match r {
            Some(s) => parsed(sql@) matches Some(StatementView::Select(v)) && s.says(v),
            None => !(parsed(sql@) matches Some(StatementView::Select(v))),
        },
{
    match parse(sql) {
        Some(Statement::Select(s)) => Some(s),
        _ => None,
    }
}

} // verus!
