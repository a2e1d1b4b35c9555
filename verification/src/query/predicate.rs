//! Predicates over field lists.
//!
//! Text patterns (`LIKE`, `ILIKE`, regular expressions) are matched outside the library: what came
//! of each match is handed in as a list of probes.

use vstd::prelude::*;
use vstd::string::StrSliceExecFns;
use super::value::{FieldValue, ValueView};
use crate::model::{opt_view, views};
use crate::order::Order;

verus! {

/// A comparison.
#[derive(Clone, Copy, Debug, PartialEq, Eq, Structural)]
pub enum Op {
    Eq,
    NotEq,
    Lt,
    Le,
    Gt,
    Ge,
}

/// A predicate.
#[derive(Debug, PartialEq, Eq)]
pub enum Predicate {
    Compare { field: String, op: Op, value: FieldValue },
    And(Vec<Predicate>),
    Or(Vec<Predicate>),
    Not(Box<Predicate>),
    Between { field: String, from: FieldValue, to: FieldValue },
    In { field: String, values: Vec<FieldValue> },
    Like { field: String, expr: String },
    ILike { field: String, expr: String },
    Regex { field: String, regex: String },
    True,
    False,
    Sql(String),
    Paging { inner: Option<Box<Predicate>>, page_size: i32, page: i32 },
    Partition { target: Box<Predicate>, key: Vec<u8> },
    MatchNone,
}

/// How a text pattern is meant.
#[derive(Clone, Copy, Debug, PartialEq, Eq, Structural)]
pub enum PatternKind {
    Like,
    ILike,
    Regex,
}

/// Whether a pattern was found to match a text.
#[derive(Clone, Debug, PartialEq, Eq)]
pub struct Probe {
    pub kind: PatternKind,
    pub pattern: String,
    pub text: String,
    pub matched: bool,
}

/// What a [`Probe`] holds.
pub struct ProbeView {
    pub kind: PatternKind,
    pub pattern: Seq<char>,
    pub text: Seq<char>,
    pub matched: bool,
}

impl View for Probe {
    type V = ProbeView;

    open spec fn view(&self) -> ProbeView {
        ProbeView {
            kind: self.kind,
            pattern: self.pattern@,
            text: self.text@,
            matched: self.matched,
        }
    }
}

/// What the first probe of a pattern and text says; none says that it does not match.
pub open spec fn probed(
    probes: Seq<ProbeView>,
    kind: PatternKind,
    pattern: Seq<char>,
    text: Seq<char>,
) -> bool
    decreases probes.len(),
{
    if probes.len() == 0 {
        false
    } else if probes[0].kind == kind && probes[0].pattern == pattern && probes[0].text == text {
        probes[0].matched
    } else {
        probed(probes.skip(1), kind, pattern, text)
    }
}

fn probe(probes: &[Probe], kind: PatternKind, pattern: &String, text: &String) -> (b: bool)
    ensures
        b == probed(views(probes@), kind, pattern@, text@),
{
    let ghost all = views(probes@);
    let mut i: usize = 0;
    assert(all.skip(0) =~= all);
    while i < probes.len()
        invariant
            i <= probes@.len(),
            all == views(probes@),
            probed(all, kind, pattern@, text@) == probed(
                all.skip(i as int),
                kind,
                pattern@,
                text@,
            ),
        decreases probes@.len() - i,
    {
        let p = &probes[i];
        assert(all.skip(i as int)[0] == p@);
        assert(all.skip(i as int).skip(1) =~= all.skip(i + 1));
        if p.kind == kind && p.pattern == *pattern && p.text == *text {
            return p.matched;
        }
        i = i + 1;
    }
    false
}

/// What stands behind the last dot of a column reference.
pub open spec fn bare(c: Seq<char>) -> Seq<char>
    decreases c.len(),
{
    if c.len() == 0 {
        c
    } else if c.last() == '.' {
        Seq::empty()
    } else {
        bare(c.drop_last()).push(c.last())
    }
}

/// Behind a position without later dots, the bare name is what stands there.
proof fn lemma_bare(c: Seq<char>, i: int)
    requires
        0 <= i <= c.len(),
        forall|j: int| i <= j < c.len() ==> c[j] != '.',
        i == 0 || c[i - 1] == '.',
    ensures
        bare(c) == c.subrange(i, c.len() as int),
    decreases c.len(),
{
    if c.len() == i {
        if i > 0 {
            assert(c.last() == '.');
        }
        assert(bare(c) =~= c.subrange(i, c.len() as int));
    } else {
        lemma_bare(c.drop_last(), i);
        assert(bare(c) =~= c.subrange(i, c.len() as int));
    }
}

/// Strips a `table.` qualifier from a column reference.
pub fn bare_col(c: &str) -> (r: String)
    ensures
        r@ == bare(c@),
{
    let n: usize = c.unicode_len();
    let mut i: usize = n;
    while i > 0 && c.get_char(i - 1) != '.'
        invariant
            i <= n,
            n == c@.len(),
            forall|j: int| i <= j < n ==> c@[j] != '.',
        decreases i,
    {
        i = i - 1;
    }
    proof {
        lemma_bare(c@, i as int);
    }
    c.substring_char(i, n).to_string()
}

/// A named value.
pub type Field = (String, FieldValue);

/// What a [`Field`] holds.
pub type FieldView = (Seq<char>, ValueView);

/// The first field of a name.
pub open spec fn find(fields: Seq<FieldView>, name: Seq<char>) -> Option<ValueView>
    decreases fields.len(),
{
    if fields.len() == 0 {
        None
    } else if fields[0].0 == name {
        Some(fields[0].1)
    } else {
        find(fields.skip(1), name)
    }
}

/// The first field of a name.
pub fn find_field<'a>(fields: &'a [Field], name: &String) -> (r: Option<&'a FieldValue>)
    ensures
        match r {
            Some(v) => find(views(fields@), name@) == Some(v@),
            None => find(views(fields@), name@) is None,
        },
{
    let ghost all = views(fields@);
    let mut i: usize = 0;
    assert(all.skip(0) =~= all);
    while i < fields.len()
        invariant
            i <= fields@.len(),
            all == views(fields@),
            find(all, name@) == find(all.skip(i as int), name@),
        decreases fields@.len() - i,
    {
        let f = &fields[i];
        assert(all.skip(i as int)[0] == f@);
        assert(all.skip(i as int).skip(1) =~= all.skip(i + 1));
        if f.0 == *name {
            return Some(&f.1);
        }
        i = i + 1;
    }
    None
}

/// Whether an order is what a comparison asks for.
pub open spec fn satisfies(o: Order, op: Op) -> bool {
    match op {
        Op::Eq => o == Order::Equal,
        Op::NotEq => o != Order::Equal,
        Op::Lt => o == Order::Less,
        Op::Le => o != Order::Greater,
        Op::Gt => o == Order::Greater,
        Op::Ge => o != Order::Less,
    }
}

pub fn order_satisfies(o: Order, op: Op) -> (b: bool)
    ensures
        b == satisfies(o, op),
{
    match op {
        Op::Eq => o == Order::Equal,
        Op::NotEq => o != Order::Equal,
        Op::Lt => o == Order::Less,
        Op::Le => o != Order::Greater,
        Op::Gt => o == Order::Greater,
        Op::Ge => o != Order::Less,
    }
}

/// Whether a value compares with another as asked; what does not compare does not satisfy.
pub open spec fn compares(v: Option<ValueView>, op: Op, other: ValueView) -> bool {
    match v {
        Some(v) => match v.compare(other) {
            Some(o) => satisfies(o, op),
            None => false,
        },
        None => false,
    }
}

/// Whether a value lies between two others.
pub open spec fn lies_between(v: Option<ValueView>, from: ValueView, to: ValueView) -> bool {
    match v {
        Some(v) => match (v.compare(from), v.compare(to)) {
            (Some(a), Some(b)) => a != Order::Less && b != Order::Greater,
            _ => false,
        },
        None => false,
    }
}

/// Whether a value equals one of others.
pub open spec fn is_among(v: Option<ValueView>, values: Seq<ValueView>) -> bool {
    v matches Some(v) && exists|i: int|
        0 <= i < values.len() && v.compare(#[trigger] values[i]) == Some(Order::Equal)
}

/// Whether a field holds text that a pattern was found to match.
pub open spec fn text_matches(
    v: Option<ValueView>,
    probes: Seq<ProbeView>,
    kind: PatternKind,
    pattern: Seq<char>,
) -> bool {
    v matches Some(ValueView::Str(s)) && probed(probes, kind, pattern, s)
}

/// What a row has under a name.
pub type RowView = spec_fn(Seq<char>) -> Option<ValueView>;

/// A field list as a row.
pub open spec fn lookup(fields: Seq<FieldView>) -> RowView {
    |name: Seq<char>| find(fields, name)
}

/// Something that predicates are evaluated against: values by name.
pub trait Row {
    spec fn cells(&self) -> RowView;

    fn cell(&self, name: &String) -> (v: Option<FieldValue>)
        ensures
            opt_view(v) == (self.cells())(name@),
    ;
}

/// A field list.
pub struct FieldRow<'a> {
    pub fields: &'a [Field],
}

impl<'a> Row for FieldRow<'a> {
    open spec fn cells(&self) -> RowView {
        lookup(views(self.fields@))
    }

    fn cell(&self, name: &String) -> (v: Option<FieldValue>) {
        match find_field(self.fields, name) {
            Some(v) => Some(v.duplicate()),
            None => None,
        }
    }
}

/// Whether a predicate holds of a row.
pub open spec fn holds(p: Predicate, row: RowView, probes: Seq<ProbeView>) -> bool
    decreases p,
{
    match p {
        Predicate::Compare { field, op, value } => compares(
            row(bare(field@)),
            op,
            value@,
        ),
        Predicate::And(ps) => all_hold(ps, ps@.len(), row, probes),
        Predicate::Or(ps) => any_holds(ps, ps@.len(), row, probes),
        Predicate::Not(inner) => !holds(*inner, row, probes),
        Predicate::Between { field, from, to } => lies_between(
            row(bare(field@)),
            from@,
            to@,
        ),
        Predicate::In { field, values } => is_among(
            row(bare(field@)),
            views(values@),
        ),
        Predicate::Like { field, expr } => text_matches(
            row(bare(field@)),
            probes,
            PatternKind::Like,
            expr@,
        ),
        Predicate::ILike { field, expr } => text_matches(
            row(bare(field@)),
            probes,
            PatternKind::ILike,
            expr@,
        ),
        Predicate::Regex { field, regex } => text_matches(
            row(bare(field@)),
            probes,
            PatternKind::Regex,
            regex@,
        ),
        Predicate::True => true,
        Predicate::False => false,
        Predicate::Sql(_) => false,
        Predicate::Paging { inner, page_size, page } => match inner {
            Some(p) => holds(*p, row, probes),
            None => true,
        },
        Predicate::Partition { target, key } => holds(*target, row, probes),
        Predicate::MatchNone => false,
    }
}

/// Whether the first `n` of some predicates all hold.
pub open spec fn all_hold(
    ps: Vec<Predicate>,
    n: nat,
    row: RowView,
    probes: Seq<ProbeView>,
) -> bool
    decreases ps, n,
    via all_hold_decreases
{
    n == 0 || n > ps@.len() || (all_hold(ps, (n - 1) as nat, row, probes) && holds(
        ps[n - 1],
        row,
        probes,
    ))
}

#[via_fn]
proof fn all_hold_decreases(
    ps: Vec<Predicate>,
    n: nat,
    row: RowView,
    probes: Seq<ProbeView>,
) {
    broadcast use vstd::std_specs::vec::axiom_vec_index_decreases;

    if 0 < n <= ps@.len() {
        assert(decreases_to!(ps => ps[n - 1]));
    }
}

/// Whether one of the first `n` of some predicates holds.
pub open spec fn any_holds(
    ps: Vec<Predicate>,
    n: nat,
    row: RowView,
    probes: Seq<ProbeView>,
) -> bool
    decreases ps, n,
    via any_holds_decreases
{
    0 < n <= ps@.len() && (any_holds(ps, (n - 1) as nat, row, probes) || holds(
        ps[n - 1],
        row,
        probes,
    ))
}

#[via_fn]
proof fn any_holds_decreases(
    ps: Vec<Predicate>,
    n: nat,
    row: RowView,
    probes: Seq<ProbeView>,
) {
    broadcast use vstd::std_specs::vec::axiom_vec_index_decreases;

    if 0 < n <= ps@.len() {
        assert(decreases_to!(ps => ps[n - 1]));
    }
}

fn eval_compare(v: &Option<FieldValue>, op: Op, other: &FieldValue) -> (b: bool)
    ensures
        b == compares(
            opt_view(*v),
            op,
            other@,
        ),
{
    match v {
        Some(v) => match v.compare(other) {
            Some(o) => order_satisfies(o, op),
            None => false,
        },
        None => false,
    }
}

fn eval_between(v: &Option<FieldValue>, from: &FieldValue, to: &FieldValue) -> (b: bool)
    ensures
        b == lies_between(
            opt_view(*v),
            from@,
            to@,
        ),
{
    match v {
        Some(v) => match (v.compare(from), v.compare(to)) {
            (Some(a), Some(b)) => a != Order::Less && b != Order::Greater,
            _ => false,
        },
        None => false,
    }
}

fn eval_among(v: &Option<FieldValue>, values: &Vec<FieldValue>) -> (b: bool)
    ensures
        b == is_among(
            opt_view(*v),
            views(values@),
        ),
{
    let found = match v {
        Some(f) => f,
        None => {
            return false;
        },
    };
    let ghost all = views(values@);
    let mut i: usize = 0;
    while i < values.len()
        invariant
            i <= values@.len(),
            all == views(values@),
            *v matches Some(f) && f == *found,
            forall|j: int|
                0 <= j < i ==> found@.compare(#[trigger] all[j]) != Some(Order::Equal),
        decreases values@.len() - i,
    {
        assert(all[i as int] == values@[i as int]@);
        if found.equals(&values[i]) {
            return true;
        }
        i = i + 1;
    }
    false
}

fn eval_pattern(
    v: &Option<FieldValue>,
    probes: &[Probe],
    kind: PatternKind,
    pattern: &String,
) -> (b: bool)
    ensures
        b == text_matches(
            opt_view(*v),
            views(probes@),
            kind,
            pattern@,
        ),
{
    match v {
        Some(FieldValue::Str(s)) => probe(probes, kind, pattern, s),
        _ => false,
    }
}

/// Evaluates a predicate against a row. `probes` says which text patterns match.
pub fn eval_row<R: Row>(pred: &Predicate, row: &R, probes: &[Probe]) -> (b: bool)
    ensures
        b == holds(*pred, row.cells(), views(probes@)),
    decreases *pred,
{
    match pred {
        Predicate::Compare { field, op, value } => eval_compare(
            &row.cell(&bare_col(field.as_str())),
            *op,
            value,
        ),
        Predicate::And(ps) => {
            let mut i: usize = 0;
            while i < ps.len()
                invariant
                    i <= ps@.len(),
                    *pred == Predicate::And(*ps),
                    all_hold(*ps, i as nat, row.cells(), views(probes@)),
                decreases ps@.len() - i,
            {
                proof {
                    broadcast use vstd::std_specs::vec::axiom_vec_index_decreases;

                    assert(decreases_to!(*pred => pred->And_0));
                    assert(decreases_to!(*ps => ps[i as int]));
                    assert(decreases_to!(*pred => ps[i as int]));
                }
                if !eval_row(&ps[i], row, probes) {
                    proof {
                        lemma_one_fails(
                            *ps,
                            (i + 1) as nat,
                            ps@.len(),
                            row.cells(),
                            views(probes@),
                        );
                    }
                    return false;
                }
                i = i + 1;
            }
            true
        },
        Predicate::Or(ps) => {
            let mut i: usize = 0;
            while i < ps.len()
                invariant
                    i <= ps@.len(),
                    *pred == Predicate::Or(*ps),
                    !any_holds(*ps, i as nat, row.cells(), views(probes@)),
                decreases ps@.len() - i,
            {
                proof {
                    broadcast use vstd::std_specs::vec::axiom_vec_index_decreases;

                    assert(decreases_to!(*pred => pred->Or_0));
                    assert(decreases_to!(*ps => ps[i as int]));
                    assert(decreases_to!(*pred => ps[i as int]));
                }
                if eval_row(&ps[i], row, probes) {
                    proof {
                        lemma_one_holds(
                            *ps,
                            (i + 1) as nat,
                            ps@.len(),
                            row.cells(),
                            views(probes@),
                        );
                    }
                    return true;
                }
                i = i + 1;
            }
            false
        },
        Predicate::Not(inner) => !eval_row(inner, row, probes),
        Predicate::Between { field, from, to } => eval_between(
            &row.cell(&bare_col(field.as_str())),
            from,
            to,
        ),
        Predicate::In { field, values } => eval_among(
            &row.cell(&bare_col(field.as_str())),
            values,
        ),
        Predicate::Like { field, expr } => eval_pattern(
            &row.cell(&bare_col(field.as_str())),
            probes,
            PatternKind::Like,
            expr,
        ),
        Predicate::ILike { field, expr } => eval_pattern(
            &row.cell(&bare_col(field.as_str())),
            probes,
            PatternKind::ILike,
            expr,
        ),
        Predicate::Regex { field, regex } => eval_pattern(
            &row.cell(&bare_col(field.as_str())),
            probes,
            PatternKind::Regex,
            regex,
        ),
        Predicate::True => true,
        Predicate::False => false,
        Predicate::Sql(_) => false,
        Predicate::Paging { inner, .. } => match inner {
            Some(p) => eval_row(p, row, probes),
            None => true,
        },
        Predicate::Partition { target, .. } => eval_row(target, row, probes),
        Predicate::MatchNone => false,
    }
}

/// Evaluates a predicate against a flat field list. `probes` says which text patterns match.
pub fn eval_fields(pred: &Predicate, fields: &[Field], probes: &[Probe]) -> (b: bool)
    ensures
        b == holds(*pred, lookup(views(fields@)), views(probes@)),
{
    eval_row(pred, &(FieldRow { fields }), probes)
}

proof fn lemma_one_fails(
    ps: Vec<Predicate>,
    k: nat,
    n: nat,
    row: RowView,
    probes: Seq<ProbeView>,
)
    requires
        k <= n <= ps@.len(),
        !all_hold(ps, k, row, probes),
    ensures
        !all_hold(ps, n, row, probes),
    decreases n,
{
    if k < n {
        lemma_one_fails(ps, k, (n - 1) as nat, row, probes);
    }
}

proof fn lemma_one_holds(
    ps: Vec<Predicate>,
    k: nat,
    n: nat,
    row: RowView,
    probes: Seq<ProbeView>,
)
    requires
        k <= n <= ps@.len(),
        any_holds(ps, k, row, probes),
    ensures
        any_holds(ps, n, row, probes),
    decreases n,
{
    if k < n {
        lemma_one_holds(ps, k, (n - 1) as nat, row, probes);
    }
}

/// A conjunction holds exactly if each part does, a disjunction exactly if one part does; the
/// empty conjunction holds of everything, the empty disjunction of nothing.
pub proof fn law_connectives(ps: Vec<Predicate>, row: RowView, probes: Seq<ProbeView>)
    ensures
        holds(Predicate::And(ps), row, probes) <==> forall|i: int|
            0 <= i < ps@.len() ==> holds(#[trigger] ps@[i], row, probes),
        holds(Predicate::Or(ps), row, probes) <==> exists|i: int|
            0 <= i < ps@.len() && holds(#[trigger] ps@[i], row, probes),
{
    lemma_connectives(ps, ps@.len(), row, probes);
}

proof fn lemma_connectives(
    ps: Vec<Predicate>,
    n: nat,
    row: RowView,
    probes: Seq<ProbeView>,
)
    requires
        n <= ps@.len(),
    ensures
        all_hold(ps, n, row, probes) <==> forall|i: int|
            0 <= i < n ==> holds(#[trigger] ps@[i], row, probes),
        any_holds(ps, n, row, probes) <==> exists|i: int|
            0 <= i < n && holds(#[trigger] ps@[i], row, probes),
    decreases n,
{
    if n > 0 {
        lemma_connectives(ps, (n - 1) as nat, row, probes);
        assert(ps[n - 1] == ps@[n - 1]);
        if all_hold(ps, n, row, probes) {
            assert forall|i: int| 0 <= i < n implies holds(
                #[trigger] ps@[i],
                row,
                probes,
            ) by {
                if i == n - 1 {
                    assert(holds(ps[n - 1], row, probes));
                }
            }
        }
        if any_holds(ps, n, row, probes) && holds(ps[n - 1], row, probes) {
            assert(holds(ps@[n - 1], row, probes));
        }
    }
}

/// A column reference may bear a qualifier: what stands behind the last dot names the column.
pub proof fn law_qualifiers_are_dropped(table: Seq<char>, name: Seq<char>)
    requires
        forall|i: int| 0 <= i < name.len() ==> name[i] != '.',
    ensures
        bare(name) == name,
        bare(table + seq!['.'] + name) == name,
{
    lemma_bare(name, 0);
    assert(name.subrange(0, name.len() as int) =~= name);
    let c = table + seq!['.'] + name;
    let i = table.len() + 1;
    lemma_bare(c, i as int);
    assert(c.subrange(i as int, c.len() as int) =~= name);
}

/// A field list reads as its first field of a name, and as nothing if it has none.
pub proof fn law_the_first_field_of_a_name_counts(fields: Seq<FieldView>, name: Seq<char>, k: int)
    ensures
        0 <= k < fields.len() && fields[k].0 == name && (forall|i: int|
            0 <= i < k ==> (#[trigger] fields[i]).0 != name) ==> lookup(fields)(name) == Some(
            fields[k].1,
        ),
        (forall|i: int| 0 <= i < fields.len() ==> (#[trigger] fields[i]).0 != name) ==> lookup(
            fields,
        )(name) is None,
    decreases fields.len(),
{
    if fields.len() > 0 {
        let rest = fields.skip(1);
        law_the_first_field_of_a_name_counts(rest, name, k - 1);
        if 0 < k < fields.len() && fields[k].0 == name && (forall|i: int|
            0 <= i < k ==> (#[trigger] fields[i]).0 != name) {
            assert(rest[k - 1] == fields[k]);
            assert(fields[0].0 != name);
            assert forall|i: int| 0 <= i < k - 1 implies (#[trigger] rest[i]).0 != name by {
                assert(rest[i] == fields[i + 1]);
            }
        }
        if forall|i: int| 0 <= i < fields.len() ==> (#[trigger] fields[i]).0 != name {
            assert(fields[0].0 != name);
            assert forall|i: int| 0 <= i < rest.len() implies (#[trigger] rest[i]).0 != name by {
                assert(rest[i] == fields[i + 1]);
            }
        }
    }
}

/// Whether a value is an integer of either width.
pub open spec fn is_integer(v: ValueView, x: int) -> bool {
    (v matches ValueView::I64(i) ==> i == x) && (v matches ValueView::I32(i) ==> i == x) && (
    v is I64 || v is I32)
}

/// Comparing a column of integers with an integer compares the numbers.
pub proof fn law_comparisons_of_integers(
    field: String,
    op: Op,
    value: FieldValue,
    row: RowView,
    probes: Seq<ProbeView>,
    x: int,
    y: int,
)
    requires
        row(bare(field@)) matches Some(v) && is_integer(v, x),
        is_integer(value@, y),
    ensures
        ({
            let p = Predicate::Compare { field, op, value };
            match op {
                Op::Eq => holds(p, row, probes) <==> x == y,
                Op::NotEq => holds(p, row, probes) <==> x != y,
                Op::Lt => holds(p, row, probes) <==> x < y,
                Op::Le => holds(p, row, probes) <==> x <= y,
                Op::Gt => holds(p, row, probes) <==> x > y,
                Op::Ge => holds(p, row, probes) <==> x >= y,
            }
        }),
{
}

/// Of what compares, exactly one of less, equal and greater holds, and the other comparisons are
/// made of these; of what does not compare, none holds.
pub proof fn law_comparisons_split(
    field: String,
    value: FieldValue,
    row: RowView,
    probes: Seq<ProbeView>,
)
    ensures
        ({
            let lt = holds(Predicate::Compare { field, op: Op::Lt, value }, row, probes);
            let eq = holds(Predicate::Compare { field, op: Op::Eq, value }, row, probes);
            let gt = holds(Predicate::Compare { field, op: Op::Gt, value }, row, probes);
            let le = holds(Predicate::Compare { field, op: Op::Le, value }, row, probes);
            let ge = holds(Predicate::Compare { field, op: Op::Ge, value }, row, probes);
            let ne = holds(Predicate::Compare { field, op: Op::NotEq, value }, row, probes);
            let cell = row(bare(field@));
            &&& !(lt && eq) && !(lt && gt) && !(eq && gt)
            &&& le <==> lt || eq
            &&& ge <==> gt || eq
            &&& ne <==> lt || gt
            &&& (lt || eq || gt) <==> cell is Some && cell->0.compare(value@) is Some
            &&& lt <==> cell is Some && cell->0.compare(value@) == Some(Order::Less)
            &&& gt <==> cell is Some && cell->0.compare(value@) == Some(Order::Greater)
        }),
{
}

/// A row lies between two bounds exactly if it is neither below the one nor above the other.
pub proof fn law_between_is_two_comparisons(
    field: String,
    from: FieldValue,
    to: FieldValue,
    row: RowView,
    probes: Seq<ProbeView>,
)
    ensures
        holds(Predicate::Between { field, from, to }, row, probes) <==> holds(
            Predicate::Compare { field, op: Op::Ge, value: from },
            row,
            probes,
        ) && holds(Predicate::Compare { field, op: Op::Le, value: to }, row, probes),
{
}

/// A row is in a list exactly if it equals one of its values.
pub proof fn law_in_is_equality_with_one(
    field: String,
    values: Vec<FieldValue>,
    row: RowView,
    probes: Seq<ProbeView>,
)
    ensures
        holds(Predicate::In { field, values }, row, probes) <==> exists|i: int|
            0 <= i < values@.len() && holds(
                Predicate::Compare { field, op: Op::Eq, value: #[trigger] values@[i] },
                row,
                probes,
            ),
{
    let p = Predicate::In { field, values };
    let all = views(values@);
    if holds(p, row, probes) {
        let v = row(bare(field@))->0;
        let i = choose|i: int|
            0 <= i < all.len() && v.compare(#[trigger] all[i]) == Some(Order::Equal);
        assert(all[i] == values@[i]@);
        assert(holds(
            Predicate::Compare { field, op: Op::Eq, value: values@[i] },
            row,
            probes,
        ));
    }
    if exists|i: int|
        0 <= i < values@.len() && holds(
            Predicate::Compare { field, op: Op::Eq, value: #[trigger] values@[i] },
            row,
            probes,
        ) {
        let i = choose|i: int|
            0 <= i < values@.len() && holds(
                Predicate::Compare { field, op: Op::Eq, value: #[trigger] values@[i] },
                row,
                probes,
            );
        assert(all[i] == values@[i]@);
    }
}

/// A negation holds exactly where what it negates does not; pages and partitions hold where what
/// they are of holds, and a page of everything holds of everything.
pub proof fn law_wrapped_predicates(
    p: Predicate,
    page_size: i32,
    page: i32,
    key: Vec<u8>,
    sql: String,
    row: RowView,
    probes: Seq<ProbeView>,
)
    ensures
        holds(Predicate::Not(Box::new(p)), row, probes) <==> !holds(p, row, probes),
        holds(
            Predicate::Paging { inner: Some(Box::new(p)), page_size, page },
            row,
            probes,
        ) <==> holds(p, row, probes),
        holds(Predicate::Paging { inner: None, page_size, page }, row, probes),
        holds(Predicate::Partition { target: Box::new(p), key }, row, probes) <==> holds(
            p,
            row,
            probes,
        ),
        holds(Predicate::True, row, probes),
        !holds(Predicate::False, row, probes),
        !holds(Predicate::MatchNone, row, probes),
        !holds(Predicate::Sql(sql), row, probes),
{
}

/// A pattern matches text exactly if the first probe of that kind, pattern and text says so, and
/// matches nothing that is not text.
pub proof fn law_patterns_go_by_their_probes(
    field: String,
    pattern: String,
    kind: PatternKind,
    row: RowView,
    probes: Seq<ProbeView>,
    k: int,
)
    requires
        -1 <= k < probes.len(),
        row(bare(field@)) matches Some(ValueView::Str(s)) ==> (forall|i: int|
            0 <= i < (if k < 0 {
                probes.len() as int
            } else {
                k
            }) ==> !((#[trigger] probes[i]).kind == kind && probes[i].pattern == pattern@
                && probes[i].text == s)) && (k >= 0 ==> probes[k].kind == kind && probes[k].pattern
            == pattern@ && probes[k].text == s),
    ensures
        ({
            let p = match kind {
                PatternKind::Like => Predicate::Like { field, expr: pattern },
                PatternKind::ILike => Predicate::ILike { field, expr: pattern },
                PatternKind::Regex => Predicate::Regex { field, regex: pattern },
            };
            holds(p, row, probes) <==> (row(bare(field@)) matches Some(ValueView::Str(s))) && k >= 0
                && probes[k].matched
        }),
{
    if let Some(ValueView::Str(s)) = row(bare(field@)) {
        lemma_probed(probes, kind, pattern@, s, k);
    }
}

proof fn lemma_probed(
    probes: Seq<ProbeView>,
    kind: PatternKind,
    pattern: Seq<char>,
    text: Seq<char>,
    k: int,
)
    requires
        -1 <= k < probes.len(),
        forall|i: int|
            0 <= i < (if k < 0 {
                probes.len() as int
            } else {
                k
            }) ==> !((#[trigger] probes[i]).kind == kind && probes[i].pattern == pattern
                && probes[i].text == text),
        k >= 0 ==> probes[k].kind == kind && probes[k].pattern == pattern && probes[k].text == text,
    ensures
        probed(probes, kind, pattern, text) == (k >= 0 && probes[k].matched),
    decreases probes.len(),
{
    if probes.len() > 0 && k != 0 {
        let rest = probes.skip(1);
        assert(!(probes[0].kind == kind && probes[0].pattern == pattern && probes[0].text == text));
        let n = if k < 0 {
            -1
        } else {
            k - 1
        };
        assert forall|i: int|
            0 <= i < (if n < 0 {
                rest.len() as int
            } else {
                n
            }) implies !((#[trigger] rest[i]).kind == kind && rest[i].pattern == pattern
            && rest[i].text == text) by {
            assert(rest[i] == probes[i + 1]);
        }
        lemma_probed(rest, kind, pattern, text, n);
    }
}

} // verus!
