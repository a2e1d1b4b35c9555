//! Result rows: dropping duplicates, ordering, limiting.
//!
//! Whether a cell spells a number, and which, is found outside the library: each row comes with
//! the bits of the number that its ordering cell spells, if it spells one.

use vstd::prelude::*;
use vstd::utf8::encode_utf8;
use super::value::{double_rank, is_nan, is_negative, magnitude, num_order, NumView};
use crate::model::{nested_opt, opt_view, opt_views, views};
use crate::order::{
    compare_bytes, flipped, in_dictionary_before, int_order, law_bytes_are_in_dictionary_order,
    lemma_lex_equal, lemma_lex_flip, lemma_lex_trans, lex, Order,
};
use crate::text::text_bytes;

verus! {

/// A row of cells, and the double that its ordering cell spells, as bits.
#[derive(Clone, Debug, PartialEq, Eq)]
pub struct ResultRow {
    pub cells: Vec<Option<String>>,
    pub number: Option<u64>,
}

/// Text cells; null is none.
pub type Texts = Seq<Option<Seq<char>>>;

/// What a [`ResultRow`] holds.
pub struct ResultRowView {
    pub cells: Texts,
    pub number: Option<u64>,
}

impl View for ResultRow {
    type V = ResultRowView;

    open spec fn view(&self) -> ResultRowView {
        ResultRowView { cells: opt_views(self.cells@), number: self.number }
    }
}

/// Whether two rows of cells are the same.
pub fn same_texts(a: &Vec<Option<String>>, b: &Vec<Option<String>>) -> (r: bool)
    ensures
        r == (opt_views(a@) == opt_views(b@)),
{
    if a.len() != b.len() {
        assert(opt_views(a@).len() != opt_views(b@).len());
        return false;
    }
    let mut i: usize = 0;
    while i < a.len()
        invariant
            i <= a@.len(),
            a@.len() == b@.len(),
            forall|j: int| 0 <= j < i ==> opt_view(#[trigger] a@[j]) == opt_view(b@[j]),
        decreases a@.len() - i,
    {
        let same: bool = match (&a[i], &b[i]) {
            (Some(x), Some(y)) => *x == *y,
            (None, None) => true,
            _ => false,
        };
        if !same {
            assert(opt_views(a@)[i as int] != opt_views(b@)[i as int]);
            return false;
        }
        i = i + 1;
    }
    assert(opt_views(a@) =~= opt_views(b@));
    true
}

/// A copy of cells.
pub fn copy_texts(a: &Vec<Option<String>>) -> (r: Vec<Option<String>>)
    ensures
        opt_views(r@) == opt_views(a@),
{
    let mut r: Vec<Option<String>> = Vec::new();
    let mut i: usize = 0;
    while i < a.len()
        invariant
            i <= a@.len(),
            r@.len() == i,
            forall|j: int| 0 <= j < i ==> opt_view(#[trigger] r@[j]) == opt_view(a@[j]),
        decreases a@.len() - i,
    {
        let c: Option<String> = match &a[i] {
            Some(s) => Some(s.clone()),
            None => None,
        };
        r.push(c);
        i = i + 1;
    }
    assert(opt_views(r@) =~= opt_views(a@));
    r
}

/// How rows are ordered.
#[derive(Clone, Copy, Debug, PartialEq, Eq, Structural)]
pub enum RowOrder {
    /// As they come.
    Given,
    /// By a cell: numbers with numbers by their total order, anything else by text; descending if
    /// so said.
    Mixed(usize, bool),
    /// By a cell: first as numbers, text without a number behind them, then by text; descending
    /// if so said.
    Keyed(usize, bool),
    /// By all cells from the first on.
    Whole,
}

/// A number that puts all doubles in order, zeroes by sign and what is not a number outermost.
pub open spec fn total_rank(bits: u64) -> int {
    if is_negative(bits) {
        -magnitude(bits) - 1
    } else {
        magnitude(bits)
    }
}

/// The order of text cells: null first, then by bytes.
pub open spec fn text_order(a: Option<Seq<char>>, b: Option<Seq<char>>) -> Order {
    match (a, b) {
        (None, None) => Order::Equal,
        (None, Some(_)) => Order::Less,
        (Some(_), None) => Order::Greater,
        (Some(x), Some(y)) => lex(encode_utf8(x), encode_utf8(y)),
    }
}

/// The order of rows of text cells: the first cell that differs decides, else the shorter row
/// comes first.
pub open spec fn texts_order(a: Texts, b: Texts) -> Order
    decreases a.len(),
{
    if a.len() == 0 && b.len() == 0 {
        Order::Equal
    } else if a.len() == 0 {
        Order::Less
    } else if b.len() == 0 {
        Order::Greater
    } else if text_order(a[0], b[0]) != Order::Equal {
        text_order(a[0], b[0])
    } else {
        texts_order(a.skip(1), b.skip(1))
    }
}

/// A cell of a row; null beyond its end.
pub open spec fn cell_of(row: ResultRowView, i: usize) -> Option<Seq<char>> {
    if i < row.cells.len() {
        row.cells[i as int]
    } else {
        None
    }
}

/// The number of a row's cell as an ordering key: null below all, text that spells none above.
pub open spec fn number_key(row: ResultRowView, i: usize) -> u64 {
    match (cell_of(row, i), row.number) {
        (None, _) => 0xfff0_0000_0000_0000,
        (Some(_), Some(bits)) => bits,
        (Some(_), None) => 0x7ff0_0000_0000_0000,
    }
}

/// A cell's text as an ordering key.
pub open spec fn text_key(row: ResultRowView, i: usize) -> Seq<char> {
    match cell_of(row, i) {
        Some(s) => s,
        None => Seq::empty(),
    }
}

pub open spec fn mixed_order(a: ResultRowView, b: ResultRowView, i: usize) -> Order {
    match (a.number, b.number) {
        (Some(x), Some(y)) => int_order(total_rank(x), total_rank(y)),
        _ => text_order(cell_of(a, i), cell_of(b, i)),
    }
}

pub open spec fn keyed_order(a: ResultRowView, b: ResultRowView, i: usize) -> Order {
    let (x, y) = (number_key(a, i), number_key(b, i));
    if is_nan(x) || is_nan(y) {
        Order::Equal
    } else if double_rank(x) != double_rank(y) {
        int_order(double_rank(x), double_rank(y))
    } else {
        lex(encode_utf8(text_key(a, i)), encode_utf8(text_key(b, i)))
    }
}

/// How two rows stand to each other.
#[verifier::opaque]
pub open spec fn row_order(a: ResultRowView, b: ResultRowView, how: RowOrder) -> Order {
    match how {
        RowOrder::Given => Order::Equal,
        RowOrder::Mixed(i, desc) => if desc {
            flipped(mixed_order(a, b, i))
        } else {
            mixed_order(a, b, i)
        },
        RowOrder::Keyed(i, desc) => if desc {
            flipped(keyed_order(a, b, i))
        } else {
            keyed_order(a, b, i)
        },
        RowOrder::Whole => texts_order(a.cells, b.cells),
    }
}

fn compare_text(a: &Option<String>, b: &Option<String>) -> (o: Order)
    ensures
        o == text_order(opt_view(*a), opt_view(*b)),
{
    match (a, b) {
        (None, None) => Order::Equal,
        (None, Some(_)) => Order::Less,
        (Some(_), None) => Order::Greater,
        (Some(x), Some(y)) => compare_bytes(text_bytes(x.as_str()), text_bytes(y.as_str())),
    }
}

fn compare_texts(a: &Vec<Option<String>>, b: &Vec<Option<String>>) -> (o: Order)
    ensures
        o == texts_order(opt_views(a@), opt_views(b@)),
{
    let ghost (x, y) = (opt_views(a@), opt_views(b@));
    let mut i: usize = 0;
    assert(x.skip(0) =~= x && y.skip(0) =~= y);
    while i < a.len() && i < b.len()
        invariant
            i <= a@.len(),
            i <= b@.len(),
            x == opt_views(a@),
            y == opt_views(b@),
            texts_order(x, y) == texts_order(x.skip(i as int), y.skip(i as int)),
        decreases a@.len() - i,
    {
        assert(x.skip(i as int)[0] == x[i as int] && y.skip(i as int)[0] == y[i as int]);
        assert(x.skip(i as int).skip(1) =~= x.skip(i + 1));
        assert(y.skip(i as int).skip(1) =~= y.skip(i + 1));
        let o = compare_text(&a[i], &b[i]);
        if o != Order::Equal {
            return o;
        }
        i = i + 1;
    }
    if i < b.len() {
        Order::Less
    } else if i < a.len() {
        Order::Greater
    } else {
        Order::Equal
    }
}

fn flip(o: Order) -> (r: Order)
    ensures
        r == flipped(o),
{
    match o {
        Order::Less => Order::Greater,
        Order::Equal => Order::Equal,
        Order::Greater => Order::Less,
    }
}

fn compare_ranks(x: i128, y: i128) -> (o: Order)
    ensures
        o == int_order(x as int, y as int),
{
    if x < y {
        Order::Less
    } else if x == y {
        Order::Equal
    } else {
        Order::Greater
    }
}

fn total_rank_of(bits: u64) -> (r: i128)
    ensures
        r == total_rank(bits),
{
    if bits >= 0x8000_0000_0000_0000 {
        -((bits - 0x8000_0000_0000_0000) as i128) - 1
    } else {
        bits as i128
    }
}

fn rank_of_double(bits: u64) -> (r: i128)
    ensures
        r == double_rank(bits),
{
    if bits >= 0x8000_0000_0000_0000 {
        -((bits - 0x8000_0000_0000_0000) as i128)
    } else {
        bits as i128
    }
}

fn is_not_a_number(bits: u64) -> (b: bool)
    ensures
        b == is_nan(bits),
{
    let m: u64 = if bits >= 0x8000_0000_0000_0000 {
        bits - 0x8000_0000_0000_0000
    } else {
        bits
    };
    m > 0x7ff0_0000_0000_0000
}

/// The cell at `i`, if the row has it and it is not null.
fn text_at(row: &ResultRow, i: usize) -> (r: Option<&String>)
    ensures
        match r {
            Some(s) => cell_of(row@, i) == Some(s@),
            None => cell_of(row@, i) is None,
        },
{
    if i < row.cells.len() {
        match &row.cells[i] {
            Some(s) => Some(s),
            None => None,
        }
    } else {
        None
    }
}

fn compare_mixed(a: &ResultRow, b: &ResultRow, i: usize) -> (o: Order)
    ensures
        o == mixed_order(a@, b@, i),
{
    match (a.number, b.number) {
        (Some(x), Some(y)) => compare_ranks(total_rank_of(x), total_rank_of(y)),
        _ => match (text_at(a, i), text_at(b, i)) {
            (None, None) => Order::Equal,
            (None, Some(_)) => Order::Less,
            (Some(_), None) => Order::Greater,
            (Some(x), Some(y)) => compare_bytes(text_bytes(x.as_str()), text_bytes(y.as_str())),
        },
    }
}

fn number_key_of(row: &ResultRow, i: usize) -> (k: u64)
    ensures
        k == number_key(row@, i),
{
    match (text_at(row, i), row.number) {
        (None, _) => 0xfff0_0000_0000_0000,
        (Some(_), Some(bits)) => bits,
        (Some(_), None) => 0x7ff0_0000_0000_0000,
    }
}

fn text_key_of(row: &ResultRow, i: usize) -> (s: String)
    ensures
        s@ == text_key(row@, i),
{
    match text_at(row, i) {
        Some(s) => s.clone(),
        None => {
            let s: String = String::new();
            assert(s@ =~= Seq::empty());
            s
        },
    }
}

fn compare_keyed(a: &ResultRow, b: &ResultRow, i: usize) -> (o: Order)
    ensures
        o == keyed_order(a@, b@, i),
{
    let x: u64 = number_key_of(a, i);
    let y: u64 = number_key_of(b, i);
    if is_not_a_number(x) || is_not_a_number(y) {
        return Order::Equal;
    }
    let o = compare_ranks(rank_of_double(x), rank_of_double(y));
    if o != Order::Equal {
        return o;
    }
    let s = text_key_of(a, i);
    let t = text_key_of(b, i);
    compare_bytes(text_bytes(s.as_str()), text_bytes(t.as_str()))
}

/// How two rows stand to each other.
pub fn compare_rows(a: &ResultRow, b: &ResultRow, how: RowOrder) -> (o: Order)
    ensures
        o == row_order(a@, b@, how),
{
    reveal(row_order);
    match how {
        RowOrder::Given => Order::Equal,
        RowOrder::Mixed(i, desc) => {
            let o = compare_mixed(a, b, i);
            if desc {
                flip(o)
            } else {
                o
            }
        },
        RowOrder::Keyed(i, desc) => {
            let o = compare_keyed(a, b, i);
            if desc {
                flip(o)
            } else {
                o
            }
        },
        RowOrder::Whole => compare_texts(&a.cells, &b.cells),
    }
}

/// Whether an order is a total one on rows: turning two rows round turns the order round, and it
/// is transitive.
pub open spec fn is_total(rows: Seq<ResultRowView>, how: RowOrder) -> bool {
    &&& forall|i: int, j: int|
        0 <= i < rows.len() && 0 <= j < rows.len() ==> #[trigger] row_order(rows[j], rows[i], how)
            == flipped(row_order(rows[i], rows[j], how))
    &&& forall|i: int, j: int, k: int|
        0 <= i < rows.len() && 0 <= j < rows.len() && 0 <= k < rows.len() && #[trigger] row_order(
            rows[i],
            rows[j],
            how,
        ) != Order::Greater && #[trigger] row_order(rows[j], rows[k], how) != Order::Greater
            ==> row_order(rows[i], rows[k], how) != Order::Greater
}

/// Whether positions are those of `n` rows, each once.
pub open spec fn is_arrangement(p: Seq<int>, n: nat) -> bool {
    &&& p.len() == n
    &&& forall|i: int| 0 <= i < n ==> 0 <= #[trigger] p[i] < n
    &&& p.no_duplicates()
}

/// Whether positions put rows in order, those that are equal in the order they had.
pub open spec fn is_in_order(p: Seq<int>, rows: Seq<ResultRowView>, how: RowOrder) -> bool {
    forall|i: int, j: int|
        0 <= i < j < p.len() ==> {
            let o = row_order(rows[#[trigger] p[i]], rows[#[trigger] p[j]], how);
            o == Order::Less || (o == Order::Equal && p[i] < p[j])
        }
}

/// The positions as plain integers.
pub open spec fn positions(p: Seq<usize>) -> Seq<int> {
    Seq::new(p.len(), |i: int| p[i] as int)
}

/// The positions of rows in order.
pub fn arrangement(rows: &Vec<ResultRow>, how: RowOrder) -> (p: Vec<usize>)
    ensures
        is_arrangement(positions(p@), rows@.len()),
        is_total(views(rows@), how) ==> is_in_order(positions(p@), views(rows@), how),
{
    let ghost all = views(rows@);
    let mut p: Vec<usize> = Vec::new();
    let mut n: usize = 0;
    while n < rows.len()
        invariant
            n <= rows@.len(),
            all == views(rows@),
            is_arrangement(positions(p@), n as nat),
            is_total(all, how) ==> is_in_order(positions(p@), all, how),
        decreases rows@.len() - n,
    {
        let ghost was = positions(p@);
        let mut k: usize = p.len();
        loop
            invariant_except_break
                k <= p@.len(),
            invariant
                n < rows@.len(),
                all == views(rows@),
                was == positions(p@),
                is_arrangement(was, n as nat),
                k <= p@.len(),
                forall|q: int|
                    k <= q < p@.len() ==> row_order(all[#[trigger] was[q]], all[n as int], how)
                        == Order::Greater,
            ensures
                k == 0 || row_order(all[was[k - 1]], all[n as int], how) != Order::Greater,
            decreases k,
        {
            if k == 0 {
                break;
            }
            assert(was[k - 1] == p@[k - 1]);
            assert(all[was[k - 1]] == rows@[p@[k - 1] as int]@);
            if compare_rows(&rows[p[k - 1]], &rows[n], how) != Order::Greater {
                break;
            }
            k = k - 1;
        }
        p.insert(k, n);
        proof {
            let now = positions(p@);
            assert(now =~= was.insert(k as int, n as int));
            lemma_inserted(was, n as nat, k as int, all, how);
        }
        n = n + 1;
    }
    p
}

proof fn lemma_inserted(was: Seq<int>, n: nat, k: int, all: Seq<ResultRowView>, how: RowOrder)
    requires
        is_arrangement(was, n),
        n < all.len(),
        0 <= k <= was.len(),
        forall|q: int|
            k <= q < was.len() ==> row_order(all[#[trigger] was[q]], all[n as int], how)
                == Order::Greater,
        k == 0 || row_order(all[was[k - 1]], all[n as int], how) != Order::Greater,
        is_total(all, how) ==> is_in_order(was, all, how),
    ensures
        is_arrangement(was.insert(k, n as int), n + 1),
        is_total(all, how) ==> is_in_order(was.insert(k, n as int), all, how),
{
    let now = was.insert(k, n as int);
    assert forall|i: int| 0 <= i < n + 1 implies 0 <= #[trigger] now[i] < n + 1 by {
        if i < k {
            assert(now[i] == was[i]);
        } else if i > k {
            assert(now[i] == was[i - 1]);
        }
    }
    assert forall|i: int, j: int| 0 <= i < j < now.len() implies now[i] != now[j] by {
        let a = if i < k {
            i
        } else {
            i - 1
        };
        let b = if j < k {
            j
        } else {
            j - 1
        };
        if i != k {
            assert(now[i] == was[a]);
            assert(0 <= was[a] < n);
        }
        if j != k {
            assert(now[j] == was[b]);
            assert(0 <= was[b] < n);
        }
    }
    if is_total(all, how) {
        assert forall|i: int, j: int| 0 <= i < j < now.len() implies ({
            let o = row_order(all[#[trigger] now[i]], all[#[trigger] now[j]], how);
            o == Order::Less || (o == Order::Equal && now[i] < now[j])
        }) by {
            if j < k {
                assert(now[i] == was[i] && now[j] == was[j]);
            } else if i > k {
                assert(now[i] == was[i - 1] && now[j] == was[j - 1]);
            } else if j == k {
                assert(now[i] == was[i]);
                assert(0 <= was[i] < n);
                if i < k - 1 {
                    assert(0 <= was[k - 1] < n);
                    assert(row_order(all[was[i]], all[was[k - 1]], how) != Order::Greater);
                    assert(row_order(all[was[k - 1]], all[n as int], how) != Order::Greater);
                }
                assert(row_order(all[was[i]], all[n as int], how) != Order::Greater);
            } else if i == k {
                assert(now[j] == was[j - 1]);
                assert(0 <= was[j - 1] < n);
                assert(row_order(all[was[j - 1]], all[n as int], how) == Order::Greater);
                assert(row_order(all[n as int], all[was[j - 1]], how) == flipped(
                    row_order(all[was[j - 1]], all[n as int], how),
                ));
            } else {
                assert(now[i] == was[i] && now[j] == was[j - 1]);
            }
        }
    }
}

/// The rows without those whose cells have come before.
pub open spec fn distinct(rows: Seq<ResultRowView>) -> Seq<ResultRowView>
    decreases rows.len(),
{
    if rows.len() == 0 {
        rows
    } else {
        let kept = distinct(rows.drop_last());
        if has_cells(kept, rows.last().cells) {
            kept
        } else {
            kept.push(rows.last())
        }
    }
}

/// Whether one of the rows has these cells.
pub open spec fn has_cells(rows: Seq<ResultRowView>, cells: Texts) -> bool {
    exists|i: int| 0 <= i < rows.len() && (#[trigger] rows[i]).cells == cells
}

fn drop_duplicates(rows: Vec<ResultRow>) -> (out: Vec<ResultRow>)
    ensures
        views(out@) == distinct(views(rows@)),
{
    let ghost all = views(rows@);
    let mut out: Vec<ResultRow> = Vec::new();
    let mut n: usize = 0;
    assert(all.take(0) =~= Seq::empty());
    assert(views(out@) =~= distinct(all.take(0)));
    while n < rows.len()
        invariant
            n <= rows@.len(),
            all == views(rows@),
            views(out@) == distinct(all.take(n as int)),
        decreases rows@.len() - n,
    {
        let ghost kept = views(out@);
        assert(all.take(n + 1).drop_last() =~= all.take(n as int));
        assert(all[n as int] == rows@[n as int]@);
        let mut seen: bool = false;
        let mut i: usize = 0;
        while i < out.len() && !seen
            invariant
                i <= out@.len(),
                n < rows@.len(),
                kept == views(out@),
                all == views(rows@),
                all[n as int] == rows@[n as int]@,
                seen ==> has_cells(kept, all[n as int].cells),
                !seen ==> forall|j: int|
                    0 <= j < i ==> (#[trigger] kept[j]).cells != all[n as int].cells,
            decreases out@.len() - i + (if seen {
                0int
            } else {
                1int
            }),
        {
            assert(kept[i as int] == out@[i as int]@);
            if same_texts(&out[i].cells, &rows[n].cells) {
                seen = true;
            } else {
                i = i + 1;
            }
        }
        if !seen {
            let row = ResultRow { cells: copy_texts(&rows[n].cells), number: rows[n].number };
            out.push(row);
            assert(views(out@) =~= kept.push(all[n as int]));
        }
        n = n + 1;
    }
    assert(all.take(n as int) =~= all);
    out
}

/// What becomes of rows: duplicates dropped if so said, then ordered, then limited.
pub open spec fn is_arranged(
    out: Seq<Texts>,
    rows: Seq<ResultRowView>,
    is_distinct: bool,
    how: RowOrder,
    limit: Option<usize>,
) -> bool {
    stand_in_order(
        out,
        if is_distinct {
            distinct(rows)
        } else {
            rows
        },
        how,
        limit,
    )
}

/// Whether these are the cells of rows, put in order and limited. Where the order is not a total
/// one, they are the rows in some order.
pub open spec fn stand_in_order(
    out: Seq<Texts>,
    rows: Seq<ResultRowView>,
    how: RowOrder,
    limit: Option<usize>,
) -> bool {
    exists|p: Seq<int>|
        {
            &&& #[trigger] is_arrangement(p, rows.len())
            &&& is_total(rows, how) ==> is_in_order(p, rows, how)
            &&& are_cells_of(out, rows, p, limit)
        }
}

/// Whether these are the cells of rows in an order, up to a limit.
pub open spec fn are_cells_of(
    out: Seq<Texts>,
    rows: Seq<ResultRowView>,
    p: Seq<int>,
    limit: Option<usize>,
) -> bool {
    out.len() == limited(rows.len(), limit) && forall|i: int|
        0 <= i < out.len() ==> #[trigger] out[i] == rows[p[i]].cells
}

/// How many of `n` rows a limit leaves.
pub open spec fn limited(n: nat, limit: Option<usize>) -> nat {
    match limit {
        Some(l) => if l < n {
            l as nat
        } else {
            n
        },
        None => n,
    }
}

/// Drops duplicates if so said, orders, and limits.
pub fn arrange(
    rows: Vec<ResultRow>,
    is_distinct: bool,
    how: RowOrder,
    limit: Option<usize>,
) -> (out: Vec<Vec<Option<String>>>)
    ensures
        is_arranged(nested_opt(out@), views(rows@), is_distinct, how, limit),
{
    let ghost all = views(rows@);
    let kept = if is_distinct {
        drop_duplicates(rows)
    } else {
        rows
    };
    let ghost k = views(kept@);
    let p = arrangement(&kept, how);
    let n: usize = match limit {
        Some(l) => if l < kept.len() {
            l
        } else {
            kept.len()
        },
        None => kept.len(),
    };
    let ghost want = Seq::new(limited(k.len(), limit), |i: int| k[positions(p@)[i]].cells);
    let mut out: Vec<Vec<Option<String>>> = Vec::new();
    let mut i: usize = 0;
    while i < n
        invariant
            i <= n,
            n == limited(k.len(), limit),
            n <= kept@.len(),
            k == views(kept@),
            is_arrangement(positions(p@), kept@.len()),
            want == Seq::new(limited(k.len(), limit), |i: int| k[positions(p@)[i]].cells),
            nested_opt(out@) =~= want.take(i as int),
        decreases n - i,
    {
        let ghost so_far = nested_opt(out@);
        assert(0 <= positions(p@)[i as int] < kept@.len());
        assert(k[p@[i as int] as int] == kept@[p@[i as int] as int]@);
        let cells = copy_texts(&kept[p[i]].cells);
        let ghost c = opt_views(cells@);
        out.push(cells);
        assert(nested_opt(out@) =~= so_far.push(c));
        i = i + 1;
    }
    assert(nested_opt(out@) =~= want);
    assert(are_cells_of(nested_opt(out@), k, positions(p@), limit));
    assert(is_arrangement(positions(p@), k.len()));
    assert(stand_in_order(nested_opt(out@), k, how, limit));
    out
}

/// Rows that are left as they come stay as they come.
pub proof fn law_given_order_changes_nothing(out: Seq<Texts>, rows: Seq<ResultRowView>)
    requires
        is_arranged(out, rows, false, RowOrder::Given, None),
    ensures
        out == Seq::new(rows.len(), |i: int| rows[i].cells),
{
    reveal(row_order);
    let p = choose|p: Seq<int>|
        {
            &&& #[trigger] is_arrangement(p, rows.len())
            &&& is_total(rows, RowOrder::Given) ==> is_in_order(p, rows, RowOrder::Given)
            &&& are_cells_of(out, rows, p, None)
        };
    assert(is_total(rows, RowOrder::Given));
    assert forall|i: int, j: int| 0 <= i < j < p.len() implies p[i] < p[j] by {
        assert(row_order(rows[p[i]], rows[p[j]], RowOrder::Given) == Order::Equal);
    }
    assert forall|i: int| 0 <= i < p.len() implies #[trigger] p[i] == i by {
        lemma_rising(p, i);
    }
    assert(out =~= Seq::new(rows.len(), |i: int| rows[i].cells));
}

/// Rising positions of all rows are the rows' own.
proof fn lemma_rising(p: Seq<int>, i: int)
    requires
        is_arrangement(p, p.len()),
        forall|a: int, b: int| 0 <= a < b < p.len() ==> p[a] < p[b],
        0 <= i < p.len(),
    ensures
        p[i] == i,
{
    lemma_rising_above(p, i);
    lemma_rising_below(p, i);
}

proof fn lemma_rising_above(p: Seq<int>, i: int)
    requires
        is_arrangement(p, p.len()),
        forall|a: int, b: int| 0 <= a < b < p.len() ==> p[a] < p[b],
        0 <= i < p.len(),
    ensures
        p[i] >= i,
    decreases i,
{
    assert(0 <= p[i]);
    if i > 0 {
        lemma_rising_above(p, i - 1);
        assert(p[i - 1] < p[i]);
    }
}

proof fn lemma_rising_below(p: Seq<int>, i: int)
    requires
        is_arrangement(p, p.len()),
        forall|a: int, b: int| 0 <= a < b < p.len() ==> p[a] < p[b],
        0 <= i < p.len(),
    ensures
        p[i] <= i,
    decreases p.len() - i,
{
    assert(p[i] < p.len());
    if i + 1 < p.len() {
        lemma_rising_below(p, i + 1);
        assert(p[i] < p[i + 1]);
    }
}

/// No two of the distinct rows have the same cells, and every row has its cells among them.
pub proof fn law_distinct_rows_differ(rows: Seq<ResultRowView>)
    ensures
        forall|i: int, j: int|
            0 <= i < j < distinct(rows).len() ==> (#[trigger] distinct(rows)[i]).cells != (
            #[trigger] distinct(rows)[j]).cells,
        forall|i: int|
            0 <= i < rows.len() ==> has_cells(distinct(rows), (#[trigger] rows[i]).cells),
    decreases rows.len(),
{
    if rows.len() > 0 {
        let before = rows.drop_last();
        law_distinct_rows_differ(before);
        let kept = distinct(before);
        let now = distinct(rows);
        assert forall|i: int| 0 <= i < rows.len() implies has_cells(
            now,
            (#[trigger] rows[i]).cells,
        ) by {
            if i < before.len() {
                assert(before[i] == rows[i]);
                assert(has_cells(kept, before[i].cells));
                let j = choose|j: int|
                    0 <= j < kept.len() && (#[trigger] kept[j]).cells == rows[i].cells;
                assert(now[j] == kept[j]);
            } else if !has_cells(kept, rows.last().cells) {
                assert(now[kept.len() as int] == rows.last());
            }
        }
    }
}

/// Comparing whole rows is a total order; so is ordering by a cell as a number and text where no
/// row has something that is not a number, and the mixed order where no row has a number, where
/// all have one, and where exactly the rows have one whose cell is not null.
pub proof fn law_orders_are_total(rows: Seq<ResultRowView>, how: RowOrder)
    requires
        match how {
            RowOrder::Given => true,
            RowOrder::Whole => true,
            RowOrder::Keyed(c, _) => forall|i: int|
                0 <= i < rows.len() ==> !is_nan(number_key(#[trigger] rows[i], c)),
            RowOrder::Mixed(c, _) => {
                ||| forall|i: int| 0 <= i < rows.len() ==> (#[trigger] rows[i]).number is None
                ||| forall|i: int| 0 <= i < rows.len() ==> (#[trigger] rows[i]).number is Some
                ||| forall|i: int|
                    0 <= i < rows.len() ==> ((#[trigger] rows[i]).number is Some) == (cell_of(
                        rows[i],
                        c,
                    ) is Some)
            },
        },
    ensures
        is_total(rows, how),
{
    reveal(row_order);
    assert forall|i: int, j: int| 0 <= i < rows.len() && 0 <= j < rows.len() implies #[trigger] row_order(
        rows[j],
        rows[i],
        how,
    ) == flipped(row_order(rows[i], rows[j], how)) by {
        lemma_order_flips(rows[i], rows[j], how);
    }
    assert forall|i: int, j: int, k: int|
        0 <= i < rows.len() && 0 <= j < rows.len() && 0 <= k < rows.len() && #[trigger] row_order(
            rows[i],
            rows[j],
            how,
        ) != Order::Greater && #[trigger] row_order(rows[j], rows[k], how)
            != Order::Greater implies row_order(rows[i], rows[k], how) != Order::Greater by {
        let (a, b, c) = (rows[i], rows[j], rows[k]);
        match how {
            RowOrder::Given => {},
            RowOrder::Whole => {
                lemma_texts_order_trans(a.cells, b.cells, c.cells);
            },
            RowOrder::Keyed(n, desc) => {
                let (x, y, z) = (
                    encode_utf8(text_key(a, n)),
                    encode_utf8(text_key(b, n)),
                    encode_utf8(text_key(c, n)),
                );
                lemma_bytes_trans(x, y, z);
                lemma_bytes_trans(z, y, x);
                lemma_lex_flip(x, y);
                lemma_lex_flip(y, z);
                lemma_lex_flip(x, z);
            },
            RowOrder::Mixed(n, desc) => {
                if a.number is None {
                    lemma_text_order_trans(cell_of(a, n), cell_of(b, n), cell_of(c, n));
                    lemma_text_order_trans(cell_of(c, n), cell_of(b, n), cell_of(a, n));
                    lemma_text_order_flips(cell_of(a, n), cell_of(b, n));
                    lemma_text_order_flips(cell_of(b, n), cell_of(c, n));
                    lemma_text_order_flips(cell_of(a, n), cell_of(c, n));
                }
            },
        }
    }
}

proof fn lemma_order_flips(a: ResultRowView, b: ResultRowView, how: RowOrder)
    ensures
        row_order(b, a, how) == flipped(row_order(a, b, how)),
{
    reveal(row_order);
    match how {
        RowOrder::Given => {},
        RowOrder::Whole => {
            lemma_texts_order_flips(a.cells, b.cells);
        },
        RowOrder::Keyed(n, desc) => {
            lemma_lex_flip(encode_utf8(text_key(a, n)), encode_utf8(text_key(b, n)));
        },
        RowOrder::Mixed(n, desc) => {
            lemma_text_order_flips(cell_of(a, n), cell_of(b, n));
        },
    }
}

proof fn lemma_bytes_trans(x: Seq<u8>, y: Seq<u8>, z: Seq<u8>)
    ensures
        lex(x, y) != Order::Greater && lex(y, z) != Order::Greater ==> lex(x, z) != Order::Greater,
        lex(x, y) != Order::Greater && lex(y, z) != Order::Greater && lex(x, z) == Order::Equal
            ==> lex(x, y) == Order::Equal && lex(y, z) == Order::Equal,
{
    lemma_lex_equal(x, y);
    lemma_lex_equal(y, z);
    lemma_lex_equal(x, z);
    lemma_lex_flip(x, y);
    if lex(x, y) == Order::Less && lex(y, z) == Order::Less {
        lemma_lex_trans(x, y, z);
    }
    lemma_lex_flip(y, z);
}

proof fn lemma_text_order_flips(a: Option<Seq<char>>, b: Option<Seq<char>>)
    ensures
        text_order(b, a) == flipped(text_order(a, b)),
{
    if let (Some(x), Some(y)) = (a, b) {
        lemma_lex_flip(encode_utf8(x), encode_utf8(y));
    }
}

proof fn lemma_text_order_trans(
    a: Option<Seq<char>>,
    b: Option<Seq<char>>,
    c: Option<Seq<char>>,
)
    ensures
        text_order(a, b) != Order::Greater && text_order(b, c) != Order::Greater ==> text_order(
            a,
            c,
        ) != Order::Greater,
        text_order(a, b) != Order::Greater && text_order(b, c) != Order::Greater && text_order(a, c)
            == Order::Equal ==> text_order(a, b) == Order::Equal && text_order(b, c)
            == Order::Equal,
{
    if let (Some(x), Some(y), Some(z)) = (a, b, c) {
        lemma_bytes_trans(encode_utf8(x), encode_utf8(y), encode_utf8(z));
    }
}

proof fn lemma_texts_order_flips(a: Texts, b: Texts)
    ensures
        texts_order(b, a) == flipped(texts_order(a, b)),
    decreases a.len(),
{
    if a.len() > 0 && b.len() > 0 {
        lemma_text_order_flips(a[0], b[0]);
        lemma_texts_order_flips(a.skip(1), b.skip(1));
    }
}

proof fn lemma_texts_order_trans(a: Texts, b: Texts, c: Texts)
    ensures
        texts_order(a, b) != Order::Greater && texts_order(b, c) != Order::Greater ==> texts_order(
            a,
            c,
        ) != Order::Greater,
    decreases a.len(),
{
    if a.len() > 0 && b.len() > 0 && c.len() > 0 {
        lemma_text_order_trans(a[0], b[0], c[0]);
        lemma_texts_order_trans(a.skip(1), b.skip(1), c.skip(1));
        if text_order(a[0], b[0]) == Order::Equal && text_order(b[0], c[0]) == Order::Equal {
            lemma_text_order_flips(a[0], b[0]);
            lemma_text_order_flips(b[0], c[0]);
            lemma_text_order_flips(a[0], c[0]);
            lemma_text_order_trans(c[0], b[0], a[0]);
        }
    }
}

/// Whether rows stand in an order that satisfies a test, up to a limit.
pub open spec fn stand_so_that(
    out: Seq<Texts>,
    rows: Seq<ResultRowView>,
    limit: Option<usize>,
    may_precede: spec_fn(ResultRowView, ResultRowView) -> bool,
) -> bool {
    exists|p: Seq<int>|
        {
            &&& #[trigger] is_arrangement(p, rows.len())
            &&& out.len() == match limit {
                Some(l) if l < rows.len() => l as nat,
                _ => rows.len(),
            }
            &&& forall|i: int| 0 <= i < out.len() ==> #[trigger] out[i] == rows[p[i]].cells
            &&& forall|i: int, j: int|
                0 <= i < j < p.len() ==> may_precede(
                    rows[#[trigger] p[i]],
                    rows[#[trigger] p[j]],
                )
        }
}

/// The column, and whether the order is descending, of an order by a column.
pub open spec fn ordered_by(how: RowOrder) -> Option<(usize, bool)> {
    match how {
        RowOrder::Mixed(c, desc) => Some((c, desc)),
        RowOrder::Keyed(c, desc) => Some((c, desc)),
        _ => None,
    }
}

/// Rows ordered by a column of numbers and nulls: no number stands behind a greater one, or before
/// one if the order is descending, and the nulls stand at the lower end.
pub proof fn law_rows_stand_by_number(
    out: Seq<Texts>,
    rows: Seq<ResultRowView>,
    how: RowOrder,
    limit: Option<usize>,
    c: usize,
    desc: bool,
)
    requires
        is_arranged(out, rows, false, how, limit),
        ordered_by(how) == Some((c, desc)),
        forall|i: int|
            0 <= i < rows.len() ==> match cell_of(#[trigger] rows[i], c) {
                Some(_) => rows[i].number matches Some(b) && !is_nan(b) && double_rank(b)
                    > double_rank(0xfff0_0000_0000_0000),
                None => rows[i].number is None,
            },
    ensures
        stand_so_that(
            out,
            rows,
            limit,
            |a: ResultRowView, b: ResultRowView|
                {
                    let (x, y) = if desc {
                        (b, a)
                    } else {
                        (a, b)
                    };
                    match (x.number, y.number) {
                        (Some(m), Some(n)) => num_order(NumView::Double(m), NumView::Double(n))
                            != Some(Order::Greater),
                        (Some(_), None) => false,
                        _ => true,
                    }
                },
        ),
{
    reveal(row_order);
    law_orders_are_total(rows, how);
    let p = choose|p: Seq<int>|
        {
            &&& #[trigger] is_arrangement(p, rows.len())
            &&& is_total(rows, how) ==> is_in_order(p, rows, how)
            &&& are_cells_of(out, rows, p, limit)
        };
    let may = |a: ResultRowView, b: ResultRowView|
        {
            let (x, y) = if desc {
                (b, a)
            } else {
                (a, b)
            };
            match (x.number, y.number) {
                (Some(m), Some(n)) => num_order(NumView::Double(m), NumView::Double(n)) != Some(
                    Order::Greater,
                ),
                (Some(_), None) => false,
                _ => true,
            }
        };
    assert forall|i: int, j: int| 0 <= i < j < p.len() implies may(
        rows[#[trigger] p[i]],
        rows[#[trigger] p[j]],
    ) by {
        let (a, b) = (rows[p[i]], rows[p[j]]);
        let o = row_order(a, b, how);
        assert(o == Order::Less || (o == Order::Equal && p[i] < p[j]));
    }
    assert(is_arrangement(p, rows.len()));
}

proof fn lemma_by_text(a: ResultRowView, b: ResultRowView, how: RowOrder, c: usize, desc: bool)
    requires
        ordered_by(how) == Some((c, desc)),
        a.number is None,
        b.number is None,
        cell_of(a, c) is Some,
        cell_of(b, c) is Some,
        row_order(a, b, how) != Order::Greater,
    ensures
        ({
            let (x, y) = if desc {
                (b, a)
            } else {
                (a, b)
            };
            !in_dictionary_before(encode_utf8(cell_of(y, c)->0), encode_utf8(cell_of(x, c)->0))
        }),
{
    reveal(row_order);
    law_bytes_are_in_dictionary_order(encode_utf8(cell_of(a, c)->0), encode_utf8(cell_of(b, c)->0));
}

/// Rows ordered by a column of text that spells no numbers: none stands behind one that comes
/// after it in a dictionary, or before one that comes before it if the order is descending.
pub proof fn law_rows_stand_by_text(
    out: Seq<Texts>,
    rows: Seq<ResultRowView>,
    how: RowOrder,
    limit: Option<usize>,
    c: usize,
    desc: bool,
)
    requires
        is_arranged(out, rows, false, how, limit),
        ordered_by(how) == Some((c, desc)),
        forall|i: int|
            0 <= i < rows.len() ==> (#[trigger] rows[i]).number is None && cell_of(rows[i], c) is Some,
    ensures
        stand_so_that(
            out,
            rows,
            limit,
            |a: ResultRowView, b: ResultRowView|
                {
                    let (x, y) = if desc {
                        (b, a)
                    } else {
                        (a, b)
                    };
                    !in_dictionary_before(
                        encode_utf8(cell_of(y, c)->0),
                        encode_utf8(cell_of(x, c)->0),
                    )
                },
        ),
{
    assert(is_total(rows, how)) by {
        law_orders_are_total(rows, how);
    }
    let p = choose|p: Seq<int>|
        {
            &&& #[trigger] is_arrangement(p, rows.len())
            &&& is_total(rows, how) ==> is_in_order(p, rows, how)
            &&& are_cells_of(out, rows, p, limit)
        };
    let may = |a: ResultRowView, b: ResultRowView|
        {
            let (x, y) = if desc {
                (b, a)
            } else {
                (a, b)
            };
            !in_dictionary_before(encode_utf8(cell_of(y, c)->0), encode_utf8(cell_of(x, c)->0))
        };
    assert forall|i: int, j: int| 0 <= i < j < p.len() implies may(
        rows[#[trigger] p[i]],
        rows[#[trigger] p[j]],
    ) by {
        assert(row_order(rows[p[i]], rows[p[j]], how) != Order::Greater);
        lemma_by_text(rows[p[i]], rows[p[j]], how, c, desc);
    }
    assert(is_arrangement(p, rows.len()));
}

} // verus!
