//! Aggregation over several members.

use bonsaigrid::query::distributed::{
    finalize, finalize_rows, finish_groups, is_aggregate, local_partial, merge,
    order_of_coordinator, plain_columns, Acc, AggKind, Partial,
};
use bonsaigrid::query::exec::Cell;
use bonsaigrid::query::json::FieldExtractor;
use bonsaigrid::query::partial_wire::{
    decode_partial, decode_rows, encode_partial, encode_rows, unfold, FoldedAcc, FoldedGroup,
    FoldedPartial,
};
use bonsaigrid::query::rows::{arrange, ResultRow, RowOrder};
use bonsaigrid::query::sql::{parse_select, Select};
use bonsaigrid::query::value::{FieldValue, Num};

struct Kv;

impl FieldExtractor for Kv {
    fn extract(&self, value: &[u8], field: &str) -> FieldValue {
        let s = std::str::from_utf8(value).unwrap_or("");
        for pair in s.split(',') {
            if let Some((k, v)) = pair.split_once('=') {
                if k == field {
                    return v
                        .parse::<i64>()
                        .map(FieldValue::I64)
                        .unwrap_or_else(|_| FieldValue::Str(v.into()));
                }
            }
        }
        FieldValue::Null
    }
}

fn e(s: &str) -> (Vec<u8>, Vec<u8>) {
    (b"k".to_vec(), s.as_bytes().to_vec())
}

fn double(n: &Num) -> f64 {
    match n {
        Num::Int(i) => *i as f64,
        Num::Double(bits) => f64::from_bits(*bits),
    }
}

fn add(ns: &[Num]) -> f64 {
    let mut sum = 0.0;
    for n in ns {
        sum += double(n);
    }
    sum
}

/// A double without a trailing `.0` for whole numbers.
fn trim(v: f64) -> String {
    if v.fract() == 0.0 {
        (v as i64).to_string()
    } else {
        v.to_string()
    }
}

fn render(c: &Cell) -> Option<String> {
    match c {
        Cell::Text(t) => t.clone(),
        Cell::Sum(ns) => Some(trim(add(ns))),
        Cell::Mean(ns, n) => Some(trim(add(ns) / *n as f64)),
        Cell::Number(n) => Some(trim(double(n))),
    }
}

fn with_number(cells: Vec<Option<String>>, how: Option<RowOrder>) -> ResultRow {
    let number = match how {
        Some(RowOrder::Keyed(i, _)) => cells
            .get(i)
            .and_then(|c| c.as_ref())
            .and_then(|s| s.parse::<f64>().ok())
            .map(|d| d.to_bits()),
        _ => None,
    };
    ResultRow { cells, number }
}

/// Turns merged groups into finished rows.
fn rows_of(sel: &Select, p: &Partial) -> (Vec<String>, Vec<Vec<Option<String>>>) {
    let (columns, rows) = finalize(sel, p);
    let how = order_of_coordinator(sel, &columns);
    let rows = rows
        .iter()
        .map(|r| with_number(r.iter().map(render).collect(), how))
        .collect();
    let out = finish_groups(sel, &columns, rows);
    (columns, out)
}

/// Folds the sums of a partial result.
fn fold(p: &Partial) -> FoldedPartial {
    let acc = |a: &Acc| FoldedAcc {
        rows: a.rows,
        sum: add(&a.addends).to_bits(),
        nvals: a.nvals,
        min: a.extremes.map_or(0.0, |x| double(&x.0)).to_bits(),
        max: a.extremes.map_or(0.0, |x| double(&x.1)).to_bits(),
        seen: a.extremes.is_some(),
    };
    FoldedPartial {
        groups: p
            .groups
            .iter()
            .map(|g| FoldedGroup { key: g.key.clone(), accs: g.accs.iter().map(acc).collect() })
            .collect(),
    }
}

fn partial(sel: &Select, entries: &[(Vec<u8>, Vec<u8>)]) -> Partial {
    local_partial(sel, entries, &Kv, None, &[])
}

#[test]
fn split_then_merge_equals_single_node() {
    let sel = parse_select(
        "SELECT region, SUM(amount), COUNT(amount), MIN(amount), MAX(amount), AVG(amount) \
         FROM sales GROUP BY region ORDER BY region",
    )
    .unwrap();

    // Data split across two members.
    let m1 = vec![e("region=us,amount=10"), e("region=us,amount=30"), e("region=eu,amount=5")];
    let m2 = vec![e("region=us,amount=20"), e("region=eu,amount=15")];

    let p1 = partial(&sel, &m1);
    let p2 = partial(&sel, &m2);
    let (cols, rows) = rows_of(&sel, &merge(vec![p1, p2]));

    assert_eq!(cols[0], "region");
    // eu: {5,15} sum20 cnt2 min5 max15 avg10 ; us: {10,30,20} sum60 cnt3 min10 max30 avg20
    assert_eq!(
        rows,
        vec![
            vec![
                Some("eu".into()),
                Some("20".into()),
                Some("2".into()),
                Some("5".into()),
                Some("15".into()),
                Some("10".into())
            ],
            vec![
                Some("us".into()),
                Some("60".into()),
                Some("3".into()),
                Some("10".into()),
                Some("30".into()),
                Some("20".into())
            ],
        ]
    );
}

#[test]
fn matches_single_node_run() {
    // Merging two partials must equal running over the concatenated input.
    let sel = parse_select("SELECT dept, SUM(sal) FROM emp GROUP BY dept").unwrap();
    let a = vec![e("dept=x,sal=100"), e("dept=y,sal=50")];
    let b = vec![e("dept=x,sal=200")];
    let dist = rows_of(&sel, &merge(vec![partial(&sel, &a), partial(&sel, &b)]));
    let mut all = a.clone();
    all.extend(b);
    let single = rows_of(&sel, &partial(&sel, &all));
    assert_eq!(dist, single);
}

#[test]
fn partial_wire_roundtrip() {
    let sel =
        parse_select("SELECT region, SUM(amount), MIN(amount) FROM s GROUP BY region").unwrap();
    let m = vec![e("region=us,amount=10"), e("region=eu,amount=5")];
    let p = partial(&sel, &m);
    let folded = fold(&p);
    let back = decode_partial(&encode_partial(&folded)).expect("decodes");
    assert_eq!(back, folded);
    // A partial sent over the wire merges identically to the in-memory one.
    assert_eq!(rows_of(&sel, &merge(vec![unfold(&back)])), rows_of(&sel, &p));
}

#[test]
fn distributed_windowed_aggregation() {
    let sel = parse_select(
        "SELECT window_start, SUM(amount) FROM TUMBLE(s, ts, 10) GROUP BY window_start ORDER BY window_start",
    )
    .unwrap();
    let m1 = vec![e("ts=1,amount=5")]; // window [0,10)
    let m2 = vec![e("ts=3,amount=7"), e("ts=11,amount=4")]; // [0,10) and [10,20)
    let (_, rows) = rows_of(&sel, &merge(vec![partial(&sel, &m1), partial(&sel, &m2)]));
    assert_eq!(
        rows,
        vec![
            vec![Some("0".into()), Some("12".into())],
            vec![Some("10".into()), Some("4".into())],
        ]
    );
}

#[test]
fn rows_wire_roundtrip_and_finalize() {
    let rows = vec![vec![Some("us".into()), Some("10".into())], vec![Some("eu".into()), None]];
    assert_eq!(decode_rows(&encode_rows(&rows)).unwrap(), rows);

    // Concat two members' rows, DISTINCT + ORDER BY + LIMIT at the coordinator.
    let sel = parse_select("SELECT DISTINCT region FROM m ORDER BY region LIMIT 2").unwrap();
    let a = vec![vec![Some("us".into())], vec![Some("eu".into())]];
    let b = vec![vec![Some("us".into())], vec![Some("ap".into())]]; // us duplicate
    let mut all: Vec<Vec<Option<String>>> = a;
    all.extend(b);
    let how = order_of_coordinator(&sel, &plain_columns(&sel));
    let all = all.into_iter().map(|cells| with_number(cells, how)).collect();
    let (cols, out) = finalize_rows(&sel, all);
    assert_eq!(cols, vec!["region"]);
    assert_eq!(
        out,
        vec![vec![Some("ap".into())], vec![Some("eu".into())]] // distinct+sorted, limited to 2
    );
}

#[test]
fn windows_of_negative_times_and_bounds() {
    let sel =
        parse_select("SELECT window_start, window_end, COUNT(x) FROM TUMBLE(s, ts, 10)").unwrap();
    assert!(is_aggregate(&sel));
    let p = partial(&sel, &[e("ts=-1"), e("ts=-10"), e("ts=0")]);
    let (_, rows) = rows_of(&sel, &p);
    assert_eq!(
        rows,
        vec![
            vec![Some("-10".into()), Some("0".into()), Some("2".into())],
            vec![Some("0".into()), Some("10".into()), Some("1".into())],
        ]
    );
}

#[test]
fn groups_without_numbers_are_null() {
    let sel = parse_select("SELECT k, SUM(v), AVG(v), MIN(v), COUNT(v) FROM m GROUP BY k").unwrap();
    let (_, rows) = rows_of(&sel, &partial(&sel, &[e("k=a,v=x")]));
    assert_eq!(rows, vec![vec![Some("a".into()), None, None, None, Some("1".into())]]);
    assert!(!is_aggregate(&parse_select("SELECT a FROM m").unwrap()));
    assert!(is_aggregate(&parse_select("SELECT sum(a) FROM m").unwrap()));
    assert!(is_aggregate(&parse_select("SELECT a FROM m GROUP BY a").unwrap()));
}

#[test]
fn accumulators_ignore_what_is_no_number() {
    let mut a = Acc::new();
    a.add_value(Num::Double(f64::NAN.to_bits()));
    a.add_value(Num::Int(3));
    a.add_value(Num::Double(2.5f64.to_bits()));
    assert_eq!(a.extremes, Some((Num::Double(2.5f64.to_bits()), Num::Int(3))));
    assert_eq!(a.finalize(AggKind::Max), Cell::Number(Num::Int(3)));
    assert_eq!(a.nvals, 3);
}

#[test]
fn rows_of_mixed_cells_are_ordered() {
    let sel = parse_select("SELECT a FROM m ORDER BY a").unwrap();
    let how = order_of_coordinator(&sel, &plain_columns(&sel));
    let cell = |s: &str| vec![Some(s.to_string())];
    let rows = vec![cell("10"), vec![None], cell("9"), cell("x")]
        .into_iter()
        .map(|c| with_number(c, how))
        .collect();
    let (_, out) = finalize_rows(&sel, rows);
    assert_eq!(out, vec![vec![None], cell("9"), cell("10"), cell("x")]);
}

#[test]
fn cut_bytes_are_not_decoded() {
    let rows = vec![vec![Some("us".to_string())]];
    let b = encode_rows(&rows);
    assert_eq!(b, vec![1, 0, 0, 0, 1, 0, 0, 0, 1, 2, 0, 0, 0, b'u', b's']);
    for n in 0..b.len() {
        assert!(decode_rows(&b[..n]).is_none());
    }
    let p = FoldedPartial {
        groups: vec![FoldedGroup {
            key: vec![None],
            accs: vec![FoldedAcc { rows: 1, sum: 2, nvals: 3, min: 4, max: 5, seen: true }],
        }],
    };
    let b = encode_partial(&p);
    for n in 0..b.len() {
        assert!(decode_partial(&b[..n]).is_none());
    }
    assert_eq!(decode_partial(&b), Some(p));
}

#[test]
fn bytes_behind_rows_do_not_matter() {
    let rows = vec![vec![Some("us".to_string()), None], vec![]];
    let mut b = encode_rows(&rows);
    b.push(9);
    assert_eq!(decode_rows(&b).unwrap(), rows);
}

#[test]
fn nulls_stand_before_numbers() {
    let row = |s: Option<&str>, n: Option<f64>| ResultRow {
        cells: vec![s.map(|s| s.to_string())],
        number: n.map(|n| n.to_bits()),
    };
    let rows = vec![
        row(Some("10"), Some(10.0)),
        row(None, None),
        row(Some("-3"), Some(-3.0)),
        row(None, None),
        row(Some("9"), Some(9.0)),
    ];
    let text = |s: &str| vec![Some(s.to_string())];
    assert_eq!(
        arrange(rows.clone(), false, RowOrder::Mixed(0, false), None),
        vec![vec![None], vec![None], text("-3"), text("9"), text("10")]
    );
    assert_eq!(
        arrange(rows, false, RowOrder::Mixed(0, true), Some(4)),
        vec![text("10"), text("9"), text("-3"), vec![None]]
    );
}
