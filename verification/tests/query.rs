//! Values, predicates, indexes, JSON values, aggregations.

use bonsaigrid::order::Order;
use bonsaigrid::query::agg::{
    decode_aggregator, execute_aggregation, execute_projection,
    extract_attribute_from_projection, Aggregate, AggregationType, Aggregator,
};
use bonsaigrid::query::index::{plan_and_resolve, Index, IndexType};
use bonsaigrid::query::json::{
    decode_key_data, int_data, json_field_names, json_object, json_record_fields, json_to_fieldvalue,
    json_value_data, jsonflat_fields, parse_json_object, string_data, FieldExtractor, Json,
    JsonExtractor,
};
use bonsaigrid::query::predicate::{
    bare_col, eval_fields, Op, PatternKind, Predicate, Probe,
};
use bonsaigrid::query::value::{fmt_value, truncate, Double, FieldValue, Num};
use bonsaigrid::table::Table;

fn f64v(d: f64) -> FieldValue {
    FieldValue::F64(Double { bits: d.to_bits(), text: d.to_string() })
}

fn text(s: &str) -> FieldValue {
    FieldValue::Str(s.to_string())
}

#[test]
fn json_value_roundtrip_and_extract() {
    let blob = json_value_data(r#"{"starter":"Soup","n":7}"#);
    let ex = JsonExtractor;
    assert_eq!(ex.extract(&blob, "starter"), FieldValue::Str("Soup".into()));
    assert_eq!(ex.extract(&blob, "n"), FieldValue::I64(7));
    assert_eq!(ex.extract(&blob, "missing"), FieldValue::Null);
    let mut names = json_field_names(&blob).unwrap();
    names.sort();
    assert_eq!(names, vec!["n", "starter"]);
}

#[test]
fn build_object() {
    let j = json_object(&[
        ("a".into(), FieldValue::Str("x".into())),
        ("b".into(), FieldValue::I64(2)),
    ]);
    assert!(j.contains("\"a\":\"x\""));
    assert!(j.contains("\"b\":2"));
}

#[test]
fn what_was_written_is_extracted() {
    let fields = vec![
        ("a".to_string(), FieldValue::I32(-5)),
        ("b".to_string(), text("quote \" and \u{e9}")),
        ("n".to_string(), FieldValue::Null),
        ("t".to_string(), FieldValue::Bool(false)),
        ("d".to_string(), f64v(0.25)),
        ("a".to_string(), FieldValue::I64(6)),
    ];
    let blob = json_value_data(&json_object(&fields));
    let ex = JsonExtractor;
    assert_eq!(ex.extract(&blob, "a"), FieldValue::I64(6), "the last field of a name counts");
    assert_eq!(ex.extract(&blob, "b"), text("quote \" and \u{e9}"));
    assert_eq!(ex.extract(&blob, "n"), FieldValue::Null);
    assert_eq!(ex.extract(&blob, "t"), FieldValue::Bool(false));
    assert_eq!(ex.extract(&blob, "d"), f64v(0.25));
    assert_eq!(json_field_names(&blob).unwrap(), vec!["a", "b", "d", "n", "t"]);
}

#[test]
fn nested_json_is_text_and_other_blobs_are_nothing() {
    let blob = json_value_data(r#"{"list":[1,2],"big":18446744073709551615}"#);
    assert_eq!(JsonExtractor.extract(&blob, "list"), text("[1,2]"));
    assert_eq!(JsonExtractor.extract(&blob, "big"), f64v(18446744073709551615.0));
    assert!(parse_json_object(&json_value_data("[1]")).is_none());
    assert!(parse_json_object(b"short").is_none());
    assert!(json_field_names(&[0; 10]).is_none());
    assert_eq!(JsonExtractor.extract(&[0; 12], "x"), FieldValue::Null);
    let mut cut = json_value_data(r#"{"a":1}"#);
    cut.pop();
    assert!(parse_json_object(&cut).is_none());
    assert_eq!(
        json_to_fieldvalue(&Json::Number(None, None)),
        FieldValue::F64(Double { bits: 0, text: "0".into() })
    );
}

#[test]
fn keys_read_back() {
    assert_eq!(string_data("k1")[8..], [0, 0, 0, 2, b'k', b'1']);
    assert_eq!(decode_key_data(&string_data("k1")), text("k1"));
    assert_eq!(int_data(-2), vec![0, 0, 0, 0, 255, 255, 255, 249, 255, 255, 255, 254]);
    assert_eq!(decode_key_data(&int_data(-2)), FieldValue::I32(-2));
    assert_eq!(decode_key_data(&json_value_data("{}")), FieldValue::Null);
    assert_eq!(decode_key_data(&[1, 2]), FieldValue::Null);
    // Bytes that are no text are replaced.
    let mut bad = string_data("ab");
    bad[12] = 0xff;
    assert_eq!(decode_key_data(&bad), text("\u{fffd}b"));
}

#[test]
fn flat_entries_have_the_key_first() {
    let fields =
        jsonflat_fields(&string_data("u1"), &json_value_data(r#"{"x":1}"#), "user_id");
    assert_eq!(
        fields,
        vec![("user_id".to_string(), text("u1")), ("x".to_string(), FieldValue::I64(1))]
    );
    assert_eq!(jsonflat_fields(&int_data(3), b"", "id").len(), 1);
    assert_eq!(json_record_fields(r#"{"y":"z"}"#), vec![("y".to_string(), text("z"))]);
    assert!(json_record_fields("nonsense").is_empty());
}

#[test]
fn values_compare_by_what_they_are() {
    assert_eq!(FieldValue::I32(1).compare(&FieldValue::I64(2)), Some(Order::Less));
    assert_eq!(FieldValue::I64(2).compare(&f64v(2.0)), Some(Order::Equal));
    assert_eq!(FieldValue::I64(2).compare(&f64v(2.5)), Some(Order::Less));
    assert_eq!(FieldValue::I64(-2).compare(&f64v(-2.5)), Some(Order::Greater));
    assert_eq!(f64v(0.0).compare(&f64v(-0.0)), Some(Order::Equal));
    assert_eq!(f64v(-1.0).compare(&f64v(f64::NEG_INFINITY)), Some(Order::Greater));
    assert_eq!(f64v(f64::NAN).compare(&f64v(1.0)), None);
    assert_eq!(FieldValue::I64(i64::MAX).compare(&f64v(9.3e18)), Some(Order::Less));
    // 2^53 + 1 is no double; the comparison is exact all the same.
    assert_eq!(
        FieldValue::I64(9007199254740993).compare(&f64v(9007199254740992.0)),
        Some(Order::Greater)
    );
    assert_eq!(text("b").compare(&text("a")), Some(Order::Greater));
    assert_eq!(FieldValue::Bool(false).compare(&FieldValue::Bool(true)), Some(Order::Less));
    assert_eq!(text("1").compare(&FieldValue::I64(1)), None);
    assert_eq!(FieldValue::Null.compare(&FieldValue::Null), None);
    assert!(FieldValue::I32(3).equals(&FieldValue::I64(3)));
    assert!(!FieldValue::Null.equals(&FieldValue::Null));
}

#[test]
fn comparing_agrees_with_doubles() {
    let ds = [-1e300, -3.5, -1.0, -1e-300, 0.0, 5e-324, 0.1, 0.5, 1.0, 1.5, 4e15, 1e19, f64::MAX];
    let is = [i64::MIN, -4, -3, -1, 0, 1, 2, 4_000_000_000_000_000, i64::MAX];
    for a in ds {
        for b in ds {
            let want = if a < b { Order::Less } else if a > b { Order::Greater } else { Order::Equal };
            assert_eq!(f64v(a).compare(&f64v(b)), Some(want), "{a} {b}");
        }
        for i in is {
            // Compared exactly in 128-bit integers where the double is whole.
            if a.fract() == 0.0 && a.abs() < 1e30 {
                let (x, y) = (i as i128, a as i128);
                let want =
                    if x < y { Order::Less } else if x > y { Order::Greater } else { Order::Equal };
                assert_eq!(FieldValue::I64(i).compare(&f64v(a)), Some(want), "{i} {a}");
            }
        }
        assert_eq!(truncate(a.to_bits()), a as i64, "{a}");
    }
    assert_eq!(truncate(f64::NAN.to_bits()), 0);
}

#[test]
fn values_as_text() {
    assert_eq!(fmt_value(&FieldValue::Null), None);
    assert_eq!(fmt_value(&FieldValue::Bool(true)), Some("true".into()));
    assert_eq!(fmt_value(&FieldValue::I32(-7)), Some("-7".into()));
    assert_eq!(fmt_value(&FieldValue::I64(i64::MIN)), Some("-9223372036854775808".into()));
    assert_eq!(fmt_value(&f64v(2.5)), Some("2.5".into()));
    assert_eq!(fmt_value(&text("x")), Some("x".into()));
}

fn compare(field: &str, op: Op, value: FieldValue) -> Predicate {
    Predicate::Compare { field: field.to_string(), op, value }
}

#[test]
fn predicates_hold_of_field_lists() {
    let row = vec![
        ("age".to_string(), FieldValue::I64(30)),
        ("name".to_string(), text("alice")),
        ("gone".to_string(), FieldValue::Null),
    ];
    let holds = |p: &Predicate| eval_fields(p, &row, &[]);
    assert!(holds(&compare("age", Op::Ge, FieldValue::I32(30))));
    assert!(holds(&compare("people.age", Op::Lt, f64v(30.5))));
    assert!(!holds(&compare("age", Op::NotEq, FieldValue::I32(30))));
    assert!(!holds(&compare("gone", Op::NotEq, FieldValue::I32(30))));
    assert!(!holds(&compare("missing", Op::Eq, FieldValue::Null)));
    let between = Predicate::Between {
        field: "age".into(),
        from: FieldValue::I64(30),
        to: FieldValue::I64(31),
    };
    assert!(holds(&between));
    let among = Predicate::In { field: "name".into(), values: vec![text("bob"), text("alice")] };
    assert!(holds(&among));
    assert!(!holds(&Predicate::Not(Box::new(Predicate::And(vec![])))));
    assert!(holds(&Predicate::And(vec![between, among])));
    assert!(!holds(&Predicate::Or(vec![])));
    assert!(holds(&Predicate::Or(vec![Predicate::False, Predicate::True])));
    assert!(!holds(&Predicate::Sql("age = 30".into())));
    assert!(holds(&Predicate::Paging { inner: None, page_size: 1, page: 0 }));
    assert!(!holds(&Predicate::Partition {
        target: Box::new(Predicate::MatchNone),
        key: vec![]
    }));
}

#[test]
fn patterns_go_by_their_probes() {
    let row = vec![("name".to_string(), text("alice"))];
    let like = Predicate::Like { field: "name".into(), expr: "al%".into() };
    assert!(!eval_fields(&like, &row, &[]));
    let probe = Probe {
        kind: PatternKind::Like,
        pattern: "al%".into(),
        text: "alice".into(),
        matched: true,
    };
    assert!(eval_fields(&like, &row, &[probe.clone()]));
    let ilike = Predicate::ILike { field: "name".into(), expr: "al%".into() };
    assert!(!eval_fields(&ilike, &row, &[probe]));
}

#[test]
fn qualifiers_are_dropped() {
    assert_eq!(bare_col("t.c"), "c");
    assert_eq!(bare_col("a.b.c"), "c");
    assert_eq!(bare_col("c"), "c");
    assert_eq!(bare_col("t."), "");
}

fn sorted(mut keys: Vec<Vec<u8>>) -> Vec<Vec<u8>> {
    keys.sort();
    keys
}

fn keys(ks: &[&[u8]]) -> Vec<Vec<u8>> {
    ks.iter().map(|k| k.to_vec()).collect()
}

#[test]
fn index_types_have_numbers() {
    assert_eq!(IndexType::from_i32(0), IndexType::Sorted);
    assert_eq!(IndexType::from_i32(1), IndexType::Hash);
    assert_eq!(IndexType::from_i32(2), IndexType::Bitmap);
    assert_eq!(IndexType::from_i32(9), IndexType::Sorted);
}

#[test]
fn sorted_indexes_answer_comparisons() {
    let mut x = Index::new(IndexType::Sorted);
    for (v, k) in [(10, b"a"), (20, b"b"), (20, b"c"), (30, b"d")] {
        x.insert(FieldValue::I64(v), k.to_vec());
    }
    x.insert(FieldValue::I64(20), b"b".to_vec()); // again
    let q = |op, v| sorted(x.query(op, &FieldValue::I32(v)));
    assert_eq!(q(Op::Eq, 20), keys(&[b"b", b"c"]));
    assert_eq!(q(Op::NotEq, 20), keys(&[b"a", b"d"]));
    assert_eq!(q(Op::Lt, 20), keys(&[b"a"]));
    assert_eq!(q(Op::Le, 20), keys(&[b"a", b"b", b"c"]));
    assert_eq!(q(Op::Gt, 20), keys(&[b"d"]));
    assert_eq!(q(Op::Ge, 20), keys(&[b"b", b"c", b"d"]));
    assert_eq!(
        sorted(x.query_between(&FieldValue::I64(15), &FieldValue::I64(30))),
        keys(&[b"b", b"c", b"d"])
    );
    x.remove(&FieldValue::I32(20), b"b");
    assert_eq!(sorted(x.query(Op::Eq, &FieldValue::I64(20))), keys(&[b"c"]));
}

#[test]
fn hash_indexes_answer_equality_only() {
    for ty in [IndexType::Hash, IndexType::Bitmap] {
        let mut x = Index::new(ty);
        x.insert(text("u"), b"1".to_vec());
        x.insert(text("v"), b"2".to_vec());
        assert_eq!(x.query(Op::Eq, &text("u")), keys(&[b"1"]));
        assert_eq!(x.query(Op::NotEq, &text("u")), keys(&[b"2"]));
        assert!(x.query(Op::Ge, &text("a")).is_empty());
        assert!(x.query_between(&text("a"), &text("z")).is_empty());
    }
}

#[test]
fn the_planner_uses_the_indexes_that_apply() {
    let mut age = Index::new(IndexType::Sorted);
    let mut name = Index::new(IndexType::Hash);
    for (a, n, k) in [(30, "alice", b"1"), (40, "bob", b"2"), (50, "alice", b"3")] {
        age.insert(FieldValue::I64(a), k.to_vec());
        name.insert(text(n), k.to_vec());
    }
    let mut indexes = Table::new();
    indexes.insert("age".to_string(), age);
    indexes.insert("name".to_string(), name);
    let plan = |p: &Predicate| plan_and_resolve(p, &indexes).map(sorted);
    assert_eq!(plan(&compare("age", Op::Gt, FieldValue::I64(30))), Some(keys(&[b"2", b"3"])));
    assert_eq!(plan(&compare("name", Op::Eq, text("alice"))), Some(keys(&[b"1", b"3"])));
    assert_eq!(plan(&compare("name", Op::Gt, text("a"))), None);
    assert_eq!(plan(&compare("other", Op::Eq, text("a"))), None);
    assert_eq!(
        plan(&Predicate::Between {
            field: "age".into(),
            from: FieldValue::I64(35),
            to: FieldValue::I64(50)
        }),
        Some(keys(&[b"2", b"3"]))
    );
    assert_eq!(
        plan(&Predicate::In { field: "name".into(), values: vec![text("bob"), text("x"), text("bob")] }),
        Some(keys(&[b"2"]))
    );
    assert_eq!(
        plan(&Predicate::And(vec![
            compare("other", Op::Eq, text("a")),
            compare("name", Op::Eq, text("bob")),
            compare("age", Op::Eq, FieldValue::I64(50)),
        ])),
        Some(keys(&[b"2"])),
        "the first part that an index applies to decides"
    );
    assert_eq!(plan(&Predicate::Or(vec![])), None);
}

fn entries(rows: &[&str]) -> Vec<(Vec<u8>, Vec<u8>)> {
    rows.iter().map(|r| (vec![], json_value_data(r))).collect()
}

fn agg(ty: AggregationType, attr: Option<&str>) -> Aggregator {
    Aggregator { ty, attribute_path: attr.map(|a| a.to_string()) }
}

#[test]
fn aggregations_over_entries() {
    let es = entries(&[r#"{"a":3}"#, r#"{"a":1.5}"#, r#"{"b":0}"#, r#"{"a":"x"}"#]);
    let run = |ty, attr| execute_aggregation(&agg(ty, attr), &es, &JsonExtractor);
    assert_eq!(run(AggregationType::Count, None), Aggregate::Value(FieldValue::I64(4)));
    assert_eq!(run(AggregationType::Count, Some("a")), Aggregate::Value(FieldValue::I64(3)));
    assert_eq!(
        run(AggregationType::Sum, Some("a")),
        Aggregate::Sum(vec![Num::Int(3), Num::Double(1.5f64.to_bits())])
    );
    assert_eq!(
        run(AggregationType::Avg, Some("a")),
        Aggregate::Avg(vec![Num::Int(3), Num::Double(1.5f64.to_bits())])
    );
    assert_eq!(run(AggregationType::Min, Some("a")), Aggregate::Value(f64v(1.5)));
    assert_eq!(run(AggregationType::Max, Some("a")), Aggregate::Value(FieldValue::I64(3)));
    assert_eq!(run(AggregationType::Max, Some("c")), Aggregate::Value(FieldValue::Null));
    assert_eq!(run(AggregationType::Sum, Some("c")), Aggregate::Value(FieldValue::Null));
    assert_eq!(run(AggregationType::Avg, None), Aggregate::Value(FieldValue::Null));
    assert_eq!(
        execute_projection("b", &es, &JsonExtractor),
        vec![FieldValue::Null, FieldValue::Null, FieldValue::I64(0), FieldValue::Null]
    );
}

fn aggregator_blob(class: i32, attr: Option<&str>) -> Vec<u8> {
    let mut d = vec![0u8; 8];
    d.push(1);
    d.extend_from_slice(&0i32.to_be_bytes());
    d.extend_from_slice(&class.to_be_bytes());
    match attr {
        Some(a) => {
            d.push(1);
            d.extend_from_slice(&(a.len() as i32).to_be_bytes());
            d.extend_from_slice(a.as_bytes());
        }
        None => d.push(0),
    }
    d
}

#[test]
fn aggregators_are_decoded() {
    assert_eq!(
        decode_aggregator(&aggregator_blob(4, None)),
        Some(agg(AggregationType::Count, None))
    );
    assert_eq!(
        decode_aggregator(&aggregator_blob(7, Some("pay"))),
        Some(agg(AggregationType::Sum, Some("pay")))
    );
    assert_eq!(
        decode_aggregator(&aggregator_blob(12, Some("pay"))),
        Some(agg(AggregationType::Avg, Some("pay")))
    );
    assert_eq!(
        decode_aggregator(&aggregator_blob(14, Some("pay"))),
        Some(agg(AggregationType::Max, Some("pay")))
    );
    assert_eq!(
        decode_aggregator(&aggregator_blob(15, Some("pay"))),
        Some(agg(AggregationType::Min, Some("pay")))
    );
    assert_eq!(decode_aggregator(&aggregator_blob(99, None)), None);
    assert_eq!(decode_aggregator(&[0; 16]), None);
    assert_eq!(decode_aggregator(&[0; 30]), None);
    let mut cut = aggregator_blob(7, Some("pay"));
    cut.pop();
    assert_eq!(decode_aggregator(&cut), Some(agg(AggregationType::Sum, None)));
    assert_eq!(
        extract_attribute_from_projection(&aggregator_blob(0, Some("pay"))),
        Some("pay".to_string())
    );
    assert_eq!(extract_attribute_from_projection(&aggregator_blob(0, None)), None);
    assert_eq!(extract_attribute_from_projection(&[]), None);
}
