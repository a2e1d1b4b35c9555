//! Parsing and executing SQL.

use bonsaigrid::query::exec::{
    execute, execute_with, finish, order_of_select, project_row, Cell, Names,
};
use bonsaigrid::query::json::{int_data, json_value_data, FieldExtractor, JsonExtractor};
use bonsaigrid::query::predicate::{Op, Predicate};
use bonsaigrid::query::rows::{ResultRow, RowOrder};
use bonsaigrid::query::sql::{
    parse, parse_select, ColExpr, ColType, MappingKind, Select, Statement, Window,
};
use bonsaigrid::query::value::{Double, FieldValue, Num};
use bonsaigrid::table::Table;

#[test]
fn parse_select_with_where() {
    let s =
        parse_select("SELECT name, age FROM people WHERE age > 30 AND name = 'alice'").unwrap();
    assert_eq!(s.map, "people");
    assert_eq!(s.cols, vec![ColExpr::Col("name".into()), ColExpr::Col("age".into())]);
    assert_eq!(s.star, false);
    match s.filter.unwrap() {
        Predicate::And(v) => assert_eq!(v.len(), 2),
        _ => panic!("expected AND"),
    }
}

#[test]
fn parse_star_no_where() {
    let s = parse_select("select * from m").unwrap();
    assert_eq!(s.star, true);
    assert!(s.cols.is_empty());
    assert!(s.filter.is_none());
}

#[test]
fn parse_aggregations_and_modifiers() {
    let s = parse_select("SELECT DISTINCT count(*), sum(age), avg(salary) FROM people GROUP BY dept ORDER BY age DESC LIMIT 10").unwrap();
    assert_eq!(s.is_distinct, true);
    assert_eq!(
        s.cols,
        vec![
            ColExpr::Count("*".into()),
            ColExpr::Sum("age".into()),
            ColExpr::Avg("salary".into()),
        ]
    );
    assert_eq!(s.group_by, Some(vec!["dept".into()]));
    assert_eq!(s.order_by, Some(("age".into(), true)));
    assert_eq!(s.limit, Some(10));
}

#[test]
fn parse_create_mapping_stmt() {
    let st = parse(
        "CREATE MAPPING recommender (user_id VARCHAR, starter VARCHAR) TYPE IMap \
         OPTIONS ('keyFormat'='varchar', 'valueFormat'='json-flat')",
    )
    .unwrap();
    match st {
        Statement::CreateMapping(m) => {
            assert_eq!(m.name, "recommender");
            assert_eq!(m.kind, MappingKind::Imap);
            assert_eq!(
                m.columns,
                vec![("user_id".into(), ColType::Varchar), ("starter".into(), ColType::Varchar)]
            );
            assert_eq!(m.value_format(), "json-flat");
        }
        _ => panic!("expected CreateMapping"),
    }
}

#[test]
fn parse_insert_and_job() {
    match parse("INSERT INTO recommender VALUES ('user_1','Soup'), ('user_2','Salad')").unwrap() {
        Statement::Insert(i) => {
            assert_eq!(i.mapping, "recommender");
            assert_eq!(i.rows.len(), 2);
            assert_eq!(i.rows[0][0], FieldValue::Str("user_1".into()));
        }
        _ => panic!("expected Insert"),
    }
    match parse(
        "CREATE JOB enrich AS SINK INTO out SELECT * FROM pizzastream JOIN recommender \
         ON pizzastream.user_id = recommender.user_id WHERE starter = 'Soup'",
    )
    .unwrap()
    {
        Statement::CreateJob(j) => {
            assert_eq!(j.name, "enrich");
            assert_eq!(j.sink, "out");
            assert_eq!(j.select.map, "pizzastream");
            let join = j.select.join.unwrap();
            assert_eq!(join.right, "recommender");
            assert_eq!(join.left_col, "user_id");
            assert_eq!(join.right_col, "user_id");
        }
        _ => panic!("expected CreateJob"),
    }
}

#[test]
fn join_core_filters_and_projects() {
    let sel = match parse(
        "CREATE JOB j AS SINK INTO out SELECT order_id, user_id, starter FROM orders \
         JOIN recommender ON orders.user_id = recommender.user_id WHERE starter = 'Soup'",
    )
    .unwrap()
    {
        Statement::CreateJob(j) => j.select,
        _ => panic!(),
    };
    let combined = vec![
        ("order_id".to_string(), FieldValue::I64(7)),
        ("user_id".to_string(), FieldValue::Str("user_1".into())),
        ("starter".to_string(), FieldValue::Str("Soup".into())),
    ];
    let row = project_row(&sel, &combined, &[]).unwrap();
    assert_eq!(
        row,
        vec![
            ("order_id".into(), FieldValue::I64(7)),
            ("user_id".into(), FieldValue::Str("user_1".into())),
            ("starter".into(), FieldValue::Str("Soup".into())),
        ]
    );
    let salad = vec![("starter".to_string(), FieldValue::Str("Salad".into()))];
    assert!(project_row(&sel, &salad, &[]).is_none());
}

#[test]
fn stars_project_all_fields_and_missing_columns_are_null() {
    let fields = vec![("a".to_string(), FieldValue::I64(1)), ("b".to_string(), FieldValue::Null)];
    let star = parse_select("SELECT * FROM m").unwrap();
    assert_eq!(project_row(&star, &fields, &[]).unwrap(), fields);
    let some = parse_select("SELECT m.a, c FROM m").unwrap();
    assert_eq!(
        project_row(&some, &fields, &[]).unwrap(),
        vec![("a".to_string(), FieldValue::I64(1)), ("c".to_string(), FieldValue::Null)]
    );
}

#[test]
fn keywords_take_any_case_and_whole_words() {
    let a = parse_select("sElEcT a FrOm m lImIt 3").unwrap();
    assert_eq!((a.map.as_str(), a.limit), ("m", Some(3)));
    assert!(parse_select("SELECTa FROM m").is_none());
    assert!(parse_select("SELECT a FROM m LIMIT").is_none());
    assert!(parse_select("SELECT a FROM m LIMIT 99999999999999999999999").is_none());
    assert!(parse_select("SELECT FROM").is_none());
    assert!(parse("DROP TABLE m").is_none());
    assert!(parse("CREATE VIEW m").is_none());
    assert!(parse_select("INSERT INTO m VALUES (1)").is_none());
    assert!(parse("").is_none());
}

#[test]
fn literals_and_signs() {
    let s = parse_select("select a from m where a >= -5 and b<='x y' and c<1 and d = 2").unwrap();
    let Some(Predicate::And(ps)) = s.filter else {
        panic!("expected AND");
    };
    assert_eq!(
        ps,
        vec![
            Predicate::Compare { field: "a".into(), op: Op::Ge, value: FieldValue::I64(-5) },
            Predicate::Compare {
                field: "b".into(),
                op: Op::Le,
                value: FieldValue::Str("x y".into())
            },
            Predicate::Compare { field: "c".into(), op: Op::Lt, value: FieldValue::I64(1) },
            Predicate::Compare { field: "d".into(), op: Op::Eq, value: FieldValue::I64(2) },
        ]
    );
    let one = parse_select("select a from m where a > 'open end").unwrap();
    assert_eq!(
        one.filter,
        Some(Predicate::Compare {
            field: "a".into(),
            op: Op::Gt,
            value: FieldValue::Str("open end".into())
        })
    );
    assert!(parse_select("select a from m where a > 1-2").is_none());
    assert!(parse_select("select a from m where a > ").is_none());
}

#[test]
fn joins_are_turned_to_the_left_table() {
    let s = parse_select("select * from a join b on b.x = a.y").unwrap();
    let j = s.join.unwrap();
    assert_eq!((j.right.as_str(), j.left_col.as_str(), j.right_col.as_str()), ("b", "y", "x"));
    let t = parse_select("select * from a join b on x = y").unwrap().join.unwrap();
    assert_eq!((t.left_col.as_str(), t.right_col.as_str()), ("x", "y"));
    assert!(parse_select("select * from a join b x = y").is_none());
}

#[test]
fn mappings_inserts_and_their_options() {
    let Some(Statement::CreateMapping(m)) =
        parse("create mapping t (a int, b Integer c bigint, d double, e boolean, f text) type KAFKA options ('k' 'v', 'k'='w')")
    else {
        panic!("expected a mapping");
    };
    assert_eq!(m.kind, MappingKind::Kafka);
    let types: Vec<ColType> = m.columns.iter().map(|c| c.1).collect();
    assert_eq!(
        types,
        vec![
            ColType::Int,
            ColType::Int,
            ColType::Bigint,
            ColType::Double,
            ColType::Boolean,
            ColType::Varchar
        ]
    );
    assert_eq!(m.option("k"), Some("w"));
    assert_eq!(m.option("none"), None);
    assert_eq!(m.value_format(), "compact");
    let Some(Statement::Insert(i)) = parse("insert into t (a, b) values (1, 'x'), (-2, 'y'),")
    else {
        panic!("expected an insert");
    };
    assert_eq!(
        i.rows,
        vec![
            vec![FieldValue::I64(1), FieldValue::Str("x".into())],
            vec![FieldValue::I64(-2), FieldValue::Str("y".into())],
        ]
    );
    assert!(parse("insert into t values (nothing)").is_none());
    assert!(parse("create mapping t (a) type imap").is_none());
    assert!(parse("create job j as sink out select a from m").is_none());
}

#[test]
fn tumbling_sources() {
    let s = parse_select("select a from TUMBLE(s, ts, 10) where a > 1").unwrap();
    assert_eq!(s.map, "s");
    assert_eq!(s.window, Some(Window { ts_col: "ts".into(), size: 10 }));
    let t = parse_select("select a from tumble").unwrap();
    assert_eq!((t.map.as_str(), t.window), ("tumble", None));
    assert!(parse_select("select a from TUMBLE(s, ts, 0)").is_none());
    assert!(parse_select("select a from TUMBLE(s, ts)").is_none());
}

/// The text of a cell.
fn render(c: &Cell) -> Option<String> {
    let add = |ns: &Vec<Num>| {
        let mut sum = 0.0;
        for n in ns {
            sum += match n {
                Num::Int(i) => *i as f64,
                Num::Double(bits) => f64::from_bits(*bits),
            };
        }
        sum
    };
    match c {
        Cell::Text(t) => t.clone(),
        Cell::Sum(ns) => Some(add(ns).to_string()),
        Cell::Mean(ns, n) => Some((add(ns) / *n as f64).to_string()),
        Cell::Number(n) => Some(add(&vec![*n]).to_string()),
    }
}

/// Renders, orders and limits an executed SELECT.
fn done(
    select: &Select,
    (columns, rows): (Vec<String>, Vec<Vec<Cell>>),
) -> (Vec<String>, Vec<Vec<Option<String>>>) {
    let at = match order_of_select(select, &columns) {
        RowOrder::Mixed(i, _) => Some(i),
        _ => None,
    };
    let rows = rows
        .iter()
        .map(|r| {
            let cells: Vec<Option<String>> = r.iter().map(render).collect();
            let number = at
                .and_then(|i| cells[i].as_ref())
                .and_then(|s| s.parse::<f64>().ok())
                .map(|d| d.to_bits());
            ResultRow { cells, number }
        })
        .collect();
    let out = finish(select, &columns, rows);
    (columns, out)
}

/// Reads the one record layout that the entries here have: a schema id, the length of the fixed
/// part, an integer, then text behind its length.
struct Layout {
    number: &'static str,
    text: &'static str,
    text_at: usize,
}

impl FieldExtractor for Layout {
    fn extract(&self, value: &[u8], field: &str) -> FieldValue {
        let p = &value[8..];
        if field == self.number {
            FieldValue::I32(i32::from_be_bytes([p[12], p[13], p[14], p[15]]))
        } else if field == self.text {
            let at = self.text_at;
            let n = u32::from_be_bytes([p[at], p[at + 1], p[at + 2], p[at + 3]]) as usize;
            FieldValue::Str(String::from_utf8_lossy(&p[at + 4..at + 4 + n]).into_owned())
        } else {
            FieldValue::Null
        }
    }
}

fn no_schemas() -> Table<i64, Names> {
    Table::new()
}

#[test]
fn execute_projects_and_filters() {
    let hex = "eac7fcf34f8f1c720000000d0000002300000005616c69636504";
    let payload: Vec<u8> = (0..hex.len())
        .step_by(2)
        .map(|i| u8::from_str_radix(&hex[i..i + 2], 16).unwrap())
        .collect();
    let mut v = vec![0u8; 8];
    v.extend_from_slice(&payload);
    let entries = vec![(b"a".to_vec(), v)];
    let person = Layout { number: "age", text: "name", text_at: 16 };

    let sel = parse_select("SELECT name, age FROM people WHERE age > 30").unwrap();
    let (cols, rows) = done(&sel, execute(&sel, &entries, &no_schemas(), &person, &[]));
    assert_eq!(cols, vec!["name", "age"]);
    assert_eq!(rows, vec![vec![Some("alice".into()), Some("35".into())]]);

    let sel2 = parse_select("SELECT name FROM people WHERE age > 40").unwrap();
    assert!(done(&sel2, execute(&sel2, &entries, &no_schemas(), &person, &[])).1.is_empty());

    // A star takes its columns from the schema of the first entry.
    let mut schemas = no_schemas();
    schemas.insert(
        i64::from_be_bytes([0xea, 0xc7, 0xfc, 0xf3, 0x4f, 0x8f, 0x1c, 0x72]),
        Names { names: vec!["age".into(), "name".into()] },
    );
    let star = parse_select("SELECT * FROM people").unwrap();
    let (cols, rows) = done(&star, execute(&star, &entries, &schemas, &person, &[]));
    assert_eq!(cols, vec!["age", "name"]);
    assert_eq!(rows, vec![vec![Some("35".into()), Some("alice".into())]]);
}

#[test]
fn execute_aggregations_group_order_limit() {
    let helper = |dept: &str, salary: i32| {
        let mut payload = Vec::new();
        payload.extend_from_slice(&7i64.to_be_bytes());
        payload.extend_from_slice(&4u32.to_be_bytes());
        payload.extend_from_slice(&salary.to_be_bytes());
        payload.push(5);
        payload.extend_from_slice(&(dept.len() as u32).to_be_bytes());
        payload.extend_from_slice(dept.as_bytes());
        let mut v = vec![0u8; 8];
        v.extend_from_slice(&payload);
        (vec![0], v)
    };
    let entries = vec![
        helper("sales", 100),
        helper("sales", 200),
        helper("eng", 300),
        helper("eng", 400),
    ];
    let employee = Layout { number: "salary", text: "dept", text_at: 17 };

    // Group by dept, avg salary
    let sel = parse_select(
        "SELECT dept, avg(salary), count(*) FROM employees GROUP BY dept ORDER BY dept",
    )
    .unwrap();
    let (cols, mut rows) = done(&sel, execute(&sel, &entries, &no_schemas(), &employee, &[]));
    assert_eq!(cols, vec!["dept", "avg(salary)", "count(*)"]);
    rows.sort();
    assert_eq!(rows.len(), 2);
    assert_eq!(rows[0], vec![Some("eng".into()), Some("350".into()), Some("2".into())]);
    assert_eq!(rows[1], vec![Some("sales".into()), Some("150".into()), Some("2".into())]);
}

fn people() -> Vec<(Vec<u8>, Vec<u8>)> {
    [
        r#"{"name":"bob","age":9,"pay":1.5}"#,
        r#"{"name":"alice","age":30,"pay":2}"#,
        r#"{"name":"bob","age":9,"pay":4}"#,
        r#"{"name":"carol","age":100}"#,
    ]
    .iter()
    .enumerate()
    .map(|(i, j)| (int_data(i as i32), json_value_data(j)))
    .collect()
}

fn run(sql: &str) -> (Vec<String>, Vec<Vec<Option<String>>>) {
    let sel = parse_select(sql).unwrap();
    let star = vec!["id".to_string(), "name".to_string()];
    let r = execute_with(&sel, &people(), &no_schemas(), &JsonExtractor, &star, Some("id"), &[]);
    done(&sel, r)
}

fn cells(rows: &[Vec<Option<String>>]) -> Vec<Vec<&str>> {
    rows.iter().map(|r| r.iter().map(|c| c.as_deref().unwrap_or("-")).collect()).collect()
}

#[test]
fn numbers_order_as_numbers_and_ties_keep_their_order() {
    let (_, rows) = run("SELECT age, id FROM p ORDER BY age");
    assert_eq!(
        cells(&rows),
        vec![vec!["9", "0"], vec!["9", "2"], vec!["30", "1"], vec!["100", "3"]]
    );
    let (_, rows) = run("SELECT age, id FROM p ORDER BY age DESC LIMIT 3");
    assert_eq!(cells(&rows), vec![vec!["100", "3"], vec!["30", "1"], vec!["9", "0"]]);
    let (_, rows) = run("SELECT name FROM p ORDER BY name ASC");
    assert_eq!(cells(&rows), vec![vec!["alice"], vec!["bob"], vec!["bob"], vec!["carol"]]);
    let (_, rows) = run("SELECT name FROM p ORDER BY other");
    assert_eq!(cells(&rows)[0], vec!["bob"]);
}

#[test]
fn distinct_drops_rows_that_came_before() {
    let (_, rows) = run("SELECT DISTINCT name, age FROM p");
    assert_eq!(cells(&rows), vec![vec!["bob", "9"], vec!["alice", "30"], vec!["carol", "100"]]);
    let (cols, rows) = run("SELECT * FROM p WHERE age > 30");
    assert_eq!(cols, vec!["id", "name"]);
    assert_eq!(cells(&rows), vec![vec!["3", "carol"]]);
}

#[test]
fn groups_aggregate_their_entries() {
    let (cols, rows) = run(
        "SELECT p.name, COUNT(*), SUM(pay), AVG(pay), MIN(pay), MAX(p.pay) FROM p GROUP BY name",
    );
    assert_eq!(cols, vec!["name", "count(*)", "sum(pay)", "avg(pay)", "min(pay)", "max(pay)"]);
    assert_eq!(
        cells(&rows),
        vec![
            vec!["bob", "2", "5.5", "2.75", "1.5", "4"],
            vec!["alice", "1", "2", "2", "2", "2"],
            vec!["carol", "1", "-", "-", "-", "-"],
        ]
    );
    // Without GROUP BY there is one group; another column is that of its first entry.
    let (_, rows) = run("SELECT count(age), name, max(id) FROM p");
    assert_eq!(cells(&rows), vec![vec!["4", "bob", "3"]]);
    let (_, rows) = run("SELECT * FROM p GROUP BY name");
    assert!(rows.is_empty());
    let (_, rows) = run("SELECT sum(age) FROM p WHERE age > 1000");
    assert!(rows.is_empty());
}

#[test]
fn a_fraction_is_kept_exactly() {
    let v = JsonExtractor.extract(&people()[0].1, "pay");
    assert_eq!(v, FieldValue::F64(Double { bits: 1.5f64.to_bits(), text: "1.5".into() }));
}
