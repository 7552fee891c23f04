use rivi::aggregator::Aggregator;
use rivi::columns::{columnarize, Batch};
use rivi::expression::{Expr, FuncType};
use rivi::query_engine::{create_colname_map, Query};
use rivi::value::{Kind, RecordType, Value};

fn rec(fields: Vec<(&str, Value)>) -> RecordType {
    fields.into_iter().map(|(k, v)| (k.to_string(), v)).collect()
}

fn integer(i: i64) -> Value {
    Value::Integer(i)
}

fn show(v: &Value) -> String {
    format!("{:?}", v)
}

fn column_values(b: &Batch, j: usize) -> Vec<String> {
    (0..b.cols[j].len()).map(|i| show(&b.cols[j].get(i))).collect()
}

fn sample() -> Vec<RecordType> {
    vec![
        rec(vec![("c", integer(1)), ("a", Value::Str("x".to_string()))]),
        rec(vec![("b", Value::Bool(true))]),
        rec(vec![("a", Value::Str("y".to_string())), ("c", integer(3))]),
    ]
}

#[test]
fn all_columns_have_the_record_count() {
    let b = columnarize(sample());
    assert_eq!(b.rows, 3);
    for c in &b.cols {
        assert_eq!(c.len(), 3);
    }
    assert_eq!(column_values(&b, 1), vec!["Null", "Bool(true)", "Null"]);
}

#[test]
fn column_names_are_sorted_and_unique() {
    let b = columnarize(sample());
    let names: Vec<String> = b.cols.iter().map(|c| c.get_name().clone()).collect();
    assert_eq!(names, vec!["a", "b", "c"]);
}

#[test]
fn uniform_field_keeps_its_kind() {
    let b = columnarize(vec![
        rec(vec![("i", integer(1)), ("s", Value::Str("p".to_string())), ("t", Value::Timestamp(5))]),
        rec(vec![("i", integer(2)), ("s", Value::Str("q".to_string())), ("t", Value::Timestamp(6))]),
    ]);
    let kinds: Vec<Kind> = b.cols.iter().map(|c| c.column_kind()).collect();
    assert_eq!(kinds, vec![Kind::Integer, Kind::Str, Kind::Timestamp]);
    let sets = columnarize(vec![rec(vec![("k", Value::StrSet(vec!["a".to_string()]))])]);
    assert_eq!(sets.cols[0].column_kind(), Kind::StrSet);
}

#[test]
fn two_non_null_kinds_promote_to_mixed() {
    let b = columnarize(vec![rec(vec![("f", integer(1))]), rec(vec![("f", Value::Bool(false))])]);
    assert_eq!(b.cols[0].column_kind(), Kind::Mixed);
    assert_eq!(column_values(&b, 0), vec!["Integer(1)", "Bool(false)"]);
}

#[test]
fn compiling_twice_gives_the_same_expression() {
    let names = vec!["a".to_string(), "b".to_string()];
    let e = Expr::func(FuncType::And, Expr::col("b"), Expr::func(FuncType::LT, Expr::col("a"), Expr::Const(integer(4))));
    let first = format!("{:?}", e.compile(&names));
    let second = format!("{:?}", e.compile(&names));
    assert_eq!(first, second);
    assert!(first.contains("ColIndex(1)"));
    assert!(first.contains("ColIndex(0)"));
}

#[test]
fn select_every_column_round_trips_the_records() {
    let records = sample();
    let batches = vec![columnarize(records)];
    let names = create_colname_map(&batches);
    let q = Query {
        select: names.iter().map(|n| Expr::col(n)).collect(),
        filter: Expr::Const(Value::Bool(true)),
        aggregate: vec![],
    };
    let (_, rows) = q.run(&batches).unwrap();
    let got: Vec<Vec<String>> = rows.iter().map(|r| r.iter().map(show).collect()).collect();
    assert_eq!(
        got,
        vec![
            vec!["Str(\"x\")", "Null", "Integer(1)"],
            vec!["Null", "Bool(true)", "Null"],
            vec!["Str(\"y\")", "Null", "Integer(3)"],
        ]
    );
}

#[test]
fn grouping_twice_gives_the_same_rows() {
    let batches = vec![columnarize(vec![
        rec(vec![("g", integer(1)), ("v", integer(5))]),
        rec(vec![("g", integer(2)), ("v", integer(6))]),
        rec(vec![("g", integer(1)), ("v", integer(7))]),
    ])];
    let q = Query {
        select: vec![Expr::col("g")],
        filter: Expr::Const(Value::Bool(true)),
        aggregate: vec![(Aggregator::Sum, Expr::col("v")), (Aggregator::Count, Expr::col("v"))],
    };
    let mut first: Vec<String> = q.run(&batches).unwrap().1.iter().map(|r| format!("{:?}", r)).collect();
    let mut second: Vec<String> = q.run(&batches).unwrap().1.iter().map(|r| format!("{:?}", r)).collect();
    first.sort();
    second.sort();
    assert_eq!(first, second);
    assert_eq!(first.len(), 2);
}

#[test]
fn count_and_sum_follow_the_filter() {
    let batches = vec![columnarize(vec![
        rec(vec![("v", integer(5))]),
        rec(vec![("v", integer(-2))]),
        rec(vec![("v", integer(10))]),
        rec(vec![]),
    ])];
    let q = Query {
        select: vec![],
        filter: Expr::func(FuncType::GT, Expr::col("v"), Expr::Const(integer(0))),
        aggregate: vec![(Aggregator::Count, Expr::Const(integer(1))), (Aggregator::Sum, Expr::col("v"))],
    };
    // the record without `v` reads Null, and `>` on Null is a type error
    assert!(q.run(&batches).is_err());
    let batches = vec![columnarize(vec![rec(vec![("v", integer(5))]), rec(vec![("v", integer(-2))]), rec(vec![("v", integer(10))])])];
    let (cols, rows) = q.run(&batches).unwrap();
    assert_eq!(cols, vec!["count_0".to_string(), "sum_1".to_string()]);
    assert_eq!(rows.len(), 1);
    assert_eq!(format!("{:?}", rows[0]), "[Integer(2), Integer(15)]");
}
