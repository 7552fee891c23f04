use rivi::aggregator::Aggregator;
use rivi::columns::{columnarize, Batch};
use rivi::expression::Expr;
use rivi::expression::EvalError;
use rivi::expression::FuncType;
use rivi::parser::parse_query;
use rivi::query_engine::{Query, QueryError};
use rivi::value::{Kind, RecordType, Value};

fn rec(fields: Vec<(&str, Value)>) -> RecordType {
    fields.into_iter().map(|(k, v)| (k.to_string(), v)).collect()
}

fn integer(i: i64) -> Value {
    Value::Integer(i)
}

fn text(s: &str) -> Value {
    Value::Str(s.to_string())
}

fn show(v: &Value) -> String {
    format!("{:?}", v)
}

fn show_rows(rows: &Vec<Vec<Value>>) -> Vec<String> {
    rows.iter()
        .map(|r| r.iter().map(show).collect::<Vec<_>>().join("|"))
        .collect()
}

fn run(query: &str, batches: &Vec<Batch>) -> Result<(Vec<String>, Vec<Vec<Value>>), QueryError> {
    let q: Query = parse_query(query).expect("query should parse");
    q.run(batches)
}

#[test]
fn select_two_columns_in_record_order() {
    let batches = vec![columnarize(vec![
        rec(vec![("a", integer(1)), ("b", integer(2))]),
        rec(vec![("a", integer(3)), ("b", integer(4))]),
    ])];
    let (cols, rows) = run("select a, b;", &batches).unwrap();
    assert_eq!(cols, vec!["a".to_string(), "b".to_string()]);
    assert_eq!(show_rows(&rows), vec!["Integer(1)|Integer(2)", "Integer(3)|Integer(4)"]);
}

#[test]
fn conflicting_kinds_make_a_mixed_column() {
    let b = columnarize(vec![
        rec(vec![("x", integer(1))]),
        rec(vec![("x", text("hi"))]),
        rec(vec![("x", Value::Null)]),
    ]);
    assert_eq!(b.cols.len(), 1);
    assert_eq!(b.cols[0].column_kind(), Kind::Mixed);
    let vals: Vec<String> = (0..3).map(|i| show(&b.cols[0].get(i))).collect();
    assert_eq!(vals, vec!["Integer(1)", "Str(\"hi\")", "Null"]);
}

#[test]
fn grouped_sum_with_filter() {
    let batches = vec![columnarize(vec![
        rec(vec![("u", text("/")), ("t", integer(100))]),
        rec(vec![("u", text("/a")), ("t", integer(200))]),
        rec(vec![("u", text("/")), ("t", integer(300))]),
    ])];
    let (cols, rows) = run("select u, sum(t) where >(t, 150);", &batches).unwrap();
    assert_eq!(cols, vec!["u".to_string(), "sum_0".to_string()]);
    let mut got = show_rows(&rows);
    got.sort();
    assert_eq!(got, vec!["Str(\"/\")|Integer(300)", "Str(\"/a\")|Integer(200)"]);
}

#[test]
fn filter_keeps_order() {
    let batches = vec![columnarize(vec![
        rec(vec![("a", integer(1))]),
        rec(vec![("a", integer(2))]),
        rec(vec![("a", integer(3))]),
    ])];
    let (_, rows) = run("select a where <(a,3);", &batches).unwrap();
    assert_eq!(show_rows(&rows), vec!["Integer(1)", "Integer(2)"]);
}

#[test]
fn comparing_integer_with_text_is_an_evaluation_error() {
    let batches = vec![columnarize(vec![rec(vec![("a", integer(1))]), rec(vec![("a", integer(2))])])];
    match run("select a where =(a, \"x\");", &batches) {
        Err(QueryError::Eval(EvalError::TypeMismatch(FuncType::Equals))) => {}
        other => panic!("unexpected {:?}", other),
    }
    // the dataset is untouched and the next query works
    let (_, rows) = run("select a;", &batches).unwrap();
    assert_eq!(rows.len(), 2);
}

#[test]
fn count_per_group() {
    let batches = vec![columnarize(vec![
        rec(vec![("a", integer(1)), ("b", integer(1))]),
        rec(vec![("a", integer(1)), ("b", integer(2))]),
        rec(vec![("a", integer(2)), ("b", integer(3))]),
    ])];
    let (cols, rows) = run("select a, count(1);", &batches).unwrap();
    assert_eq!(cols, vec!["a".to_string(), "count_0".to_string()]);
    let mut got = show_rows(&rows);
    got.sort();
    assert_eq!(got, vec!["Integer(1)|Integer(2)", "Integer(2)|Integer(1)"]);
}

fn page_views() -> Vec<Batch> {
    vec![columnarize(vec![
        rec(vec![("url", text("/")), ("loadtime", integer(500)), ("timestamp", Value::Timestamp(2000))]),
        rec(vec![("url", text("/a")), ("loadtime", integer(1500)), ("timestamp", Value::Timestamp(3000))]),
        rec(vec![("url", text("/")), ("loadtime", integer(700)), ("timestamp", Value::Timestamp(500))]),
    ])]
}

#[test]
fn demo_queries_over_page_views() {
    let source = page_views();
    let fast_and_recent = Query {
        select: vec![Expr::col("url")],
        filter: Expr::func(
            FuncType::And,
            Expr::func(FuncType::LT, Expr::col("loadtime"), Expr::Const(integer(1000))),
            Expr::func(FuncType::GT, Expr::col("timestamp"), Expr::Const(Value::Timestamp(1000))),
        ),
        aggregate: vec![],
    };
    let (_, rows) = fast_and_recent.run(&source).unwrap();
    assert_eq!(show_rows(&rows), vec!["Str(\"/\")"]);

    let root_pages = Query {
        select: vec![Expr::col("timestamp"), Expr::col("loadtime")],
        filter: Expr::func(FuncType::Equals, Expr::col("url"), Expr::Const(text("/"))),
        aggregate: vec![],
    };
    let (cols, rows) = root_pages.run(&source).unwrap();
    assert_eq!(cols, vec!["timestamp".to_string(), "loadtime".to_string()]);
    assert_eq!(show_rows(&rows), vec!["Timestamp(2000)|Integer(500)", "Timestamp(500)|Integer(700)"]);

    let count_per_url = Query {
        select: vec![Expr::col("url")],
        filter: Expr::Const(Value::Bool(true)),
        aggregate: vec![(Aggregator::Count, Expr::Const(integer(0)))],
    };
    let mut got = show_rows(&count_per_url.run(&source).unwrap().1);
    got.sort();
    assert_eq!(got, vec!["Str(\"/\")|Integer(2)", "Str(\"/a\")|Integer(1)"]);

    let sum_per_url = Query {
        select: vec![Expr::col("url")],
        filter: Expr::Const(Value::Bool(true)),
        aggregate: vec![(Aggregator::Sum, Expr::col("loadtime"))],
    };
    let mut got = show_rows(&sum_per_url.run(&source).unwrap().1);
    got.sort();
    assert_eq!(got, vec!["Str(\"/\")|Integer(1200)", "Str(\"/a\")|Integer(1500)"]);
}
