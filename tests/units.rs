use rivi::aggregator::Aggregator;
use rivi::columns::{chunk_batches, columnarize, VecType};
use rivi::csv::{cell_value, csv_record, split_line, CsvError};
use rivi::expression::{apply, EvalError, Expr, FuncType};
use rivi::parser::{construct_query, parse_query, partition, AggregateOrSelect};
use rivi::query_engine::{create_colname_map, decimal, Query, QueryError};
use rivi::value::{field_value, text_less, Kind, RecordType, Value};

fn rec(fields: Vec<(&str, Value)>) -> RecordType {
    fields.into_iter().map(|(k, v)| (k.to_string(), v)).collect()
}

fn integer(i: i64) -> Value {
    Value::Integer(i)
}

fn show(v: &Value) -> String {
    format!("{:?}", v)
}

#[test]
fn empty_input_gives_an_empty_batch() {
    let b = columnarize(vec![]);
    assert_eq!(b.rows, 0);
    assert!(b.cols.is_empty());
}

#[test]
fn builder_push_and_promotion() {
    let mut v = VecType::new_with_value(&integer(0));
    assert!(v.push(integer(4)).is_none());
    let back = v.push(Value::Bool(true));
    assert_eq!(show(&back.unwrap()), "Bool(true)");
    assert_eq!(v.len(), 1);
    let mut m = v.to_mixed();
    assert!(m.push(Value::Bool(true)).is_none());
    assert_eq!(show(&m.get(0)), "Integer(4)");
    assert_eq!(show(&m.get(1)), "Bool(true)");
    let c = m.to_column("z".to_string());
    assert_eq!(c.column_kind(), Kind::Mixed);
    assert_eq!(c.get_name(), "z");
}

#[test]
fn null_builder_counts_nulls() {
    let mut v = VecType::new_with_value(&Value::Null);
    assert!(v.push(Value::Null).is_none());
    assert!(v.push(Value::Null).is_none());
    assert!(v.push(integer(1)).is_some());
    assert_eq!(v.len(), 2);
}

#[test]
fn column_iterator_yields_each_value_once() {
    let b = columnarize(vec![rec(vec![("a", integer(7))]), rec(vec![("a", integer(8))])]);
    let mut it = b.cols[0].iter();
    assert_eq!(show(&it.next().unwrap()), "Integer(7)");
    assert_eq!(show(&it.next().unwrap()), "Integer(8)");
    assert!(it.next().is_none());
    assert!(it.next().is_none());
}

#[test]
fn first_occurrence_of_a_field_wins() {
    let r = rec(vec![("a", integer(1)), ("a", integer(2))]);
    assert_eq!(show(&field_value(&r, &"a".to_string())), "Integer(1)");
    assert_eq!(show(&field_value(&r, &"b".to_string())), "Null");
}

#[test]
fn text_order_is_lexicographic() {
    assert!(text_less("a", "b"));
    assert!(text_less("ab", "abc"));
    assert!(!text_less("abc", "ab"));
    assert!(!text_less("x", "x"));
    assert!(text_less("", "a"));
    assert!(text_less("B", "a"));
}

#[test]
fn value_equality_and_copy() {
    let s = Value::StrSet(vec!["a".to_string(), "b".to_string()]);
    let t = s.duplicate();
    assert!(s.equals(&t));
    assert!(!s.equals(&Value::StrSet(vec!["a".to_string()])));
    assert!(!integer(1).equals(&Value::Timestamp(1)));
    assert_eq!(Value::Null.kind(), Kind::Null);
}

#[test]
fn function_results() {
    assert_eq!(show(&apply(FuncType::Equals, &integer(2), &integer(2)).unwrap()), "Bool(true)");
    assert_eq!(show(&apply(FuncType::Equals, &integer(2), &Value::Null).unwrap()), "Bool(false)");
    assert_eq!(show(&apply(FuncType::LT, &Value::Timestamp(1), &Value::Timestamp(2)).unwrap()), "Bool(true)");
    assert_eq!(show(&apply(FuncType::GT, &integer(1), &integer(2)).unwrap()), "Bool(false)");
    assert_eq!(show(&apply(FuncType::And, &Value::Bool(true), &Value::Bool(false)).unwrap()), "Bool(false)");
    assert_eq!(show(&apply(FuncType::Or, &Value::Bool(true), &Value::Bool(false)).unwrap()), "Bool(true)");
    assert_eq!(apply(FuncType::LT, &integer(1), &Value::Timestamp(2)).unwrap_err(), EvalError::TypeMismatch(FuncType::LT));
    assert_eq!(apply(FuncType::And, &integer(1), &Value::Bool(true)).unwrap_err(), EvalError::TypeMismatch(FuncType::And));
}

#[test]
fn aggregator_steps() {
    let zero = Aggregator::Count.zero();
    assert_eq!(show(&zero), "Integer(0)");
    let one = Aggregator::Count.reduce(&zero, &Value::Str("any".to_string())).unwrap();
    assert_eq!(show(&one), "Integer(1)");
    let s = Aggregator::Sum.reduce(&integer(5), &integer(7)).unwrap();
    assert_eq!(show(&s), "Integer(12)");
    let n = Aggregator::Sum.reduce(&integer(5), &Value::Null).unwrap();
    assert_eq!(show(&n), "Integer(5)");
    assert_eq!(Aggregator::Sum.reduce(&integer(5), &Value::Bool(true)).unwrap_err(), EvalError::NotAnInteger);
    assert_eq!(Aggregator::Sum.reduce(&integer(i64::MAX), &integer(1)).unwrap_err(), EvalError::Overflow);
    assert_eq!(Aggregator::Count.reduce(&integer(i64::MAX), &integer(1)).unwrap_err(), EvalError::Overflow);
}

#[test]
fn unknown_column_is_reported() {
    let batches = vec![columnarize(vec![rec(vec![("a", integer(1))])])];
    let q = parse_query("select a where >(zzz, 1)").unwrap();
    match q.run(&batches) {
        Err(QueryError::UnknownColumn(n)) => assert_eq!(n, "zzz"),
        other => panic!("unexpected {:?}", other),
    }
}

#[test]
fn sum_of_text_is_an_error() {
    let batches = vec![columnarize(vec![rec(vec![("a", Value::Str("q".to_string()))])])];
    let q = parse_query("select sum(a)").unwrap();
    match q.run(&batches) {
        Err(QueryError::Eval(EvalError::NotAnInteger)) => {}
        other => panic!("unexpected {:?}", other),
    }
}

#[test]
fn batches_with_different_columns() {
    let batches = vec![
        columnarize(vec![rec(vec![("a", integer(1))])]),
        columnarize(vec![rec(vec![("b", integer(2))])]),
    ];
    let names = create_colname_map(&batches);
    assert_eq!(names, vec!["a".to_string(), "b".to_string()]);
    let (_, rows) = parse_query("select a, b").unwrap().run(&batches).unwrap();
    let got: Vec<String> = rows.iter().map(|r| format!("{:?}", r)).collect();
    assert_eq!(got, vec!["[Integer(1), Null]", "[Null, Integer(2)]"]);
}

#[test]
fn grouping_across_batches() {
    let batches = vec![
        columnarize(vec![rec(vec![("k", integer(1))]), rec(vec![("k", integer(2))])]),
        columnarize(vec![rec(vec![("k", integer(1))])]),
    ];
    let (_, rows) = parse_query("SELECT k, COUNT(k)").unwrap().run(&batches).unwrap();
    let mut got: Vec<String> = rows.iter().map(|r| format!("{:?}", r)).collect();
    got.sort();
    assert_eq!(got, vec!["[Integer(1), Integer(2)]", "[Integer(2), Integer(1)]"]);
}

#[test]
fn result_names_number_anonymous_columns() {
    let q = Query {
        select: vec![Expr::Const(integer(1)), Expr::col("a"), Expr::Const(integer(2))],
        filter: Expr::Const(Value::Bool(true)),
        aggregate: vec![(Aggregator::Count, Expr::Const(integer(1))), (Aggregator::Sum, Expr::col("a"))],
    };
    assert_eq!(q.result_column_names(), vec!["col_0", "a", "col_1", "count_0", "sum_1"]);
}

#[test]
fn decimal_notation() {
    assert_eq!(decimal(0), "0");
    assert_eq!(decimal(7), "7");
    assert_eq!(decimal(1234), "1234");
    assert_eq!(decimal(usize::MAX), usize::MAX.to_string());
}

#[test]
fn parser_accepts_the_grammar() {
    let q = parse_query("  select url, count(1), sum(events) where and( >(timestamp, 1000), =(version, \"1.5.3\") ) ;").unwrap();
    assert_eq!(q.select.len(), 1);
    assert_eq!(q.aggregate.len(), 2);
    assert_eq!(q.aggregate[0].0, Aggregator::Count);
    assert_eq!(q.aggregate[1].0, Aggregator::Sum);
    let f = format!("{:?}", q.filter);
    assert!(f.contains("And"));
    assert!(f.contains("\"1.5.3\""));
    let q = parse_query("select counter").unwrap();
    assert_eq!(format!("{:?}", q.select[0]), "ColName(\"counter\")");
    assert!(parse_query("select a;").is_some());
    assert!(parse_query("select \"\"").is_some());
}

#[test]
fn parser_rejects_malformed_queries() {
    assert!(parse_query("selec a").is_none());
    assert!(parse_query("selecta").is_none());
    assert!(parse_query("select a where").is_none());
    assert!(parse_query("select a b").is_none());
    assert!(parse_query("select 99999999999999999999").is_none());
    assert!(parse_query("select =(a, 1").is_none());
}

#[test]
fn partition_keeps_clause_order() {
    let items = vec![
        AggregateOrSelect::Select(Expr::col("a")),
        AggregateOrSelect::Aggregate((Aggregator::Sum, Expr::col("b"))),
        AggregateOrSelect::Select(Expr::col("c")),
        AggregateOrSelect::Aggregate((Aggregator::Count, Expr::col("d"))),
    ];
    let (s, a) = partition(items);
    assert_eq!(format!("{:?}", s), "[ColName(\"a\"), ColName(\"c\")]");
    assert_eq!(a.len(), 2);
    assert_eq!(a[0].0, Aggregator::Sum);
    assert_eq!(a[1].0, Aggregator::Count);
    let q = construct_query(vec![AggregateOrSelect::Select(Expr::col("x"))], Expr::Const(Value::Bool(false)));
    assert_eq!(q.select.len(), 1);
    assert!(q.aggregate.is_empty());
}

#[test]
fn false_filter_yields_no_rows() {
    let batches = vec![columnarize(vec![rec(vec![("a", integer(1))])])];
    let q = Query {
        select: vec![Expr::col("a")],
        filter: Expr::Const(Value::Bool(false)),
        aggregate: vec![(Aggregator::Count, Expr::col("a"))],
    };
    let (_, rows) = q.run(&batches).unwrap();
    assert!(rows.is_empty());
}

#[test]
fn records_are_cut_into_batches() {
    let records: Vec<RecordType> = (0..7).map(|i| rec(vec![("n", integer(i))])).collect();
    let batches = chunk_batches(records, 3);
    let rows: Vec<usize> = batches.iter().map(|b| b.rows).collect();
    assert_eq!(rows, vec![3, 3, 1]);
    assert_eq!(show(&batches[1].cols[0].get(0)), "Integer(3)");
    assert_eq!(show(&batches[2].cols[0].get(0)), "Integer(6)");
    assert!(chunk_batches(vec![], 5).is_empty());
}

#[test]
fn csv_rows_become_records() {
    let header = split_line("a,b,c");
    assert_eq!(header, vec!["a", "b", "c"]);
    let r = csv_record(&header, "12,-7,x y").unwrap();
    assert_eq!(r[0].0, "a");
    assert_eq!(show(&r[0].1), "Integer(12)");
    assert_eq!(show(&r[1].1), "Integer(-7)");
    assert_eq!(show(&r[2].1), "Str(\"x y\")");
    let r = csv_record(&header, ",-,99999999999999999999").unwrap();
    assert_eq!(show(&r[0].1), "Str(\"\")");
    assert_eq!(show(&r[1].1), "Str(\"-\")");
    assert_eq!(show(&r[2].1), "Str(\"99999999999999999999\")");
    assert_eq!(csv_record(&header, "1,2").unwrap_err(), CsvError::CellCount { expected: 3, found: 2 });
    assert_eq!(csv_record(&header, "1,2,3,4").unwrap_err(), CsvError::CellCount { expected: 3, found: 4 });
    assert_eq!(show(&cell_value(&"9223372036854775807".to_string())), "Integer(9223372036854775807)");
}

#[test]
fn parser_reads_names_that_look_like_keywords() {
    let q = parse_query("select and , counter,sum (v) where =(and,1) ;").unwrap();
    assert_eq!(format!("{:?}", q.select), "[ColName(\"and\"), ColName(\"counter\")]");
    assert_eq!(q.aggregate.len(), 1);
    assert_eq!(q.aggregate[0].0, Aggregator::Sum);
    assert!(parse_query("SELECT Count ( x ) WHERE AND(>(a,1), <(b, 2))").is_some());
    assert!(parse_query("select a\nwhere\t=(a, \"q\")").is_some());
}
