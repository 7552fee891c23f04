use vstd::prelude::*;

use crate::aggregator::{reduce_spec, Aggregator};
use crate::columns::{column_of, insert_sorted, strictly_sorted, Batch};
use crate::expression::{
    compile_spec, compiled_within, eval_spec, find_column, lemma_compiled_within,
    lemma_position_bound, lemma_position_of, no_index, position_of, EvalError, Expr, ExprView,
};
use crate::value::{
    field_of, RecordType, 
    lemma_text_lt_asymmetric, lemma_text_lt_irreflexive, text_lt, copy_values, texts_view, values_equal, values_view, Value, ValueView};

verus! {

/// A query: `select` expressions, a `filter`, and aggregates. With no
/// aggregates it is a projection; otherwise `select` is the grouping key.
#[derive(Debug)]
pub struct Query {
    pub select: Vec<Expr>,
    pub filter: Expr,
    pub aggregate: Vec<(Aggregator, Expr)>,
}

/// The mathematical model of a `Query`.
pub ghost struct QueryView {
    pub select: Seq<ExprView>,
    pub filter: ExprView,
    pub aggregate: Seq<(Aggregator, ExprView)>,
}

pub open spec fn exprs_view(es: Seq<Expr>) -> Seq<ExprView> {
    es.map_values(|e: Expr| e@)
}

pub open spec fn aggs_view(aggs: Seq<(Aggregator, Expr)>) -> Seq<(Aggregator, ExprView)> {
    aggs.map_values(|p: (Aggregator, Expr)| (p.0, p.1@))
}

impl View for Query {
    type V = QueryView;

    open spec fn view(&self) -> QueryView {
        QueryView {
            select: exprs_view(self.select@),
            filter: self.filter@,
            aggregate: aggs_view(self.aggregate@),
        }
    }
}

/// Why a query failed.
#[derive(Debug)]
pub enum QueryError {
    /// A column name that no batch of the dataset has.
    UnknownColumn(String),
    /// Evaluation failed on some record.
    Eval(EvalError),
}

pub ghost enum QueryErrorView {
    UnknownColumn(Seq<char>),
    Eval(EvalError),
}

impl View for QueryError {
    type V = QueryErrorView;

    open spec fn view(&self) -> QueryErrorView {
        match self {
            QueryError::UnknownColumn(n) => QueryErrorView::UnknownColumn(n@),
            QueryError::Eval(x) => QueryErrorView::Eval(*x),
        }
    }
}

pub open spec fn rows_view(rows: Seq<Vec<Value>>) -> Seq<Seq<ValueView>> {
    rows.map_values(|row: Vec<Value>| values_view(row@))
}

/// Each expression compiled in turn; the first error is the result.
pub open spec fn compile_list(es: Seq<ExprView>, names: Seq<Seq<char>>) -> Result<Seq<ExprView>, Seq<char>>
    decreases es.len(),
{
    if es.len() == 0 {
        Ok(Seq::empty())
    } else {
        match compile_list(es.drop_last(), names) {
            Err(n) => Err(n),
            Ok(p) => match compile_spec(es.last(), names) {
                Err(n) => Err(n),
                Ok(c) => Ok(p.push(c)),
            },
        }
    }
}

/// Each aggregate's expression compiled in turn, kinds kept.
pub open spec fn compile_aggs(aggs: Seq<(Aggregator, ExprView)>, names: Seq<Seq<char>>) -> Result<
    Seq<(Aggregator, ExprView)>,
    Seq<char>,
>
    decreases aggs.len(),
{
    if aggs.len() == 0 {
        Ok(Seq::empty())
    } else {
        match compile_aggs(aggs.drop_last(), names) {
            Err(n) => Err(n),
            Ok(p) => match compile_spec(aggs.last().1, names) {
                Err(n) => Err(n),
                Ok(c) => Ok(p.push((aggs.last().0, c))),
            },
        }
    }
}

/// A query compiled against `names`: select list, then filter, then
/// aggregates; the first unknown name is the error.
pub open spec fn compile_query_spec(q: QueryView, names: Seq<Seq<char>>) -> Result<QueryView, Seq<char>> {
    match compile_list(q.select, names) {
        Err(n) => Err(n),
        Ok(s) => match compile_spec(q.filter, names) {
            Err(n) => Err(n),
            Ok(f) => match compile_aggs(q.aggregate, names) {
                Err(n) => Err(n),
                Ok(a) => Ok(QueryView { select: s, filter: f, aggregate: a }),
            },
        },
    }
}

/// Whether a query refers to columns by name only.
pub open spec fn query_by_name(q: QueryView) -> bool {
    &&& forall|i: int| 0 <= i < q.select.len() ==> no_index(#[trigger] q.select[i])
    &&& no_index(q.filter)
    &&& forall|i: int| 0 <= i < q.aggregate.len() ==> no_index(#[trigger] q.aggregate[i].1)
}

/// Whether a compiled query refers only to positions below `n`.
pub open spec fn query_within(q: QueryView, n: nat) -> bool {
    &&& forall|i: int| 0 <= i < q.select.len() ==> compiled_within(#[trigger] q.select[i], n)
    &&& compiled_within(q.filter, n)
    &&& forall|i: int| 0 <= i < q.aggregate.len() ==> compiled_within(#[trigger] q.aggregate[i].1, n)
    &&& q.select.len() <= usize::MAX
    &&& q.aggregate.len() <= usize::MAX
}

/// The values of a list of expressions on one record, left to right; the
/// first error is the result.
pub open spec fn eval_list(es: Seq<ExprView>, rec: Seq<ValueView>) -> Result<Seq<ValueView>, EvalError>
    decreases es.len(),
{
    if es.len() == 0 {
        Ok(Seq::empty())
    } else {
        match eval_list(es.drop_last(), rec) {
            Err(x) => Err(x),
            Ok(p) => match eval_spec(es.last(), rec) {
                Err(x) => Err(x),
                Ok(v) => Ok(p.push(v)),
            },
        }
    }
}

/// The accumulators `accs` after one record: for each aggregate in turn, its
/// expression is evaluated and folded into its accumulator.
pub open spec fn fold_aggs(
    aggs: Seq<(Aggregator, ExprView)>,
    accs: Seq<ValueView>,
    rec: Seq<ValueView>,
) -> Result<Seq<ValueView>, EvalError>
    decreases aggs.len(),
{
    if aggs.len() == 0 {
        Ok(Seq::empty())
    } else {
        match fold_aggs(aggs.drop_last(), accs, rec) {
            Err(x) => Err(x),
            Ok(p) => match eval_spec(aggs.last().1, rec) {
                Err(x) => Err(x),
                Ok(v) => match reduce_spec(aggs.last().0, accs[aggs.len() - 1], v) {
                    Err(x) => Err(x),
                    Ok(a) => Ok(p.push(a)),
                },
            },
        }
    }
}

/// The output rows of a projection after one more record.
pub open spec fn project_step(
    acc: Result<Seq<Seq<ValueView>>, EvalError>,
    select: Seq<ExprView>,
    filter: ExprView,
    rec: Seq<ValueView>,
) -> Result<Seq<Seq<ValueView>>, EvalError> {
    match acc {
        Err(x) => Err(x),
        Ok(rows) => match eval_spec(filter, rec) {
            Err(x) => Err(x),
            Ok(v) => if v == ValueView::Bool(true) {
                match eval_list(select, rec) {
                    Err(x) => Err(x),
                    Ok(row) => Ok(rows.push(row)),
                }
            } else {
                Ok(rows)
            },
        },
    }
}

/// A projection over `recs`: one row of `select` values per record whose
/// filter is `Bool(true)`, in record order.
pub open spec fn project_all(select: Seq<ExprView>, filter: ExprView, recs: Seq<Seq<ValueView>>) -> Result<
    Seq<Seq<ValueView>>,
    EvalError,
>
    decreases recs.len(),
{
    if recs.len() == 0 {
        Ok(Seq::empty())
    } else {
        project_step(project_all(select, filter, recs.drop_last()), select, filter, recs.last())
    }
}

/// The first group whose key is `key`.
pub open spec fn group_position(groups: Seq<(Seq<ValueView>, Seq<ValueView>)>, key: Seq<ValueView>) -> Option<int>
    decreases groups.len(),
{
    if groups.len() == 0 {
        None
    } else if groups[0].0 == key {
        Some(0)
    } else {
        match group_position(groups.drop_first(), key) {
            Some(i) => Some(i + 1),
            None => None,
        }
    }
}

/// `n` starting accumulators.
pub open spec fn zeros(n: nat) -> Seq<ValueView> {
    Seq::new(n, |i: int| ValueView::Integer(0))
}

/// The groups of an aggregation after one more record.
pub open spec fn group_step(
    acc: Result<Seq<(Seq<ValueView>, Seq<ValueView>)>, EvalError>,
    select: Seq<ExprView>,
    filter: ExprView,
    aggs: Seq<(Aggregator, ExprView)>,
    rec: Seq<ValueView>,
) -> Result<Seq<(Seq<ValueView>, Seq<ValueView>)>, EvalError> {
    match acc {
        Err(x) => Err(x),
        Ok(groups) => match eval_spec(filter, rec) {
            Err(x) => Err(x),
            Ok(v) => if v != ValueView::Bool(true) {
                Ok(groups)
            } else {
                match eval_list(select, rec) {
                    Err(x) => Err(x),
                    Ok(key) => match group_position(groups, key) {
                        Some(i) => match fold_aggs(aggs, groups[i].1, rec) {
                            Err(x) => Err(x),
                            Ok(a) => Ok(groups.update(i, (key, a))),
                        },
                        None => match fold_aggs(aggs, zeros(aggs.len()), rec) {
                            Err(x) => Err(x),
                            Ok(a) => Ok(groups.push((key, a))),
                        },
                    },
                }
            },
        },
    }
}

/// The groups of an aggregation over `recs`, in order of first appearance.
pub open spec fn group_all(
    select: Seq<ExprView>,
    filter: ExprView,
    aggs: Seq<(Aggregator, ExprView)>,
    recs: Seq<Seq<ValueView>>,
) -> Result<Seq<(Seq<ValueView>, Seq<ValueView>)>, EvalError>
    decreases recs.len(),
{
    if recs.len() == 0 {
        Ok(Seq::empty())
    } else {
        group_step(group_all(select, filter, aggs, recs.drop_last()), select, filter, aggs, recs.last())
    }
}

/// Output rows of groups: the key values, then the accumulated values.
pub open spec fn group_rows(groups: Seq<(Seq<ValueView>, Seq<ValueView>)>) -> Seq<Seq<ValueView>> {
    Seq::new(groups.len(), |i: int| groups[i].0 + groups[i].1)
}

/// Whether `names` lists, in ascending order and once each, every column
/// name of every batch.
pub open spec fn is_name_union(names: Seq<Seq<char>>, batches: Seq<Batch>) -> bool {
    &&& strictly_sorted(names)
    &&& forall|x: Seq<char>|
        names.contains(x) <==> exists|k: int|
            0 <= k < batches.len() && (#[trigger] batches[k]).names().contains(x)
}

/// The column names of a dataset, in ascending order.
pub open spec fn dataset_names(batches: Seq<Batch>) -> Seq<Seq<char>> {
    choose|names: Seq<Seq<char>>| is_name_union(names, batches)
}

/// Row `r` of a batch laid out over `names`: each name's value, `Null`
/// where the batch has no such column.
pub open spec fn layout_record(b: Batch, names: Seq<Seq<char>>, r: int) -> Seq<ValueView> {
    Seq::new(
        names.len(),
        |j: int|
            match position_of(b.names(), names[j]) {
                Some(i) => b.cols@[i as int].values()[r],
                None => ValueView::Null,
            },
    )
}

/// The records of a batch laid out over `names`.
pub open spec fn batch_records(b: Batch, names: Seq<Seq<char>>) -> Seq<Seq<ValueView>> {
    Seq::new(b.rows as nat, |r: int| layout_record(b, names, r))
}

/// The records of all batches in order, laid out over `names`.
pub open spec fn dataset_records(batches: Seq<Batch>, names: Seq<Seq<char>>) -> Seq<Seq<ValueView>>
    decreases batches.len(),
{
    if batches.len() == 0 {
        Seq::empty()
    } else {
        dataset_records(batches.drop_last(), names) + batch_records(batches.last(), names)
    }
}

/// The rows a query yields over a dataset.
pub open spec fn run_spec(q: QueryView, batches: Seq<Batch>) -> Result<Seq<Seq<ValueView>>, QueryErrorView> {
    let names = dataset_names(batches);
    match compile_query_spec(q, names) {
        Err(n) => Err(QueryErrorView::UnknownColumn(n)),
        Ok(c) => {
            let recs = dataset_records(batches, names);
            if q.aggregate.len() == 0 {
                match project_all(c.select, c.filter, recs) {
                    Err(x) => Err(QueryErrorView::Eval(x)),
                    Ok(rows) => Ok(rows),
                }
            } else {
                match group_all(c.select, c.filter, c.aggregate, recs) {
                    Err(x) => Err(QueryErrorView::Eval(x)),
                    Ok(groups) => Ok(group_rows(groups)),
                }
            }
        },
    }
}


pub open spec fn groups_view(g: Seq<(Vec<Value>, Vec<Value>)>) -> Seq<(Seq<ValueView>, Seq<ValueView>)> {
    g.map_values(|p: (Vec<Value>, Vec<Value>)| (values_view(p.0@), values_view(p.1@)))
}

/// The values of `es` on `record`, left to right.
fn eval_all(es: &Vec<Expr>, record: &Vec<Value>) -> (r: Result<Vec<Value>, EvalError>)
    requires
        forall|i: int| 0 <= i < es@.len() ==> compiled_within(#[trigger] es@[i]@, record@.len()),
    ensures
        match r {
            Ok(v) => eval_list(exprs_view(es@), values_view(record@)) == Ok::<Seq<ValueView>, EvalError>(values_view(v@)),
            Err(x) => eval_list(exprs_view(es@), values_view(record@)) == Err::<Seq<ValueView>, EvalError>(x),
        },
{
    let ghost rec = values_view(record@);
    let ghost ev = exprs_view(es@);
    let mut out: Vec<Value> = Vec::new();
    let mut i: usize = 0;
    assert(values_view(out@) =~= Seq::<ValueView>::empty());
    assert(ev.take(0) =~= Seq::<ExprView>::empty());
    while i < es.len()
        invariant
            i <= es@.len(),
            rec == values_view(record@),
            ev == exprs_view(es@),
            forall|i: int| 0 <= i < es@.len() ==> compiled_within(#[trigger] es@[i]@, record@.len()),
            eval_list(ev.take(i as int), rec) == Ok::<Seq<ValueView>, EvalError>(values_view(out@)),
        decreases es.len() - i,
    {
        assert(ev.take(i + 1).drop_last() =~= ev.take(i as int));
        assert(ev.take(i + 1).last() == es@[i as int]@);
        match es[i].eval(record) {
            Err(x) => {
                proof {
                    lemma_eval_list_err(ev, rec, i + 1);
                }
                return Err(x);
            },
            Ok(v) => {
                let ghost before = out@;
                out.push(v);
                assert(values_view(out@) =~= values_view(before).push(v@));
            },
        }
        i = i + 1;
    }
    assert(ev.take(i as int) =~= ev);
    Ok(out)
}

proof fn lemma_eval_list_err(es: Seq<ExprView>, rec: Seq<ValueView>, k: int)
    requires
        0 <= k <= es.len(),
        eval_list(es.take(k), rec) is Err,
    ensures
        eval_list(es, rec) == eval_list(es.take(k), rec),
    decreases es.len() - k,
{
    if k < es.len() {
        assert(es.take(k + 1).drop_last() =~= es.take(k));
        lemma_eval_list_err(es, rec, k + 1);
    } else {
        assert(es.take(k) =~= es);
    }
}

proof fn lemma_fold_aggs_err(aggs: Seq<(Aggregator, ExprView)>, accs: Seq<ValueView>, rec: Seq<ValueView>, k: int)
    requires
        0 <= k <= aggs.len(),
        fold_aggs(aggs.take(k), accs, rec) is Err,
    ensures
        fold_aggs(aggs, accs, rec) == fold_aggs(aggs.take(k), accs, rec),
    decreases aggs.len() - k,
{
    if k < aggs.len() {
        assert(aggs.take(k + 1).drop_last() =~= aggs.take(k));
        lemma_fold_aggs_err(aggs, accs, rec, k + 1);
    } else {
        assert(aggs.take(k) =~= aggs);
    }
}

/// The accumulators `accs` after folding in one record.
fn fold_aggs_exec(aggs: &Vec<(Aggregator, Expr)>, accs: &Vec<Value>, record: &Vec<Value>) -> (r: Result<Vec<Value>, EvalError>)
    requires
        accs@.len() == aggs@.len(),
        forall|i: int| 0 <= i < aggs@.len() ==> compiled_within(#[trigger] aggs@[i].1@, record@.len()),
    ensures
        match r {
            Ok(v) => fold_aggs(aggs_view(aggs@), values_view(accs@), values_view(record@)) == Ok::<Seq<ValueView>, EvalError>(values_view(v@)),
            Err(x) => fold_aggs(aggs_view(aggs@), values_view(accs@), values_view(record@)) == Err::<Seq<ValueView>, EvalError>(x),
        },
{
    let ghost rec = values_view(record@);
    let ghost av = aggs_view(aggs@);
    let ghost cv = values_view(accs@);
    let mut out: Vec<Value> = Vec::new();
    let mut i: usize = 0;
    assert(values_view(out@) =~= Seq::<ValueView>::empty());
    assert(av.take(0) =~= Seq::<(Aggregator, ExprView)>::empty());
    while i < aggs.len()
        invariant
            i <= aggs@.len(),
            accs@.len() == aggs@.len(),
            rec == values_view(record@),
            av == aggs_view(aggs@),
            cv == values_view(accs@),
            forall|i: int| 0 <= i < aggs@.len() ==> compiled_within(#[trigger] aggs@[i].1@, record@.len()),
            fold_aggs(av.take(i as int), cv, rec) == Ok::<Seq<ValueView>, EvalError>(values_view(out@)),
        decreases aggs.len() - i,
    {
        assert(av.take(i + 1).drop_last() =~= av.take(i as int));
        assert(av.take(i + 1).last() == (aggs@[i as int].0, aggs@[i as int].1@));
        match aggs[i].1.eval(record) {
            Err(x) => {
                proof {
                    lemma_fold_aggs_err(av, cv, rec, i + 1);
                }
                return Err(x);
            },
            Ok(v) => match aggs[i].0.reduce(&accs[i], &v) {
                Err(x) => {
                    proof {
                        lemma_fold_aggs_err(av, cv, rec, i + 1);
                    }
                    return Err(x);
                },
                Ok(a) => {
                    let ghost before = out@;
                    out.push(a);
                    assert(values_view(out@) =~= values_view(before).push(a@));
                },
            },
        }
        i = i + 1;
    }
    assert(av.take(i as int) =~= av);
    Ok(out)
}

proof fn lemma_group_position(groups: Seq<(Seq<ValueView>, Seq<ValueView>)>, key: Seq<ValueView>, i: int)
    requires
        0 <= i <= groups.len(),
        forall|j: int| 0 <= j < i ==> groups[j].0 != key,
    ensures
        i < groups.len() && groups[i].0 == key ==> group_position(groups, key) == Some(i),
        i == groups.len() ==> group_position(groups, key) is None,
    decreases i,
{
    if i > 0 {
        lemma_group_position(groups.drop_first(), key, i - 1);
    }
}

/// The first group whose key is `key`.
fn find_group(groups: &Vec<(Vec<Value>, Vec<Value>)>, key: &Vec<Value>) -> (r: Option<usize>)
    ensures
        r matches Some(i) ==> i < groups@.len(),
        match r {
            Some(i) => group_position(groups_view(groups@), values_view(key@)) == Some(i as int),
            None => group_position(groups_view(groups@), values_view(key@)) is None,
        },
{
    let ghost gv = groups_view(groups@);
    let mut i: usize = 0;
    while i < groups.len()
        invariant
            i <= groups@.len(),
            gv == groups_view(groups@),
            forall|j: int| 0 <= j < i ==> gv[j].0 != values_view(key@),
        decreases groups.len() - i,
    {
        if values_equal(&groups[i].0, key) {
            proof {
                lemma_group_position(gv, values_view(key@), i as int);
            }
            return Some(i);
        }
        i = i + 1;
    }
    proof {
        lemma_group_position(gv, values_view(key@), i as int);
    }
    None
}

/// The column names of a batch, in column order.
fn batch_names(b: &Batch) -> (names: Vec<String>)
    ensures
        texts_view(names@) == b.names(),
{
    let mut names: Vec<String> = Vec::new();
    let mut j: usize = 0;
    while j < b.cols.len()
        invariant
            j <= b.cols@.len(),
            names@.len() == j,
            forall|k: int| 0 <= k < j ==> (#[trigger] names@[k])@ == b.cols@[k].name@,
        decreases b.cols.len() - j,
    {
        names.push(b.cols[j].name.clone());
        j = j + 1;
    }
    assert(texts_view(names@) =~= b.names());
    names
}

/// For each of `names`, its column's position in `b`, if `b` has it.
fn batch_layout(b: &Batch, names: &Vec<String>) -> (l: Vec<Option<usize>>)
    ensures
        l@.len() == names@.len(),
        forall|j: int| 0 <= j < names@.len() ==> #[trigger] l@[j] == position_of(b.names(), names@[j]@),
{
    let own = batch_names(b);
    let mut l: Vec<Option<usize>> = Vec::new();
    let mut j: usize = 0;
    while j < names.len()
        invariant
            j <= names@.len(),
            l@.len() == j,
            texts_view(own@) == b.names(),
            forall|k: int| 0 <= k < j ==> #[trigger] l@[k] == position_of(b.names(), names@[k]@),
        decreases names.len() - j,
    {
        l.push(find_column(&own, &names[j]));
        j = j + 1;
    }
    l
}

/// Row `r` of `b` laid out over `names`.
fn materialize(b: &Batch, names: &Vec<String>, layout: &Vec<Option<usize>>, r: usize) -> (rec: Vec<Value>)
    requires
        b.wf(),
        r < b.rows,
        layout@.len() == names@.len(),
        forall|j: int| 0 <= j < names@.len() ==> #[trigger] layout@[j] == position_of(b.names(), names@[j]@),
    ensures
        values_view(rec@) == layout_record(*b, texts_view(names@), r as int),
{
    let ghost target = layout_record(*b, texts_view(names@), r as int);
    let mut rec: Vec<Value> = Vec::new();
    let mut j: usize = 0;
    while j < layout.len()
        invariant
            b.wf(),
            r < b.rows,
            layout@.len() == names@.len(),
            forall|j: int| 0 <= j < names@.len() ==> #[trigger] layout@[j] == position_of(b.names(), names@[j]@),
            target == layout_record(*b, texts_view(names@), r as int),
            j <= layout@.len(),
            rec@.len() == j,
            forall|k: int| 0 <= k < j ==> (#[trigger] rec@[k])@ == target[k],
        decreases layout.len() - j,
    {
        assert(texts_view(names@)[j as int] == names@[j as int]@);
        match layout[j] {
            Some(i) => {
                let ncols = b.cols.len();
                assert(b.names().len() == ncols);
                proof {
                    lemma_position_bound(b.names(), names@[j as int]@);
                }
                assert(b.cols@[i as int].values().len() == b.rows);
                rec.push(b.cols[i].get(r));
            },
            None => {
                rec.push(Value::Null);
            },
        }
        j = j + 1;
    }
    assert(values_view(rec@) =~= target);
    rec
}


/// Two strictly sorted lists of texts with the same elements are equal.
pub proof fn lemma_sorted_unique(a: Seq<Seq<char>>, b: Seq<Seq<char>>)
    requires
        strictly_sorted(a),
        strictly_sorted(b),
        forall|x: Seq<char>| a.contains(x) <==> b.contains(x),
    ensures
        a == b,
    decreases a.len(),
{
    if a.len() == 0 {
        if b.len() > 0 {
            assert(b.contains(b[0]));
        }
        assert(a =~= b);
    } else if b.len() == 0 {
        assert(a.contains(a[0]));
    } else {
        assert(a.contains(a[0]));
        assert(b.contains(b[0]));
        let j = choose|j: int| 0 <= j < b.len() && b[j] == a[0];
        let i = choose|i: int| 0 <= i < a.len() && a[i] == b[0];
        if a[0] != b[0] {
            assert(text_lt(b[0], b[j]));
            assert(text_lt(a[0], a[i]));
            lemma_text_lt_asymmetric(a[0], b[0]);
        }
        let a1 = a.drop_first();
        let b1 = b.drop_first();
        assert forall|x: Seq<char>| a1.contains(x) <==> b1.contains(x) by {
            if a1.contains(x) {
                let k = choose|k: int| 0 <= k < a1.len() && a1[k] == x;
                assert(a[k + 1] == x);
                assert(text_lt(a[0], a[k + 1]));
                lemma_text_lt_irreflexive(x);
                assert(a.contains(x));
                let m = choose|m: int| 0 <= m < b.len() && b[m] == x;
                assert(b1[m - 1] == x);
            }
            if b1.contains(x) {
                let k = choose|k: int| 0 <= k < b1.len() && b1[k] == x;
                assert(b[k + 1] == x);
                assert(text_lt(b[0], b[k + 1]));
                lemma_text_lt_irreflexive(x);
                assert(b.contains(x));
                let m = choose|m: int| 0 <= m < a.len() && a[m] == x;
                assert(a1[m - 1] == x);
            }
        }
        assert(strictly_sorted(a1)) by {
            assert forall|p: int, q: int| 0 <= p < q < a1.len() implies text_lt(
                #[trigger] a1[p],
                #[trigger] a1[q],
            ) by {
                assert(text_lt(a[p + 1], a[q + 1]));
            }
        }
        assert(strictly_sorted(b1)) by {
            assert forall|p: int, q: int| 0 <= p < q < b1.len() implies text_lt(
                #[trigger] b1[p],
                #[trigger] b1[q],
            ) by {
                assert(text_lt(b[p + 1], b[q + 1]));
            }
        }
        lemma_sorted_unique(a1, b1);
        assert forall|k: int| 0 <= k < a.len() implies a[k] == b[k] by {
            if k > 0 {
                assert(a[k] == a1[k - 1]);
                assert(b[k] == b1[k - 1]);
            }
        }
        assert(a =~= b);
    }
}

/// A list that is a name union of the dataset is its `dataset_names`.
pub proof fn lemma_dataset_names(names: Seq<Seq<char>>, batches: Seq<Batch>)
    requires
        is_name_union(names, batches),
    ensures
        dataset_names(batches) == names,
{
    let c = dataset_names(batches);
    assert(is_name_union(c, batches));
    lemma_sorted_unique(c, names);
}

/// The column names of all batches, ascending and once each.
pub fn create_colname_map(batches: &Vec<Batch>) -> (names: Vec<String>)
    ensures
        is_name_union(texts_view(names@), batches@),
{
    let mut names: Vec<String> = Vec::new();
    let mut k: usize = 0;
    while k < batches.len()
        invariant
            k <= batches@.len(),
            strictly_sorted(texts_view(names@)),
            forall|x: Seq<char>|
                texts_view(names@).contains(x) <==> exists|m: int|
                    0 <= m < k && (#[trigger] batches@[m]).names().contains(x),
        decreases batches.len() - k,
    {
        let b = &batches[k];
        let mut j: usize = 0;
        while j < b.cols.len()
            invariant
                k < batches@.len(),
                *b == batches@[k as int],
                j <= b.cols@.len(),
                strictly_sorted(texts_view(names@)),
                forall|x: Seq<char>|
                    texts_view(names@).contains(x) <==> ((exists|m: int|
                        0 <= m < k && (#[trigger] batches@[m]).names().contains(x)) || exists|i: int|
                        0 <= i < j && (#[trigger] b.cols@[i]).name@ == x),
            decreases b.cols.len() - j,
        {
            insert_sorted(&mut names, &b.cols[j].name);
            assert forall|x: Seq<char>|
                texts_view(names@).contains(x) <==> ((exists|m: int|
                    0 <= m < k && (#[trigger] batches@[m]).names().contains(x)) || exists|i: int|
                    0 <= i < j + 1 && (#[trigger] b.cols@[i]).name@ == x) by {
                if x == b.cols@[j as int].name@ {
                    assert(exists|i: int| 0 <= i < j + 1 && (#[trigger] b.cols@[i]).name@ == x);
                }
                if exists|i: int| 0 <= i < j + 1 && (#[trigger] b.cols@[i]).name@ == x {
                    let i = choose|i: int| 0 <= i < j + 1 && (#[trigger] b.cols@[i]).name@ == x;
                    if i < j {
                        assert(exists|i: int| 0 <= i < j && (#[trigger] b.cols@[i]).name@ == x);
                    }
                }
            }
            j = j + 1;
        }
        assert forall|x: Seq<char>|
            texts_view(names@).contains(x) <==> exists|m: int|
                0 <= m < k + 1 && (#[trigger] batches@[m]).names().contains(x) by {
            if exists|i: int| 0 <= i < j && (#[trigger] b.cols@[i]).name@ == x {
                let i = choose|i: int| 0 <= i < j && (#[trigger] b.cols@[i]).name@ == x;
                assert(b.names()[i] == x);
                assert(batches@[k as int].names().contains(x));
            }
            if exists|m: int| 0 <= m < k + 1 && (#[trigger] batches@[m]).names().contains(x) {
                let m = choose|m: int| 0 <= m < k + 1 && (#[trigger] batches@[m]).names().contains(x);
                if m == k {
                    let i = choose|i: int| 0 <= i < b.names().len() && b.names()[i] == x;
                    assert(b.cols@[i].name@ == x);
                }
            }
        }
        k = k + 1;
    }
    names
}


proof fn lemma_dataset_records_step(batches: Seq<Batch>, names: Seq<Seq<char>>, k: int)
    requires
        0 <= k < batches.len(),
    ensures
        dataset_records(batches.take(k + 1), names) == dataset_records(batches.take(k), names)
            + batch_records(batches[k], names),
{
    assert(batches.take(k + 1).drop_last() =~= batches.take(k));
}

/// The rows of a projection over all batches, in record order.
fn run_select_query(select: &Vec<Expr>, filter: &Expr, batches: &Vec<Batch>, names: &Vec<String>) -> (r: Result<Vec<Vec<Value>>, EvalError>)
    requires
        forall|k: int| 0 <= k < batches@.len() ==> (#[trigger] batches@[k]).wf(),
        forall|i: int| 0 <= i < select@.len() ==> compiled_within(#[trigger] select@[i]@, names@.len()),
        compiled_within(filter@, names@.len()),
    ensures
        match r {
            Ok(rows) => project_all(exprs_view(select@), filter@, dataset_records(batches@, texts_view(names@)))
                == Ok::<Seq<Seq<ValueView>>, EvalError>(rows_view(rows@)),
            Err(x) => project_all(exprs_view(select@), filter@, dataset_records(batches@, texts_view(names@)))
                == Err::<Seq<Seq<ValueView>>, EvalError>(x),
        },
{
    let ghost sv = exprs_view(select@);
    let ghost tv = texts_view(names@);
    let mut rows: Vec<Vec<Value>> = Vec::new();
    let mut err: Option<EvalError> = None;
    let mut k: usize = 0;
    assert(batches@.take(0) =~= Seq::<Batch>::empty());
    assert(rows_view(rows@) =~= Seq::<Seq<ValueView>>::empty());
    while k < batches.len()
        invariant
            k <= batches@.len(),
            sv == exprs_view(select@),
            tv == texts_view(names@),
            forall|k: int| 0 <= k < batches@.len() ==> (#[trigger] batches@[k]).wf(),
            forall|i: int| 0 <= i < select@.len() ==> compiled_within(#[trigger] select@[i]@, names@.len()),
            compiled_within(filter@, names@.len()),
            match err {
                None => project_all(sv, filter@, dataset_records(batches@.take(k as int), tv))
                    == Ok::<Seq<Seq<ValueView>>, EvalError>(rows_view(rows@)),
                Some(x) => project_all(sv, filter@, dataset_records(batches@.take(k as int), tv))
                    == Err::<Seq<Seq<ValueView>>, EvalError>(x),
            },
        decreases batches.len() - k,
    {
        let b = &batches[k];
        let layout = batch_layout(b, names);
        let ghost pre = dataset_records(batches@.take(k as int), tv);
        let ghost recs = batch_records(*b, tv);
        let mut r: usize = 0;
        assert(pre + recs.take(0) =~= pre);
        while r < b.rows
            invariant
                k < batches@.len(),
                *b == batches@[k as int],
                b.wf(),
                r <= b.rows,
                sv == exprs_view(select@),
                tv == texts_view(names@),
                recs == batch_records(*b, tv),
                layout@.len() == names@.len(),
                forall|j: int| 0 <= j < names@.len() ==> #[trigger] layout@[j] == position_of(b.names(), names@[j]@),
                forall|i: int| 0 <= i < select@.len() ==> compiled_within(#[trigger] select@[i]@, names@.len()),
                compiled_within(filter@, names@.len()),
                match err {
                    None => project_all(sv, filter@, pre + recs.take(r as int))
                        == Ok::<Seq<Seq<ValueView>>, EvalError>(rows_view(rows@)),
                    Some(x) => project_all(sv, filter@, pre + recs.take(r as int))
                        == Err::<Seq<Seq<ValueView>>, EvalError>(x),
                },
            decreases b.rows - r,
        {
            let ghost seen = pre + recs.take(r + 1);
            assert(seen.drop_last() =~= pre + recs.take(r as int));
            assert(seen.last() == layout_record(*b, tv, r as int));
            if err.is_none() {
                let rec = materialize(b, names, &layout, r);
                match filter.eval(&rec) {
                    Err(x) => {
                        err = Some(x);
                    },
                    Ok(v) => match v {
                        Value::Bool(true) => match eval_all(select, &rec) {
                            Err(x) => {
                                err = Some(x);
                            },
                            Ok(row) => {
                                let ghost before = rows@;
                                rows.push(row);
                                assert(rows_view(rows@) =~= rows_view(before).push(values_view(row@)));
                            },
                        },
                        _ => {},
                    },
                }
            }
            r = r + 1;
        }
        proof {
            assert(recs.take(r as int) =~= recs);
            lemma_dataset_records_step(batches@, tv, k as int);
        }
        k = k + 1;
    }
    assert(batches@.take(k as int) =~= batches@);
    match err {
        None => Ok(rows),
        Some(x) => Err(x),
    }
}


proof fn lemma_fold_aggs_len(aggs: Seq<(Aggregator, ExprView)>, accs: Seq<ValueView>, rec: Seq<ValueView>)
    ensures
        fold_aggs(aggs, accs, rec) matches Ok(p) ==> p.len() == aggs.len(),
    decreases aggs.len(),
{
    if aggs.len() > 0 {
        lemma_fold_aggs_len(aggs.drop_last(), accs, rec);
    }
}

/// The starting accumulators of `aggs`.
fn zero_accumulators(aggs: &Vec<(Aggregator, Expr)>) -> (z: Vec<Value>)
    ensures
        z@.len() == aggs@.len(),
        values_view(z@) == zeros(aggs@.len()),
{
    let mut z: Vec<Value> = Vec::new();
    let mut i: usize = 0;
    while i < aggs.len()
        invariant
            i <= aggs@.len(),
            z@.len() == i,
            forall|j: int| 0 <= j < i ==> (#[trigger] z@[j])@ == ValueView::Integer(0),
        decreases aggs.len() - i,
    {
        z.push(aggs[i].0.zero());
        i = i + 1;
    }
    assert(values_view(z@) =~= zeros(aggs@.len()));
    z
}

/// Output rows of groups: key values, then accumulated values.
fn groups_to_rows(groups: &Vec<(Vec<Value>, Vec<Value>)>) -> (rows: Vec<Vec<Value>>)
    ensures
        rows_view(rows@) == group_rows(groups_view(groups@)),
{
    let mut rows: Vec<Vec<Value>> = Vec::new();
    let mut g: usize = 0;
    while g < groups.len()
        invariant
            g <= groups@.len(),
            rows@.len() == g,
            forall|j: int| 0 <= j < g ==> values_view((#[trigger] rows@[j])@) == values_view(groups@[j].0@)
                + values_view(groups@[j].1@),
        decreases groups.len() - g,
    {
        let mut row = copy_values(&groups[g].0);
        let accs = &groups[g].1;
        let ghost key = values_view(groups@[g as int].0@);
        let mut i: usize = 0;
        while i < accs.len()
            invariant
                i <= accs@.len(),
                values_view(row@) =~= key + values_view(accs@).take(i as int),
            decreases accs.len() - i,
        {
            let ghost before = row@;
            row.push(accs[i].duplicate());
            assert(values_view(row@) =~= values_view(before).push(accs@[i as int]@));
            i = i + 1;
        }
        assert(values_view(accs@).take(i as int) =~= values_view(accs@));
        rows.push(row);
        g = g + 1;
    }
    assert(rows_view(rows@) =~= group_rows(groups_view(groups@)));
    rows
}

/// The groups of an aggregation over all batches, as output rows.
fn run_aggregation_query(
    select: &Vec<Expr>,
    filter: &Expr,
    aggs: &Vec<(Aggregator, Expr)>,
    batches: &Vec<Batch>,
    names: &Vec<String>,
) -> (r: Result<Vec<Vec<Value>>, EvalError>)
    requires
        forall|k: int| 0 <= k < batches@.len() ==> (#[trigger] batches@[k]).wf(),
        forall|i: int| 0 <= i < select@.len() ==> compiled_within(#[trigger] select@[i]@, names@.len()),
        compiled_within(filter@, names@.len()),
        forall|i: int| 0 <= i < aggs@.len() ==> compiled_within(#[trigger] aggs@[i].1@, names@.len()),
    ensures
        match r {
            Ok(rows) => match group_all(exprs_view(select@), filter@, aggs_view(aggs@), dataset_records(batches@, texts_view(names@))) {
                Ok(groups) => rows_view(rows@) == group_rows(groups),
                Err(_) => false,
            },
            Err(x) => group_all(exprs_view(select@), filter@, aggs_view(aggs@), dataset_records(batches@, texts_view(names@)))
                == Err::<Seq<(Seq<ValueView>, Seq<ValueView>)>, EvalError>(x),
        },
{
    let ghost sv = exprs_view(select@);
    let ghost av = aggs_view(aggs@);
    let ghost tv = texts_view(names@);
    let mut groups: Vec<(Vec<Value>, Vec<Value>)> = Vec::new();
    let mut err: Option<EvalError> = None;
    let mut k: usize = 0;
    assert(batches@.take(0) =~= Seq::<Batch>::empty());
    assert(groups_view(groups@) =~= Seq::<(Seq<ValueView>, Seq<ValueView>)>::empty());
    while k < batches.len()
        invariant
            k <= batches@.len(),
            sv == exprs_view(select@),
            av == aggs_view(aggs@),
            tv == texts_view(names@),
            forall|k: int| 0 <= k < batches@.len() ==> (#[trigger] batches@[k]).wf(),
            forall|i: int| 0 <= i < select@.len() ==> compiled_within(#[trigger] select@[i]@, names@.len()),
            compiled_within(filter@, names@.len()),
            forall|i: int| 0 <= i < aggs@.len() ==> compiled_within(#[trigger] aggs@[i].1@, names@.len()),
            forall|g: int| 0 <= g < groups@.len() ==> (#[trigger] groups@[g]).1@.len() == aggs@.len(),
            match err {
                None => group_all(sv, filter@, av, dataset_records(batches@.take(k as int), tv))
                    == Ok::<Seq<(Seq<ValueView>, Seq<ValueView>)>, EvalError>(groups_view(groups@)),
                Some(x) => group_all(sv, filter@, av, dataset_records(batches@.take(k as int), tv))
                    == Err::<Seq<(Seq<ValueView>, Seq<ValueView>)>, EvalError>(x),
            },
        decreases batches.len() - k,
    {
        let b = &batches[k];
        let layout = batch_layout(b, names);
        let ghost pre = dataset_records(batches@.take(k as int), tv);
        let ghost recs = batch_records(*b, tv);
        let mut r: usize = 0;
        assert(pre + recs.take(0) =~= pre);
        while r < b.rows
            invariant
                k < batches@.len(),
                *b == batches@[k as int],
                b.wf(),
                r <= b.rows,
                sv == exprs_view(select@),
                av == aggs_view(aggs@),
                tv == texts_view(names@),
                recs == batch_records(*b, tv),
                layout@.len() == names@.len(),
                forall|j: int| 0 <= j < names@.len() ==> #[trigger] layout@[j] == position_of(b.names(), names@[j]@),
                forall|i: int| 0 <= i < select@.len() ==> compiled_within(#[trigger] select@[i]@, names@.len()),
                compiled_within(filter@, names@.len()),
                forall|i: int| 0 <= i < aggs@.len() ==> compiled_within(#[trigger] aggs@[i].1@, names@.len()),
                forall|g: int| 0 <= g < groups@.len() ==> (#[trigger] groups@[g]).1@.len() == aggs@.len(),
                match err {
                    None => group_all(sv, filter@, av, pre + recs.take(r as int))
                        == Ok::<Seq<(Seq<ValueView>, Seq<ValueView>)>, EvalError>(groups_view(groups@)),
                    Some(x) => group_all(sv, filter@, av, pre + recs.take(r as int))
                        == Err::<Seq<(Seq<ValueView>, Seq<ValueView>)>, EvalError>(x),
                },
            decreases b.rows - r,
        {
            let ghost seen = pre + recs.take(r + 1);
            assert(seen.drop_last() =~= pre + recs.take(r as int));
            assert(seen.last() == layout_record(*b, tv, r as int));
            if err.is_none() {
                let rec = materialize(b, names, &layout, r);
                match filter.eval(&rec) {
                    Err(x) => {
                        err = Some(x);
                    },
                    Ok(v) => match v {
                        Value::Bool(true) => match eval_all(select, &rec) {
                            Err(x) => {
                                err = Some(x);
                            },
                            Ok(key) => match find_group(&groups, &key) {
                                Some(i) => {
                                    let ghost gv = groups_view(groups@);
                                    assert(gv[i as int].1 == values_view(groups@[i as int].1@));
                                    match fold_aggs_exec(aggs, &groups[i].1, &rec) {
                                        Err(x) => {
                                            err = Some(x);
                                        },
                                        Ok(a) => {
                                            proof {
                                                lemma_fold_aggs_len(av, gv[i as int].1, values_view(rec@));
                                            }
                                            let ghost kv = values_view(key@);
                                            let ghost avv = values_view(a@);
                                            groups.set(i, (key, a));
                                            assert(groups_view(groups@) =~= gv.update(i as int, (kv, avv)));
                                        },
                                    }
                                },
                                None => {
                                    let z = zero_accumulators(aggs);
                                    match fold_aggs_exec(aggs, &z, &rec) {
                                        Err(x) => {
                                            err = Some(x);
                                        },
                                        Ok(a) => {
                                            proof {
                                                lemma_fold_aggs_len(av, zeros(aggs@.len()), values_view(rec@));
                                            }
                                            let ghost gv = groups_view(groups@);
                                            let ghost kv = values_view(key@);
                                            let ghost avv = values_view(a@);
                                            groups.push((key, a));
                                            assert(groups_view(groups@) =~= gv.push((kv, avv)));
                                        },
                                    }
                                },
                            },
                        },
                        _ => {},
                    },
                }
            }
            r = r + 1;
        }
        proof {
            assert(recs.take(r as int) =~= recs);
            lemma_dataset_records_step(batches@, tv, k as int);
        }
        k = k + 1;
    }
    assert(batches@.take(k as int) =~= batches@);
    match err {
        None => Ok(groups_to_rows(&groups)),
        Some(x) => Err(x),
    }
}


/// The decimal digit `d`.
pub open spec fn digit_of(d: int) -> char {
    if d == 0 {
        '0'
    } else if d == 1 {
        '1'
    } else if d == 2 {
        '2'
    } else if d == 3 {
        '3'
    } else if d == 4 {
        '4'
    } else if d == 5 {
        '5'
    } else if d == 6 {
        '6'
    } else if d == 7 {
        '7'
    } else if d == 8 {
        '8'
    } else {
        '9'
    }
}

/// The decimal notation of `n`, without leading zeros.
pub open spec fn decimal_spec(n: nat) -> Seq<char>
    decreases n,
{
    if n < 10 {
        seq![digit_of(n as int)]
    } else {
        decimal_spec(n / 10).push(digit_of((n % 10) as int))
    }
}

fn digit_text(d: usize) -> (s: &'static str)
    requires
        d < 10,
    ensures
        s@ == seq![digit_of(d as int)],
{
    proof {
        reveal_strlit("0");
        reveal_strlit("1");
        reveal_strlit("2");
        reveal_strlit("3");
        reveal_strlit("4");
        reveal_strlit("5");
        reveal_strlit("6");
        reveal_strlit("7");
        reveal_strlit("8");
        reveal_strlit("9");
    }
    let s = if d == 0 {
        "0"
    } else if d == 1 {
        "1"
    } else if d == 2 {
        "2"
    } else if d == 3 {
        "3"
    } else if d == 4 {
        "4"
    } else if d == 5 {
        "5"
    } else if d == 6 {
        "6"
    } else if d == 7 {
        "7"
    } else if d == 8 {
        "8"
    } else {
        "9"
    };
    assert(s@ =~= seq![digit_of(d as int)]);
    s
}

/// The decimal notation of `n`.
pub fn decimal(n: usize) -> (s: String)
    ensures
        s@ == decimal_spec(n as nat),
    decreases n,
{
    if n < 10 {
        String::from_str(digit_text(n))
    } else {
        let mut s = decimal(n / 10);
        s.append(digit_text(n % 10));
        assert(s@ =~= decimal_spec(n as nat));
        s
    }
}

/// `prefix` followed by the decimal notation of `n`.
fn numbered(prefix: &str, n: usize) -> (s: String)
    ensures
        s@ == prefix@ + decimal_spec(n as nat),
{
    let d = decimal(n);
    let mut s = String::from_str(prefix);
    s.append(d.as_str());
    s
}

/// How many of `sel` are not plain column references.
pub open spec fn anon_count(sel: Seq<ExprView>) -> nat
    decreases sel.len(),
{
    if sel.len() == 0 {
        0
    } else {
        anon_count(sel.drop_last()) + if sel.last() is ColName {
            0nat
        } else {
            1nat
        }
    }
}

/// Output names of the select list: a column reference keeps its name;
/// any other expression is `col_i`, counting those others from zero.
pub open spec fn select_names(sel: Seq<ExprView>) -> Seq<Seq<char>> {
    Seq::new(
        sel.len(),
        |i: int|
            match sel[i] {
                ExprView::ColName(n) => n,
                _ => "col_"@ + decimal_spec(anon_count(sel.take(i))),
            },
    )
}

/// Output names of the aggregates: `count_i` or `sum_i` by position.
pub open spec fn agg_names(aggs: Seq<(Aggregator, ExprView)>) -> Seq<Seq<char>> {
    Seq::new(
        aggs.len(),
        |i: int|
            match aggs[i].0 {
                Aggregator::Count => "count_"@ + decimal_spec(i as nat),
                Aggregator::Sum => "sum_"@ + decimal_spec(i as nat),
            },
    )
}

/// The names of a query's output columns.
pub open spec fn result_names(q: QueryView) -> Seq<Seq<char>> {
    select_names(q.select) + agg_names(q.aggregate)
}

proof fn lemma_compile_list_err(es: Seq<ExprView>, names: Seq<Seq<char>>, k: int)
    requires
        0 <= k <= es.len(),
        compile_list(es.take(k), names) is Err,
    ensures
        compile_list(es, names) == compile_list(es.take(k), names),
    decreases es.len() - k,
{
    if k < es.len() {
        assert(es.take(k + 1).drop_last() =~= es.take(k));
        lemma_compile_list_err(es, names, k + 1);
    } else {
        assert(es.take(k) =~= es);
    }
}

proof fn lemma_compile_aggs_err(aggs: Seq<(Aggregator, ExprView)>, names: Seq<Seq<char>>, k: int)
    requires
        0 <= k <= aggs.len(),
        compile_aggs(aggs.take(k), names) is Err,
    ensures
        compile_aggs(aggs, names) == compile_aggs(aggs.take(k), names),
    decreases aggs.len() - k,
{
    if k < aggs.len() {
        assert(aggs.take(k + 1).drop_last() =~= aggs.take(k));
        lemma_compile_aggs_err(aggs, names, k + 1);
    } else {
        assert(aggs.take(k) =~= aggs);
    }
}

proof fn lemma_compile_list_elems(es: Seq<ExprView>, names: Seq<Seq<char>>)
    ensures
        compile_list(es, names) matches Ok(p) ==> p.len() == es.len() && forall|i: int|
            0 <= i < es.len() ==> compile_spec(#[trigger] es[i], names) == Ok::<ExprView, Seq<char>>(p[i]),
    decreases es.len(),
{
    if es.len() > 0 {
        lemma_compile_list_elems(es.drop_last(), names);
        if compile_list(es, names) is Ok {
            let p = compile_list(es, names)->Ok_0;
            assert forall|i: int| 0 <= i < es.len() implies compile_spec(#[trigger] es[i], names)
                == Ok::<ExprView, Seq<char>>(p[i]) by {
                if i < es.len() - 1 {
                    assert(es[i] == es.drop_last()[i]);
                }
            }
        }
    }
}

proof fn lemma_compile_aggs_elems(aggs: Seq<(Aggregator, ExprView)>, names: Seq<Seq<char>>)
    ensures
        compile_aggs(aggs, names) matches Ok(p) ==> p.len() == aggs.len() && forall|i: int|
            0 <= i < aggs.len() ==> compile_spec(#[trigger] aggs[i].1, names) == Ok::<ExprView, Seq<char>>(p[i].1)
                && p[i].0 == aggs[i].0,
    decreases aggs.len(),
{
    if aggs.len() > 0 {
        lemma_compile_aggs_elems(aggs.drop_last(), names);
        if compile_aggs(aggs, names) is Ok {
            let p = compile_aggs(aggs, names)->Ok_0;
            assert forall|i: int| 0 <= i < aggs.len() implies compile_spec(#[trigger] aggs[i].1, names)
                == Ok::<ExprView, Seq<char>>(p[i].1) && p[i].0 == aggs[i].0 by {
                if i < aggs.len() - 1 {
                    assert(aggs[i] == aggs.drop_last()[i]);
                }
            }
        }
    }
}

/// A query written with column names, once compiled, refers only to the
/// positions of `names`.
proof fn lemma_query_within(q: QueryView, names: Seq<Seq<char>>)
    requires
        query_by_name(q),
        compile_query_spec(q, names) is Ok,
        names.len() <= usize::MAX,
        q.select.len() <= usize::MAX,
        q.aggregate.len() <= usize::MAX,
    ensures
        query_within(compile_query_spec(q, names)->Ok_0, names.len()),
{
    let c = compile_query_spec(q, names)->Ok_0;
    lemma_compile_list_elems(q.select, names);
    lemma_compile_aggs_elems(q.aggregate, names);
    assert forall|i: int| 0 <= i < c.select.len() implies compiled_within(#[trigger] c.select[i], names.len()) by {
        assert(compile_spec(q.select[i], names) is Ok);
        lemma_compiled_within(q.select[i], names, names.len());
    }
    lemma_compiled_within(q.filter, names, names.len());
    assert forall|i: int| 0 <= i < c.aggregate.len() implies compiled_within(
        #[trigger] c.aggregate[i].1,
        names.len(),
    ) by {
        assert(compile_spec(q.aggregate[i].1, names) is Ok);
        lemma_compiled_within(q.aggregate[i].1, names, names.len());
    }
}

/// Running one query twice over the same dataset gives the same outcome:
/// the same rows, or the same error.
pub proof fn lemma_run_twice(
    q: Query,
    batches: Seq<Batch>,
    r1: Result<(Vec<String>, Vec<Vec<Value>>), QueryError>,
    r2: Result<(Vec<String>, Vec<Vec<Value>>), QueryError>,
)
    requires
        match r1 {
            Ok((cols, rows)) => texts_view(cols@) == result_names(q@) && run_spec(q@, batches)
                == Ok::<Seq<Seq<ValueView>>, QueryErrorView>(rows_view(rows@)),
            Err(e) => run_spec(q@, batches) == Err::<Seq<Seq<ValueView>>, QueryErrorView>(e@),
        },
        match r2 {
            Ok((cols, rows)) => texts_view(cols@) == result_names(q@) && run_spec(q@, batches)
                == Ok::<Seq<Seq<ValueView>>, QueryErrorView>(rows_view(rows@)),
            Err(e) => run_spec(q@, batches) == Err::<Seq<Seq<ValueView>>, QueryErrorView>(e@),
        },
    ensures
        r1 is Ok <==> r2 is Ok,
        r1 is Ok ==> texts_view(r1->Ok_0.0@) == texts_view(r2->Ok_0.0@) && rows_view(r1->Ok_0.1@)
            == rows_view(r2->Ok_0.1@),
        r1 is Err ==> r1->Err_0@ == r2->Err_0@,
{
}

/// How many of `recs` pass `filter`.
pub open spec fn filter_count(filter: ExprView, recs: Seq<Seq<ValueView>>) -> nat
    decreases recs.len(),
{
    if recs.len() == 0 {
        0
    } else {
        filter_count(filter, recs.drop_last()) + if eval_spec(filter, recs.last()) == Ok::<
            ValueView,
            EvalError,
        >(ValueView::Bool(true)) {
            1nat
        } else {
            0nat
        }
    }
}

/// The sum of the integer values of `e` over the records of `recs` that
/// pass `filter`.
pub open spec fn filter_sum(filter: ExprView, e: ExprView, recs: Seq<Seq<ValueView>>) -> int
    decreases recs.len(),
{
    if recs.len() == 0 {
        0
    } else {
        filter_sum(filter, e, recs.drop_last()) + if eval_spec(filter, recs.last()) == Ok::<
            ValueView,
            EvalError,
        >(ValueView::Bool(true)) {
            match eval_spec(e, recs.last()) {
                Ok(ValueView::Integer(i)) => i as int,
                _ => 0int,
            }
        } else {
            0int
        }
    }
}

proof fn lemma_single_agg_step(
    filter: ExprView,
    agg: Aggregator,
    e: ExprView,
    groups: Seq<(Seq<ValueView>, Seq<ValueView>)>,
    rec: Seq<ValueView>,
)
    requires
        groups.len() == 0 || (groups.len() == 1 && groups[0].0 == Seq::<ValueView>::empty()
            && groups[0].1.len() == 1),
    ensures
        group_step(Ok(groups), Seq::empty(), filter, seq![(agg, e)], rec) matches Ok(g) ==> {
            if eval_spec(filter, rec) == Ok::<ValueView, EvalError>(ValueView::Bool(true)) {
                let acc = if groups.len() == 0 {
                    ValueView::Integer(0)
                } else {
                    groups[0].1[0]
                };
                &&& eval_spec(e, rec) is Ok
                &&& reduce_spec(agg, acc, eval_spec(e, rec)->Ok_0) is Ok
                &&& g.len() == 1
                &&& g[0].0 == Seq::<ValueView>::empty()
                &&& g[0].1 == seq![reduce_spec(agg, acc, eval_spec(e, rec)->Ok_0)->Ok_0]
            } else {
                g == groups
            }
        },
{
    let aggs = seq![(agg, e)];
    let key = Seq::<ValueView>::empty();
    assert(aggs.drop_last() =~= Seq::<(Aggregator, ExprView)>::empty());
    assert(eval_list(Seq::empty(), rec) == Ok::<Seq<ValueView>, EvalError>(key));
    if groups.len() == 0 {
        assert(group_position(groups, key) is None);
        assert(zeros(1)[0] == ValueView::Integer(0));
    } else {
        assert(group_position(groups, key) == Some(0int));
    }
    if group_step(Ok(groups), Seq::empty(), filter, aggs, rec) is Ok && eval_spec(filter, rec) == Ok::<
        ValueView,
        EvalError,
    >(ValueView::Bool(true)) {
        let acc = if groups.len() == 0 {
            ValueView::Integer(0)
        } else {
            groups[0].1[0]
        };
        let accs = if groups.len() == 0 {
            zeros(1)
        } else {
            groups[0].1
        };
        assert(accs[0] == acc);
        let f = fold_aggs(aggs, accs, rec);
        assert(fold_aggs(aggs.drop_last(), accs, rec) == Ok::<Seq<ValueView>, EvalError>(Seq::empty()));
        assert(aggs.last() == (agg, e));
        assert(f is Ok);
        assert(Seq::<ValueView>::empty().push(reduce_spec(agg, acc, eval_spec(e, rec)->Ok_0)->Ok_0)
            =~= seq![reduce_spec(agg, acc, eval_spec(e, rec)->Ok_0)->Ok_0]);
        assert(f->Ok_0 =~= seq![reduce_spec(agg, acc, eval_spec(e, rec)->Ok_0)->Ok_0]);
    }
}

/// Projection keeps record order: projecting `a` followed by `b` gives the
/// rows of `a` followed by the rows of `b`.
pub proof fn lemma_projection_keeps_order(
    select: Seq<ExprView>,
    filter: ExprView,
    a: Seq<Seq<ValueView>>,
    b: Seq<Seq<ValueView>>,
)
    requires
        project_all(select, filter, a) is Ok,
        project_all(select, filter, b) is Ok,
    ensures
        project_all(select, filter, a + b) == Ok::<Seq<Seq<ValueView>>, EvalError>(
            project_all(select, filter, a)->Ok_0 + project_all(select, filter, b)->Ok_0,
        ),
    decreases b.len(),
{
    let ra = project_all(select, filter, a)->Ok_0;
    if b.len() == 0 {
        assert(a + b =~= a);
        assert(project_all(select, filter, b) == Ok::<Seq<Seq<ValueView>>, EvalError>(Seq::empty()));
        assert(ra + Seq::<Seq<ValueView>>::empty() =~= ra);
    } else {
        let b0 = b.drop_last();
        assert((a + b).drop_last() =~= a + b0);
        assert((a + b).last() == b.last());
        assert(project_all(select, filter, b0) is Ok);
        lemma_projection_keeps_order(select, filter, a, b0);
        let rb0 = project_all(select, filter, b0)->Ok_0;
        let rb = project_all(select, filter, b)->Ok_0;
        if eval_spec(filter, b.last()) == Ok::<ValueView, EvalError>(ValueView::Bool(true)) {
            let row = eval_list(select, b.last())->Ok_0;
            assert(rb == rb0.push(row));
            assert((ra + rb0).push(row) =~= ra + rb0.push(row));
        } else {
            assert(rb == rb0);
        }
    }
}

/// How many of `recs` pass `filter` and have the grouping key `key`.
pub open spec fn key_count(select: Seq<ExprView>, filter: ExprView, recs: Seq<Seq<ValueView>>, key: Seq<ValueView>) -> nat
    decreases recs.len(),
{
    if recs.len() == 0 {
        0
    } else {
        key_count(select, filter, recs.drop_last(), key) + if eval_spec(filter, recs.last()) == Ok::<
            ValueView,
            EvalError,
        >(ValueView::Bool(true)) && eval_list(select, recs.last()) == Ok::<Seq<ValueView>, EvalError>(key) {
            1nat
        } else {
            0nat
        }
    }
}

proof fn lemma_group_position_found(groups: Seq<(Seq<ValueView>, Seq<ValueView>)>, key: Seq<ValueView>)
    ensures
        group_position(groups, key) matches Some(i) ==> 0 <= i < groups.len() && groups[i].0 == key,
        group_position(groups, key) is None ==> forall|i: int| 0 <= i < groups.len() ==> groups[i].0 != key,
    decreases groups.len(),
{
    if groups.len() > 0 {
        let d = groups.drop_first();
        lemma_group_position_found(d, key);
        if group_position(groups, key) is None {
            assert forall|i: int| 0 <= i < groups.len() implies groups[i].0 != key by {
                if i > 0 {
                    assert(groups[i] == d[i - 1]);
                }
            }
        }
    }
}

/// Whether every group holds one count, equal to the number of records of
/// its key that pass the filter; keys are distinct, and a key without a
/// group has no such record.
pub open spec fn counts_per_key(
    select: Seq<ExprView>,
    filter: ExprView,
    recs: Seq<Seq<ValueView>>,
    g: Seq<(Seq<ValueView>, Seq<ValueView>)>,
) -> bool {
    &&& forall|i: int, j: int| 0 <= i < j < g.len() ==> (#[trigger] g[i]).0 != (#[trigger] g[j]).0
    &&& forall|i: int|
        0 <= i < g.len() ==> key_count(select, filter, recs, (#[trigger] g[i]).0) <= i64::MAX && g[i].1 == seq![
            ValueView::Integer(key_count(select, filter, recs, g[i].0) as i64),
        ]
    &&& forall|key: Seq<ValueView>|
        (forall|i: int| 0 <= i < g.len() ==> (#[trigger] g[i]).0 != key) ==> #[trigger] key_count(select, filter, recs, key) == 0
}

/// Counting per group: when grouping succeeds, each group's `count(e)` is
/// the number of records with that key that pass the filter.
pub proof fn lemma_count_per_group(select: Seq<ExprView>, filter: ExprView, e: ExprView, recs: Seq<Seq<ValueView>>)
    ensures
        group_all(select, filter, seq![(Aggregator::Count, e)], recs) matches Ok(g) ==> counts_per_key(select, filter, recs, g),
    decreases recs.len(),
{
    let aggs = seq![(Aggregator::Count, e)];
    if recs.len() == 0 {
    } else {
        let prev = recs.drop_last();
        let rec = recs.last();
        lemma_count_per_group(select, filter, e, prev);
        let pg = group_all(select, filter, aggs, prev);
        if group_all(select, filter, aggs, recs) is Ok {
            let g0 = pg->Ok_0;
            let g = group_all(select, filter, aggs, recs)->Ok_0;
            assert(aggs.drop_last() =~= Seq::<(Aggregator, ExprView)>::empty());
            assert(aggs.last() == (Aggregator::Count, e));
            if eval_spec(filter, rec) == Ok::<ValueView, EvalError>(ValueView::Bool(true)) {
                let key = eval_list(select, rec)->Ok_0;
                lemma_group_position_found(g0, key);
                assert forall|k2: Seq<ValueView>| k2 != key implies #[trigger] key_count(select, filter, recs, k2) == key_count(select, filter, prev, k2) by {}
                assert(key_count(select, filter, recs, key) == key_count(select, filter, prev, key) + 1);
                match group_position(g0, key) {
                    Some(i) => {
                        let c = key_count(select, filter, prev, key);
                        assert(g0[i].1 == seq![ValueView::Integer(c as i64)]);
                        assert(c <= i64::MAX);
                        assert(g0[i].1[0] == ValueView::Integer(c as i64));
                        assert(c < i64::MAX);
                        assert(fold_aggs(aggs.drop_last(), g0[i].1, rec) == Ok::<Seq<ValueView>, EvalError>(Seq::empty()));
                        assert(g == g0.update(i, (key, seq![ValueView::Integer((c + 1) as i64)]))) by {
                            assert(Seq::<ValueView>::empty().push(ValueView::Integer((c + 1) as i64)) =~= seq![ValueView::Integer((c + 1) as i64)]);
                        }
                        assert forall|a: int, b: int| 0 <= a < b < g.len() implies (#[trigger] g[a]).0 != (#[trigger] g[b]).0 by {
                            assert(g[a].0 == g0[a].0 && g[b].0 == g0[b].0);
                        }
                        assert forall|k2: Seq<ValueView>| (forall|j: int| 0 <= j < g.len() ==> (#[trigger] g[j]).0 != k2) implies #[trigger] key_count(select, filter, recs, k2) == 0 by {
                            assert(g[i].0 == key);
                            assert forall|j: int| 0 <= j < g0.len() implies (#[trigger] g0[j]).0 != k2 by {
                                assert(g[j].0 == g0[j].0);
                            }
                        }
                    },
                    None => {
                        assert(zeros(1)[0] == ValueView::Integer(0));
                        assert(fold_aggs(aggs.drop_last(), zeros(1), rec) == Ok::<Seq<ValueView>, EvalError>(Seq::empty()));
                        assert(key_count(select, filter, prev, key) == 0);
                        assert(g == g0.push((key, seq![ValueView::Integer(1)]))) by {
                            assert(Seq::<ValueView>::empty().push(ValueView::Integer(1)) =~= seq![ValueView::Integer(1)]);
                        }
                        assert forall|a: int, b: int| 0 <= a < b < g.len() implies (#[trigger] g[a]).0 != (#[trigger] g[b]).0 by {
                            if b == g0.len() {
                                assert(g[a].0 == g0[a].0);
                            } else {
                                assert(g[a].0 == g0[a].0 && g[b].0 == g0[b].0);
                            }
                        }
                        assert forall|k2: Seq<ValueView>| (forall|j: int| 0 <= j < g.len() ==> (#[trigger] g[j]).0 != k2) implies #[trigger] key_count(select, filter, recs, k2) == 0 by {
                            assert(g[g0.len() as int].0 == key);
                            assert forall|j: int| 0 <= j < g0.len() implies (#[trigger] g0[j]).0 != k2 by {
                                assert(g[j].0 == g0[j].0);
                            }
                        }
                    },
                }
            } else {
                assert forall|k2: Seq<ValueView>| #[trigger] key_count(select, filter, recs, k2) == key_count(select, filter, prev, k2) by {}
            }
        }
    }
}

/// The sum of the integer values of `e` over the records of `recs` that pass
/// `filter` and have the grouping key `key`.
pub open spec fn key_sum(
    select: Seq<ExprView>,
    filter: ExprView,
    e: ExprView,
    recs: Seq<Seq<ValueView>>,
    key: Seq<ValueView>,
) -> int
    decreases recs.len(),
{
    if recs.len() == 0 {
        0
    } else {
        key_sum(select, filter, e, recs.drop_last(), key) + if eval_spec(filter, recs.last()) == Ok::<
            ValueView,
            EvalError,
        >(ValueView::Bool(true)) && eval_list(select, recs.last()) == Ok::<Seq<ValueView>, EvalError>(key) {
            match eval_spec(e, recs.last()) {
                Ok(ValueView::Integer(x)) => x as int,
                _ => 0int,
            }
        } else {
            0int
        }
    }
}

/// Whether every group holds one sum, equal to the sum of `e` over the
/// records of its key that pass the filter; keys are distinct, and a key
/// without a group sums to zero.
pub open spec fn sums_per_key(
    select: Seq<ExprView>,
    filter: ExprView,
    e: ExprView,
    recs: Seq<Seq<ValueView>>,
    g: Seq<(Seq<ValueView>, Seq<ValueView>)>,
) -> bool {
    &&& forall|i: int, j: int| 0 <= i < j < g.len() ==> (#[trigger] g[i]).0 != (#[trigger] g[j]).0
    &&& forall|i: int|
        0 <= i < g.len() ==> i64::MIN <= key_sum(select, filter, e, recs, (#[trigger] g[i]).0) <= i64::MAX && g[i].1
            == seq![ValueView::Integer(key_sum(select, filter, e, recs, g[i].0) as i64)]
    &&& forall|key: Seq<ValueView>|
        (forall|i: int| 0 <= i < g.len() ==> (#[trigger] g[i]).0 != key) ==> #[trigger] key_sum(
            select,
            filter,
            e,
            recs,
            key,
        ) == 0
}

/// Summing per group: when grouping succeeds, each group's `sum(e)` is the
/// sum of the integer values of `e` over the records with that key that
/// pass the filter.
pub proof fn lemma_sum_per_group(select: Seq<ExprView>, filter: ExprView, e: ExprView, recs: Seq<Seq<ValueView>>)
    ensures
        group_all(select, filter, seq![(Aggregator::Sum, e)], recs) matches Ok(g) ==> sums_per_key(select, filter, e, recs, g),
    decreases recs.len(),
{
    let aggs = seq![(Aggregator::Sum, e)];
    if recs.len() > 0 {
        let prev = recs.drop_last();
        let rec = recs.last();
        lemma_sum_per_group(select, filter, e, prev);
        let pg = group_all(select, filter, aggs, prev);
        if group_all(select, filter, aggs, recs) is Ok {
            assert(pg is Ok);
            let g0 = pg->Ok_0;
            assert(sums_per_key(select, filter, e, prev, g0));
            let g = group_all(select, filter, aggs, recs)->Ok_0;
            assert(aggs.drop_last() =~= Seq::<(Aggregator, ExprView)>::empty());
            assert(aggs.last() == (Aggregator::Sum, e));
            if eval_spec(filter, rec) == Ok::<ValueView, EvalError>(ValueView::Bool(true)) {
                let key = eval_list(select, rec)->Ok_0;
                let v = eval_spec(e, rec)->Ok_0;
                let x: int = match v {
                    ValueView::Integer(x) => x as int,
                    _ => 0int,
                };
                lemma_group_position_found(g0, key);
                assert forall|k2: Seq<ValueView>| k2 != key implies #[trigger] key_sum(select, filter, e, recs, k2) == key_sum(select, filter, e, prev, k2) by {}
                assert(key_sum(select, filter, e, recs, key) == key_sum(select, filter, e, prev, key) + x);
                match group_position(g0, key) {
                    Some(i) => {
                        let c = key_sum(select, filter, e, prev, key);
                        assert(g0[i].1 == seq![ValueView::Integer(c as i64)]);
                        assert(g0[i].1[0] == ValueView::Integer(c as i64));
                        assert(fold_aggs(aggs.drop_last(), g0[i].1, rec) == Ok::<Seq<ValueView>, EvalError>(Seq::empty()));
                        assert(i64::MIN <= c + x <= i64::MAX);
                        assert(g == g0.update(i, (key, seq![ValueView::Integer((c + x) as i64)]))) by {
                            assert(Seq::<ValueView>::empty().push(ValueView::Integer((c + x) as i64)) =~= seq![ValueView::Integer((c + x) as i64)]);
                        }
                        assert forall|a: int, b: int| 0 <= a < b < g.len() implies (#[trigger] g[a]).0 != (#[trigger] g[b]).0 by {
                            assert(g[a].0 == g0[a].0 && g[b].0 == g0[b].0);
                        }
                        assert forall|k2: Seq<ValueView>| (forall|j: int| 0 <= j < g.len() ==> (#[trigger] g[j]).0 != k2) implies #[trigger] key_sum(select, filter, e, recs, k2) == 0 by {
                            assert(g[i].0 == key);
                            assert forall|j: int| 0 <= j < g0.len() implies (#[trigger] g0[j]).0 != k2 by {
                                assert(g[j].0 == g0[j].0);
                            }
                            assert(k2 != key);
                            assert(key_sum(select, filter, e, prev, k2) == 0);
                            assert(key_sum(select, filter, e, recs, k2) == key_sum(select, filter, e, prev, k2));
                        }
                    },
                    None => {
                        assert(zeros(1)[0] == ValueView::Integer(0));
                        assert(fold_aggs(aggs.drop_last(), zeros(1), rec) == Ok::<Seq<ValueView>, EvalError>(Seq::empty()));
                        assert(key_sum(select, filter, e, prev, key) == 0);
                        assert(g == g0.push((key, seq![ValueView::Integer(x as i64)]))) by {
                            assert(Seq::<ValueView>::empty().push(ValueView::Integer(x as i64)) =~= seq![ValueView::Integer(x as i64)]);
                        }
                        assert forall|a: int, b: int| 0 <= a < b < g.len() implies (#[trigger] g[a]).0 != (#[trigger] g[b]).0 by {
                            if b == g0.len() {
                                assert(g[a].0 == g0[a].0);
                            } else {
                                assert(g[a].0 == g0[a].0 && g[b].0 == g0[b].0);
                            }
                        }
                        assert forall|k2: Seq<ValueView>| (forall|j: int| 0 <= j < g.len() ==> (#[trigger] g[j]).0 != k2) implies #[trigger] key_sum(select, filter, e, recs, k2) == 0 by {
                            assert(g[g0.len() as int].0 == key);
                            assert forall|j: int| 0 <= j < g0.len() implies (#[trigger] g0[j]).0 != k2 by {
                                assert(g[j].0 == g0[j].0);
                            }
                            assert(k2 != key);
                            assert(key_sum(select, filter, e, prev, k2) == 0);
                            assert(key_sum(select, filter, e, recs, k2) == key_sum(select, filter, e, prev, k2));
                        }
                    },
                }
            } else {
                assert forall|k2: Seq<ValueView>| #[trigger] key_sum(select, filter, e, recs, k2) == key_sum(select, filter, e, prev, k2) by {}
            }
        }
    }
}

/// Counting: with no grouping key, `count(e)` is the number of records that
/// pass the filter (and no group exists where none does).
pub proof fn lemma_count_is_filtered_records(filter: ExprView, e: ExprView, recs: Seq<Seq<ValueView>>)
    ensures
        group_all(Seq::empty(), filter, seq![(Aggregator::Count, e)], recs) matches Ok(g) ==> {
            ||| g.len() == 0 && filter_count(filter, recs) == 0
            ||| g.len() == 1 && g[0].0 == Seq::<ValueView>::empty() && g[0].1.len() == 1 && (
            g[0].1[0] matches ValueView::Integer(c) && c == filter_count(filter, recs))
        },
    decreases recs.len(),
{
    if recs.len() > 0 {
        let prev = recs.drop_last();
        lemma_count_is_filtered_records(filter, e, prev);
        let pg = group_all(Seq::empty(), filter, seq![(Aggregator::Count, e)], prev);
        if pg is Ok {
            lemma_single_agg_step(filter, Aggregator::Count, e, pg->Ok_0, recs.last());
        }
    }
}

/// Summing: with no grouping key, `sum(e)` is the sum of the integer values
/// of `e` over the records that pass the filter.
pub proof fn lemma_sum_is_filtered_total(filter: ExprView, e: ExprView, recs: Seq<Seq<ValueView>>)
    ensures
        group_all(Seq::empty(), filter, seq![(Aggregator::Sum, e)], recs) matches Ok(g) ==> {
            ||| g.len() == 0 && filter_sum(filter, e, recs) == 0
            ||| g.len() == 1 && g[0].0 == Seq::<ValueView>::empty() && g[0].1.len() == 1 && (
            g[0].1[0] matches ValueView::Integer(s) && s == filter_sum(filter, e, recs))
        },
    decreases recs.len(),
{
    if recs.len() > 0 {
        let prev = recs.drop_last();
        lemma_sum_is_filtered_total(filter, e, prev);
        let pg = group_all(Seq::empty(), filter, seq![(Aggregator::Sum, e)], prev);
        if pg is Ok {
            lemma_single_agg_step(filter, Aggregator::Sum, e, pg->Ok_0, recs.last());
        }
    }
}

/// The positions `0..n` as column references.
pub open spec fn all_indices(n: nat) -> Seq<ExprView> {
    Seq::new(n, |j: int| ExprView::ColIndex(j as usize))
}

proof fn lemma_eval_indices(rec: Seq<ValueView>, k: nat)
    requires
        k <= rec.len(),
        rec.len() <= usize::MAX,
    ensures
        eval_list(all_indices(k), rec) == Ok::<Seq<ValueView>, EvalError>(rec.take(k as int)),
    decreases k,
{
    if k == 0 {
        assert(rec.take(0) =~= Seq::<ValueView>::empty());
    } else {
        lemma_eval_indices(rec, (k - 1) as nat);
        assert(all_indices(k).drop_last() =~= all_indices((k - 1) as nat));
        assert(rec.take(k - 1).push(rec[k - 1]) =~= rec.take(k as int));
    }
}

proof fn lemma_project_identity(sel: Seq<ExprView>, recs: Seq<Seq<ValueView>>)
    requires
        forall|r: int| 0 <= r < recs.len() ==> eval_list(sel, #[trigger] recs[r]) == Ok::<
            Seq<ValueView>,
            EvalError,
        >(recs[r]),
    ensures
        project_all(sel, ExprView::Const(ValueView::Bool(true)), recs) == Ok::<Seq<Seq<ValueView>>, EvalError>(recs),
    decreases recs.len(),
{
    if recs.len() > 0 {
        let prev = recs.drop_last();
        assert forall|r: int| 0 <= r < prev.len() implies eval_list(sel, #[trigger] prev[r]) == Ok::<
            Seq<ValueView>,
            EvalError,
        >(prev[r]) by {
            assert(prev[r] == recs[r]);
        }
        lemma_project_identity(sel, prev);
        assert(eval_list(sel, recs[recs.len() - 1]) == Ok::<Seq<ValueView>, EvalError>(recs.last()));
        assert(prev.push(recs.last()) =~= recs);
    } else {
        assert(recs =~= Seq::<Seq<ValueView>>::empty());
    }
}

proof fn lemma_compile_names(names: Seq<Seq<char>>, k: nat)
    requires
        strictly_sorted(names),
        k <= names.len(),
        names.len() <= usize::MAX,
    ensures
        compile_list(Seq::new(k, |j: int| ExprView::ColName(names[j])), names) == Ok::<
            Seq<ExprView>,
            Seq<char>,
        >(all_indices(k)),
    decreases k,
{
    if k > 0 {
        let es = Seq::new(k, |j: int| ExprView::ColName(names[j]));
        lemma_compile_names(names, (k - 1) as nat);
        assert(es.drop_last() =~= Seq::new((k - 1) as nat, |j: int| ExprView::ColName(names[j])));
        let n = names[k - 1];
        assert forall|i: int| 0 <= i < k - 1 implies names[i] != n by {
            assert(text_lt(names[i], names[k - 1]));
            lemma_text_lt_irreflexive(n);
        }
        lemma_position_of(names, n, k - 1);
        assert(es.last() == ExprView::ColName(n));
        assert(compile_spec(es.last(), names) == Ok::<ExprView, Seq<char>>(ExprView::ColIndex((k - 1) as usize)));
        assert(all_indices((k - 1) as nat).push(ExprView::ColIndex((k - 1) as usize)) =~= all_indices(k));
    } else {
        assert(all_indices(0) =~= Seq::<ExprView>::empty());
        assert(Seq::new(k, |j: int| ExprView::ColName(names[j])) =~= Seq::<ExprView>::empty());
    }
}

/// Projecting every column of a batch that `columnarize` built from
/// `records`, in column order and with a filter that always holds, gives
/// back the records in their order: row `r`, column `j` holds field
/// `names[j]` of record `r`, `Null` where the record lacks it.
pub proof fn lemma_select_all_round_trip(records: Seq<RecordType>, b: Batch, q: QueryView)
    requires
        b.cols@.len() <= usize::MAX,
        b.rows == records.len(),
        b.wf(),
        strictly_sorted(b.names()),
        forall|j: int|
            0 <= j < b.cols@.len() ==> (#[trigger] b.cols@[j]).values() == column_of(
                records,
                b.cols@[j].name@,
            ),
        q.select == Seq::new(b.cols@.len() as nat, |j: int| ExprView::ColName(b.names()[j])),
        q.filter == ExprView::Const(ValueView::Bool(true)),
        q.aggregate.len() == 0,
    ensures
        run_spec(q, seq![b]) == Ok::<Seq<Seq<ValueView>>, QueryErrorView>(
            Seq::new(
                records.len(),
                |r: int| Seq::new(b.cols@.len() as nat, |j: int| field_of(records[r]@, b.names()[j])),
            ),
        ),
{
    let names = b.names();
    let n = names.len();
    let bs = seq![b];
    let ncols = b.cols@.len();
    assert(is_name_union(names, bs)) by {
        assert forall|x: Seq<char>|
            names.contains(x) <==> exists|k: int| 0 <= k < bs.len() && (#[trigger] bs[k]).names().contains(x) by {
            if names.contains(x) {
                assert(bs[0].names().contains(x));
            }
        }
    }
    lemma_dataset_names(names, bs);
    lemma_compile_names(names, n);
    assert(compile_aggs(q.aggregate, names) == Ok::<Seq<(Aggregator, ExprView)>, Seq<char>>(Seq::empty()));
    let c = compile_query_spec(q, names)->Ok_0;
    assert(c.select == all_indices(n));
    let target = Seq::new(
        records.len(),
        |r: int| Seq::new(ncols as nat, |j: int| field_of(records[r]@, names[j])),
    );
    assert(bs.drop_last() =~= Seq::<Batch>::empty());
    assert(bs.last() == b);
    assert(dataset_records(Seq::<Batch>::empty(), names) == Seq::<Seq<ValueView>>::empty());
    assert(dataset_records(bs, names) =~= batch_records(b, names));
    assert forall|r: int| 0 <= r < records.len() implies layout_record(b, names, r) == #[trigger] target[r] by {
        assert forall|j: int| 0 <= j < n implies position_of(names, #[trigger] names[j]) == Some(j as usize) by {
            assert forall|i: int| 0 <= i < j implies names[i] != names[j] by {
                assert(text_lt(names[i], names[j]));
                lemma_text_lt_irreflexive(names[j]);
            }
            lemma_position_of(names, names[j], j);
        }
        assert forall|j: int| 0 <= j < n implies #[trigger] layout_record(b, names, r)[j] == target[r][j] by {
            assert(position_of(names, names[j]) == Some(j as usize));
            assert(b.cols@[j].values() == column_of(records, b.cols@[j].name@));
        }
        assert(layout_record(b, names, r) =~= target[r]);
    }
    let recs = batch_records(b, names);
    assert(recs =~= target);
    assert forall|r: int| 0 <= r < recs.len() implies eval_list(all_indices(n), #[trigger] recs[r]) == Ok::<
        Seq<ValueView>,
        EvalError,
    >(recs[r]) by {
        lemma_eval_indices(recs[r], n);
        assert(recs[r].take(n as int) =~= recs[r]);
    }
    lemma_project_identity(all_indices(n), recs);
}

impl Query {
    /// The query with every column name replaced by its position in
    /// `names`; the first unknown name (select list, then filter, then
    /// aggregates) is the error.
    pub fn compile(&self, names: &Vec<String>) -> (r: Result<Query, String>)
        ensures
            match r {
                Ok(c) => compile_query_spec(self@, texts_view(names@)) == Ok::<QueryView, Seq<char>>(c@),
                Err(n) => compile_query_spec(self@, texts_view(names@)) == Err::<QueryView, Seq<char>>(n@),
            },
    {
        let ghost tv = texts_view(names@);
        let ghost sv = exprs_view(self.select@);
        let ghost av = aggs_view(self.aggregate@);
        let mut select: Vec<Expr> = Vec::new();
        let mut i: usize = 0;
        assert(exprs_view(select@) =~= Seq::<ExprView>::empty());
        assert(sv.take(0) =~= Seq::<ExprView>::empty());
        while i < self.select.len()
            invariant
                i <= self.select@.len(),
                tv == texts_view(names@),
                sv == exprs_view(self.select@),
                compile_list(sv.take(i as int), tv) == Ok::<Seq<ExprView>, Seq<char>>(exprs_view(select@)),
            decreases self.select.len() - i,
        {
            assert(sv.take(i + 1).drop_last() =~= sv.take(i as int));
            assert(sv.take(i + 1).last() == self.select@[i as int]@);
            match self.select[i].compile(names) {
                Err(n) => {
                    proof {
                        lemma_compile_list_err(sv, tv, i + 1);
                    }
                    return Err(n);
                },
                Ok(c) => {
                    let ghost before = select@;
                    select.push(c);
                    assert(exprs_view(select@) =~= exprs_view(before).push(c@));
                },
            }
            i = i + 1;
        }
        assert(sv.take(i as int) =~= sv);
        let filter = match self.filter.compile(names) {
            Err(n) => return Err(n),
            Ok(f) => f,
        };
        let mut aggregate: Vec<(Aggregator, Expr)> = Vec::new();
        let mut i: usize = 0;
        assert(aggs_view(aggregate@) =~= Seq::<(Aggregator, ExprView)>::empty());
        assert(av.take(0) =~= Seq::<(Aggregator, ExprView)>::empty());
        while i < self.aggregate.len()
            invariant
                i <= self.aggregate@.len(),
                tv == texts_view(names@),
                sv == exprs_view(self.select@),
                av == aggs_view(self.aggregate@),
                compile_list(sv, tv) == Ok::<Seq<ExprView>, Seq<char>>(exprs_view(select@)),
                compile_spec(self.filter@, tv) == Ok::<ExprView, Seq<char>>(filter@),
                compile_aggs(av.take(i as int), tv) == Ok::<Seq<(Aggregator, ExprView)>, Seq<char>>(
                    aggs_view(aggregate@),
                ),
            decreases self.aggregate.len() - i,
        {
            assert(av.take(i + 1).drop_last() =~= av.take(i as int));
            assert(av.take(i + 1).last() == (self.aggregate@[i as int].0, self.aggregate@[i as int].1@));
            match self.aggregate[i].1.compile(names) {
                Err(n) => {
                    proof {
                        lemma_compile_aggs_err(av, tv, i + 1);
                    }
                    return Err(n);
                },
                Ok(c) => {
                    let ghost before = aggregate@;
                    let agg = self.aggregate[i].0;
                    aggregate.push((agg, c));
                    assert(aggs_view(aggregate@) =~= aggs_view(before).push((agg, c@)));
                },
            }
            i = i + 1;
        }
        assert(av.take(i as int) =~= av);
        Ok(Query { select, filter, aggregate })
    }

    /// The names of the output columns: select names, then aggregate names.
    pub fn result_column_names(&self) -> (names: Vec<String>)
        ensures
            texts_view(names@) == result_names(self@),
    {
        let ghost sv = exprs_view(self.select@);
        let ghost target = result_names(self@);
        let mut names: Vec<String> = Vec::new();
        let mut anon: usize = 0;
        let mut i: usize = 0;
        assert(sv.take(0) =~= Seq::<ExprView>::empty());
        while i < self.select.len()
            invariant
                i <= self.select@.len(),
                sv == exprs_view(self.select@),
                target == result_names(self@),
                anon <= i,
                anon == anon_count(sv.take(i as int)),
                names@.len() == i,
                forall|j: int| 0 <= j < i ==> (#[trigger] names@[j])@ == target[j],
            decreases self.select.len() - i,
        {
            assert(sv.take(i + 1).drop_last() =~= sv.take(i as int));
            assert(sv[i as int] == self.select@[i as int]@);
            match &self.select[i] {
                Expr::ColName(n) => {
                    names.push(n.clone());
                },
                _ => {
                    names.push(numbered("col_", anon));
                    anon = anon + 1;
                },
            }
            i = i + 1;
        }
        let ns = self.select.len();
        let mut a: usize = 0;
        while a < self.aggregate.len()
            invariant
                a <= self.aggregate@.len(),
                ns == self.select@.len(),
                target == result_names(self@),
                names@.len() == ns + a,
                forall|j: int| 0 <= j < ns + a ==> (#[trigger] names@[j])@ == target[j],
            decreases self.aggregate.len() - a,
        {
            match self.aggregate[a].0 {
                Aggregator::Count => {
                    names.push(numbered("count_", a));
                },
                Aggregator::Sum => {
                    names.push(numbered("sum_", a));
                },
            }
            a = a + 1;
        }
        assert(texts_view(names@) =~= target);
        names
    }

    /// Runs the query over a dataset. Column names are resolved against the
    /// union of the batches' columns; a batch without one of them reads
    /// `Null` there. A projection yields its rows in record order; an
    /// aggregation yields one row per group, key values then accumulators.
    pub fn run(&self, batches: &Vec<Batch>) -> (r: Result<(Vec<String>, Vec<Vec<Value>>), QueryError>)
        requires
            forall|k: int| 0 <= k < batches@.len() ==> (#[trigger] batches@[k]).wf(),
            query_by_name(self@),
        ensures
            match r {
                Ok((cols, rows)) => texts_view(cols@) == result_names(self@) && run_spec(self@, batches@)
                    == Ok::<Seq<Seq<ValueView>>, QueryErrorView>(rows_view(rows@)),
                Err(e) => run_spec(self@, batches@) == Err::<Seq<Seq<ValueView>>, QueryErrorView>(e@),
            },
    {
        let names = create_colname_map(batches);
        proof {
            lemma_dataset_names(texts_view(names@), batches@);
        }
        let cq = match self.compile(&names) {
            Err(n) => return Err(QueryError::UnknownColumn(n)),
            Ok(c) => c,
        };
        let nsel = self.select.len();
        let nagg = self.aggregate.len();
        let nn = names.len();
        proof {
            lemma_query_within(self@, texts_view(names@));
            assert forall|i: int| 0 <= i < cq.select@.len() implies compiled_within(
                #[trigger] cq.select@[i]@,
                names@.len(),
            ) by {
                assert(cq@.select[i] == cq.select@[i]@);
            }
            assert forall|i: int| 0 <= i < cq.aggregate@.len() implies compiled_within(
                #[trigger] cq.aggregate@[i].1@,
                names@.len(),
            ) by {
                assert(cq@.aggregate[i].1 == cq.aggregate@[i].1@);
            }
        }
        let cols = self.result_column_names();
        if self.aggregate.len() == 0 {
            match run_select_query(&cq.select, &cq.filter, batches, &names) {
                Ok(rows) => Ok((cols, rows)),
                Err(x) => Err(QueryError::Eval(x)),
            }
        } else {
            match run_aggregation_query(&cq.select, &cq.filter, &cq.aggregate, batches, &names) {
                Ok(rows) => Ok((cols, rows)),
                Err(x) => Err(QueryError::Eval(x)),
            }
        }
    }
}

} // verus!
