use vstd::prelude::*;

use crate::value::{texts_view, values_view, Value, ValueView};

verus! {

/// The binary functions an expression can apply.
#[derive(PartialEq, Eq, Structural, Clone, Copy, Debug)]
pub enum FuncType {
    Equals,
    LT,
    GT,
    And,
    Or,
}

/// Why evaluating an expression or folding an aggregate failed.
#[derive(PartialEq, Eq, Structural, Clone, Copy, Debug)]
pub enum EvalError {
    /// The function cannot take operands of these variants.
    TypeMismatch(FuncType),
    /// A sum met a value that is neither an integer nor `Null`.
    NotAnInteger,
    /// An integer result does not fit in 64 bits.
    Overflow,
}

/// An expression over one record. `ColName` refers to a column by name
/// before compilation; `ColIndex` by position after it.
#[derive(Debug)]
pub enum Expr {
    Const(Value),
    ColName(String),
    ColIndex(usize),
    Func(FuncType, Box<Expr>, Box<Expr>),
}

/// The mathematical model of an `Expr`.
pub ghost enum ExprView {
    Const(ValueView),
    ColName(Seq<char>),
    ColIndex(usize),
    Func(FuncType, Box<ExprView>, Box<ExprView>),
}

pub open spec fn expr_view(e: &Expr) -> ExprView
    decreases e,
{
    match e {
        Expr::Const(v) => ExprView::Const(v@),
        Expr::ColName(n) => ExprView::ColName(n@),
        Expr::ColIndex(i) => ExprView::ColIndex(*i),
        Expr::Func(f, a, b) => ExprView::Func(*f, Box::new(expr_view(a)), Box::new(expr_view(b))),
    }
}

impl View for Expr {
    type V = ExprView;

    open spec fn view(&self) -> ExprView {
        expr_view(self)
    }
}

/// Whether `e` refers to columns by position only, each below `n`.
pub open spec fn compiled_within(e: ExprView, n: nat) -> bool
    decreases e,
{
    match e {
        ExprView::Const(_) => true,
        ExprView::ColName(_) => false,
        ExprView::ColIndex(i) => i < n,
        ExprView::Func(_, a, b) => compiled_within(*a, n) && compiled_within(*b, n),
    }
}

/// `f` applied to two evaluated operands.
pub open spec fn apply_spec(f: FuncType, a: ValueView, b: ValueView) -> Result<ValueView, EvalError> {
    match f {
        FuncType::Equals => match (a, b) {
            (ValueView::Null, _) => Ok(ValueView::Bool(a == b)),
            (_, ValueView::Null) => Ok(ValueView::Bool(a == b)),
            (ValueView::Bool(_), ValueView::Bool(_)) => Ok(ValueView::Bool(a == b)),
            (ValueView::Integer(_), ValueView::Integer(_)) => Ok(ValueView::Bool(a == b)),
            (ValueView::Timestamp(_), ValueView::Timestamp(_)) => Ok(ValueView::Bool(a == b)),
            (ValueView::Str(_), ValueView::Str(_)) => Ok(ValueView::Bool(a == b)),
            (ValueView::StrSet(_), ValueView::StrSet(_)) => Ok(ValueView::Bool(a == b)),
            _ => Err(EvalError::TypeMismatch(f)),
        },
        FuncType::LT => match (a, b) {
            (ValueView::Integer(x), ValueView::Integer(y)) => Ok(ValueView::Bool(x < y)),
            (ValueView::Timestamp(x), ValueView::Timestamp(y)) => Ok(ValueView::Bool(x < y)),
            _ => Err(EvalError::TypeMismatch(f)),
        },
        FuncType::GT => match (a, b) {
            (ValueView::Integer(x), ValueView::Integer(y)) => Ok(ValueView::Bool(x > y)),
            (ValueView::Timestamp(x), ValueView::Timestamp(y)) => Ok(ValueView::Bool(x > y)),
            _ => Err(EvalError::TypeMismatch(f)),
        },
        FuncType::And => match (a, b) {
            (ValueView::Bool(x), ValueView::Bool(y)) => Ok(ValueView::Bool(x && y)),
            _ => Err(EvalError::TypeMismatch(f)),
        },
        FuncType::Or => match (a, b) {
            (ValueView::Bool(x), ValueView::Bool(y)) => Ok(ValueView::Bool(x || y)),
            _ => Err(EvalError::TypeMismatch(f)),
        },
    }
}

/// The value of a compiled expression on a record; the left operand is
/// evaluated first, and the first error met is the result.
pub open spec fn eval_spec(e: ExprView, rec: Seq<ValueView>) -> Result<ValueView, EvalError>
    decreases e,
{
    match e {
        ExprView::Const(v) => Ok(v),
        ExprView::ColName(_) => Ok(ValueView::Null),
        ExprView::ColIndex(i) => Ok(rec[i as int]),
        ExprView::Func(f, a, b) => match eval_spec(*a, rec) {
            Err(x) => Err(x),
            Ok(va) => match eval_spec(*b, rec) {
                Err(x) => Err(x),
                Ok(vb) => apply_spec(f, va, vb),
            },
        },
    }
}

/// The model of an evaluation result.
pub open spec fn result_view(r: Result<Value, EvalError>) -> Result<ValueView, EvalError> {
    match r {
        Ok(v) => Ok(v@),
        Err(x) => Err(x),
    }
}

/// The first position of `n` in `names`.
pub open spec fn position_of(names: Seq<Seq<char>>, n: Seq<char>) -> Option<usize>
    decreases names.len(),
{
    if names.len() == 0 {
        None
    } else if names[0] == n {
        Some(0)
    } else {
        match position_of(names.drop_first(), n) {
            Some(i) => Some((i + 1) as usize),
            None => None,
        }
    }
}

pub proof fn lemma_position_of(names: Seq<Seq<char>>, n: Seq<char>, i: int)
    requires
        0 <= i <= names.len(),
        names.len() <= usize::MAX,
        forall|j: int| 0 <= j < i ==> names[j] != n,
    ensures
        i < names.len() && names[i] == n ==> position_of(names, n) == Some(i as usize),
        i == names.len() ==> position_of(names, n) is None,
    decreases i,
{
    if i > 0 {
        lemma_position_of(names.drop_first(), n, i - 1);
    }
}

/// Compiling `e` against the column names `names`: each `ColName` becomes
/// the `ColIndex` of the name's first position; the first name not found,
/// left to right, is the error.
pub open spec fn compile_spec(e: ExprView, names: Seq<Seq<char>>) -> Result<ExprView, Seq<char>>
    decreases e,
{
    match e {
        ExprView::Const(v) => Ok(ExprView::Const(v)),
        ExprView::ColName(n) => match position_of(names, n) {
            Some(i) => Ok(ExprView::ColIndex(i)),
            None => Err(n),
        },
        ExprView::ColIndex(i) => Ok(ExprView::ColIndex(i)),
        ExprView::Func(f, a, b) => match compile_spec(*a, names) {
            Err(n) => Err(n),
            Ok(ca) => match compile_spec(*b, names) {
                Err(n) => Err(n),
                Ok(cb) => Ok(ExprView::Func(f, Box::new(ca), Box::new(cb))),
            },
        },
    }
}

/// A compiled expression refers to columns by position only, and only to
/// positions that exist.
pub proof fn lemma_compiled_within(e: ExprView, names: Seq<Seq<char>>, n: nat)
    requires
        compile_spec(e, names) is Ok,
        names.len() <= n,
        names.len() <= usize::MAX,
        no_index(e),
    ensures
        compiled_within(compile_spec(e, names)->Ok_0, n),
    decreases e,
{
    match e {
        ExprView::ColName(m) => {
            lemma_position_bound(names, m);
        },
        ExprView::Func(_, a, b) => {
            lemma_compiled_within(*a, names, n);
            lemma_compiled_within(*b, names, n);
        },
        _ => {},
    }
}

pub proof fn lemma_position_bound(names: Seq<Seq<char>>, n: Seq<char>)
    requires
        names.len() <= usize::MAX,
    ensures
        position_of(names, n) matches Some(i) ==> i < names.len() && names[i as int] == n,
    decreases names.len(),
{
    if names.len() > 0 {
        lemma_position_bound(names.drop_first(), n);
    }
}

/// Whether `e` refers to columns by name only, as a query written by a user
/// does.
pub open spec fn no_index(e: ExprView) -> bool
    decreases e,
{
    match e {
        ExprView::ColIndex(_) => false,
        ExprView::Func(_, a, b) => no_index(*a) && no_index(*b),
        _ => true,
    }
}

/// The position of `n` in `names`, if any.
pub fn find_column(names: &Vec<String>, n: &String) -> (r: Option<usize>)
    ensures
        r == position_of(texts_view(names@), n@),
{
    let ghost tv = texts_view(names@);
    let mut i: usize = 0;
    while i < names.len()
        invariant
            i <= names@.len(),
            tv == texts_view(names@),
            forall|j: int| 0 <= j < i ==> tv[j] != n@,
        decreases names.len() - i,
    {
        if names[i] == *n {
            proof {
                lemma_position_of(tv, n@, i as int);
            }
            return Some(i);
        }
        i = i + 1;
    }
    proof {
        lemma_position_of(tv, n@, i as int);
    }
    None
}

/// Compiling one expression twice against the same names gives
/// structurally identical results: the same expression, or the same unknown
/// name.
pub proof fn lemma_compile_twice(e: Expr, names: Seq<String>, r1: Result<Expr, String>, r2: Result<Expr, String>)
    requires
        match r1 {
            Ok(c) => compile_spec(e@, texts_view(names)) == Ok::<ExprView, Seq<char>>(c@),
            Err(n) => compile_spec(e@, texts_view(names)) == Err::<ExprView, Seq<char>>(n@),
        },
        match r2 {
            Ok(c) => compile_spec(e@, texts_view(names)) == Ok::<ExprView, Seq<char>>(c@),
            Err(n) => compile_spec(e@, texts_view(names)) == Err::<ExprView, Seq<char>>(n@),
        },
    ensures
        r1 is Ok <==> r2 is Ok,
        r1 is Ok ==> r1->Ok_0@ == r2->Ok_0@,
        r1 is Err ==> r1->Err_0@ == r2->Err_0@,
{
}

impl Expr {
    /// A column reference by name.
    pub fn col(name: &str) -> (e: Expr)
        ensures
            e@ == ExprView::ColName(name@),
    {
        Expr::ColName(name.to_string())
    }

    /// `f` applied to `a` and `b`.
    pub fn func(f: FuncType, a: Expr, b: Expr) -> (e: Expr)
        ensures
            e@ == ExprView::Func(f, Box::new(a@), Box::new(b@)),
    {
        Expr::Func(f, Box::new(a), Box::new(b))
    }

    /// This expression with every column name replaced by its position in
    /// `names`; the first unknown name, left to right, is the error.
    pub fn compile(&self, names: &Vec<String>) -> (r: Result<Expr, String>)
        ensures
            match r {
                Ok(c) => compile_spec(self@, texts_view(names@)) == Ok::<ExprView, Seq<char>>(c@),
                Err(n) => compile_spec(self@, texts_view(names@)) == Err::<ExprView, Seq<char>>(n@),
            },
        decreases self,
    {
        match self {
            Expr::Const(v) => Ok(Expr::Const(v.duplicate())),
            Expr::ColName(n) => match find_column(names, n) {
                Some(i) => Ok(Expr::ColIndex(i)),
                None => Err(n.clone()),
            },
            Expr::ColIndex(i) => Ok(Expr::ColIndex(*i)),
            Expr::Func(f, a, b) => match a.compile(names) {
                Err(n) => Err(n),
                Ok(ca) => match b.compile(names) {
                    Err(n) => Err(n),
                    Ok(cb) => Ok(Expr::Func(*f, Box::new(ca), Box::new(cb))),
                },
            },
        }
    }

    /// The value of this compiled expression on `record`.
    pub fn eval(&self, record: &Vec<Value>) -> (r: Result<Value, EvalError>)
        requires
            compiled_within(self@, record@.len()),
        ensures
            result_view(r) == eval_spec(self@, values_view(record@)),
        decreases self,
    {
        match self {
            Expr::Const(v) => Ok(v.duplicate()),
            Expr::ColName(_) => Ok(Value::Null),
            Expr::ColIndex(i) => Ok(record[*i].duplicate()),
            Expr::Func(f, a, b) => match a.eval(record) {
                Err(x) => Err(x),
                Ok(va) => match b.eval(record) {
                    Err(x) => Err(x),
                    Ok(vb) => apply(*f, &va, &vb),
                },
            },
        }
    }
}

/// `f` applied to two evaluated operands.
pub fn apply(f: FuncType, a: &Value, b: &Value) -> (r: Result<Value, EvalError>)
    ensures
        result_view(r) == apply_spec(f, a@, b@),
{
    match f {
        FuncType::Equals => {
            if a.kind() == b.kind() || matches!(a, Value::Null) || matches!(b, Value::Null) {
                Ok(Value::Bool(a.equals(b)))
            } else {
                Err(EvalError::TypeMismatch(f))
            }
        },
        FuncType::LT => match (a, b) {
            (Value::Integer(x), Value::Integer(y)) => Ok(Value::Bool(*x < *y)),
            (Value::Timestamp(x), Value::Timestamp(y)) => Ok(Value::Bool(*x < *y)),
            _ => Err(EvalError::TypeMismatch(f)),
        },
        FuncType::GT => match (a, b) {
            (Value::Integer(x), Value::Integer(y)) => Ok(Value::Bool(*x > *y)),
            (Value::Timestamp(x), Value::Timestamp(y)) => Ok(Value::Bool(*x > *y)),
            _ => Err(EvalError::TypeMismatch(f)),
        },
        FuncType::And => match (a, b) {
            (Value::Bool(x), Value::Bool(y)) => Ok(Value::Bool(*x && *y)),
            _ => Err(EvalError::TypeMismatch(f)),
        },
        FuncType::Or => match (a, b) {
            (Value::Bool(x), Value::Bool(y)) => Ok(Value::Bool(*x || *y)),
            _ => Err(EvalError::TypeMismatch(f)),
        },
    }
}

} // verus!
