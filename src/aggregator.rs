use vstd::prelude::*;

use crate::expression::{result_view, EvalError};
use crate::value::{Value, ValueView};

verus! {

/// An aggregate function: a fold with a starting value and a step.
#[derive(PartialEq, Eq, Structural, Clone, Copy, Debug)]
pub enum Aggregator {
    Count,
    Sum,
}

/// One step of the fold of `agg`: the accumulator `acc` after value `v`.
pub open spec fn reduce_spec(agg: Aggregator, acc: ValueView, v: ValueView) -> Result<ValueView, EvalError> {
    match agg {
        Aggregator::Count => match acc {
            ValueView::Integer(a) => if a < i64::MAX {
                Ok(ValueView::Integer((a + 1) as i64))
            } else {
                Err(EvalError::Overflow)
            },
            _ => Err(EvalError::NotAnInteger),
        },
        Aggregator::Sum => match v {
            ValueView::Null => Ok(acc),
            ValueView::Integer(i) => match acc {
                ValueView::Integer(a) => if i64::MIN <= a + i <= i64::MAX {
                    Ok(ValueView::Integer((a + i) as i64))
                } else {
                    Err(EvalError::Overflow)
                },
                _ => Err(EvalError::NotAnInteger),
            },
            _ => Err(EvalError::NotAnInteger),
        },
    }
}

impl Aggregator {
    /// The starting accumulator, `Integer(0)` for both kinds.
    pub fn zero(&self) -> (r: Value)
        ensures
            r@ == ValueView::Integer(0),
    {
        Value::Integer(0)
    }

    /// The accumulator after one more value: a count goes up by one whatever
    /// the value; a sum adds an integer and passes over `Null`.
    pub fn reduce(&self, acc: &Value, v: &Value) -> (r: Result<Value, EvalError>)
        ensures
            result_view(r) == reduce_spec(*self, acc@, v@),
    {
        match self {
            Aggregator::Count => match acc {
                Value::Integer(a) => if *a < i64::MAX {
                    Ok(Value::Integer(*a + 1))
                } else {
                    Err(EvalError::Overflow)
                },
                _ => Err(EvalError::NotAnInteger),
            },
            Aggregator::Sum => match v {
                Value::Null => Ok(acc.duplicate()),
                Value::Integer(i) => match acc {
                    Value::Integer(a) => match a.checked_add(*i) {
                        Some(s) => Ok(Value::Integer(s)),
                        None => Err(EvalError::Overflow),
                    },
                    _ => Err(EvalError::NotAnInteger),
                },
                _ => Err(EvalError::NotAnInteger),
            },
        }
    }
}

} // verus!
