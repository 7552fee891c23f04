//! An in-memory columnar engine for semi-structured records: records are
//! transposed into typed columns (`columns`), and queried with projection,
//! filtering and grouped aggregation (`query_engine`) written as compiled
//! expressions (`expression`, `aggregator`) or as query text (`parser`).
use vstd::prelude::*;

pub mod aggregator;
pub mod columns;
pub mod csv;
pub mod expression;
pub mod parser;
pub mod query_engine;
pub mod value;

verus! {

} // verus!
