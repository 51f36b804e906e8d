//! A whole query: a document and, perhaps, a path expression.

use crate::error::FilterError;
use crate::evaluator::{evaluate, filter, outcome};
use crate::token::{parse_expression, tokenize};
use crate::value::Value;
use vstd::prelude::*;

verus! {

/// Answers a query on `data`. Without an expression `data` itself comes
/// back, untouched. With one, the answer is what the steps of the expression
/// lead to; the empty expression is an expression like any other, with one
/// step, a key with no text.
pub fn select(data: Value, expression: Option<&str>) -> (result: Result<Value, FilterError>)
    ensures
        expression is None ==> result == Ok::<Value, FilterError>(data),
        expression matches Some(text) ==> outcome(result) == evaluate(data@, tokenize(text@)),
{
    match expression {
        Some(text) => filter(&data, parse_expression(text)),
        None => Ok(data),
    }
}

} // verus!
