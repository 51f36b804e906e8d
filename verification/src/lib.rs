//! A small query engine for JSON documents.
//!
//! A path expression such as `a.0.*.name` is split into navigation steps by
//! [`parse_expression`]; [`filter`] walks a [`Value`] along those steps and
//! returns the sub-value they select, or the [`FilterError`] that stopped it.

pub mod error;
pub mod evaluator;
pub mod index;
pub mod query;
pub mod token;
pub mod value;

pub use crate::error::FilterError;
pub use crate::evaluator::filter;
pub use crate::index::parse_index;
pub use crate::query::select;
pub use crate::token::{parse_expression, Token};
pub use crate::value::Value;
