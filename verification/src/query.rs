//! Queries over map entries: field values, predicates, indexes, and a small SQL.

pub mod agg;
pub mod distributed;
pub mod exec;
pub mod index;
pub mod json;
pub mod partial_wire;
pub mod predicate;
pub mod rows;
pub mod sql;
pub mod sql_text;
pub mod token;
pub mod totals;
pub mod value;
