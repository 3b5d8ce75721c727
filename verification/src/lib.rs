//! An embedded single-node relational engine over an ordered byte-keyed
//! store: a persisted catalog of table schemas, a row codec, a predicate
//! evaluator, a type coercer, and a statement executor with a result cache.

pub mod cache;
pub mod catalog;
pub mod codec;
pub mod coerce;
pub mod executor;
pub mod expr;
pub mod filter;
pub mod keys;
pub mod laws;
pub mod like;
pub mod parser;
pub mod planner;
pub mod sort;
pub mod stmt;
pub mod storage;
pub mod text;
pub mod value;

pub use cache::ResultCache;
pub use catalog::Catalog;
pub use executor::{ExecutionResult, Executor};
pub use expr::{CmpOp, Expr, Operand};
pub use filter::ExpressionEvaluator;
pub use parser::Parser;
pub use planner::{Plan, Planner};
pub use stmt::{Column, OrderByClause, Row, SelectItem, Statement, TableSchema};
pub use storage::{StorageEngine, StorageError};
pub use value::{DataType, Decimal, Value};
