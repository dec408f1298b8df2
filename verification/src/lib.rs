//! Core execution operators of a vectorized, columnar query engine:
//! a hash-based group-by aggregator, a bounded Top-K operator, and a
//! K-way sort-preserving merge, together with the row encoder, the
//! typed group-value builders and the expression utilities they rely on.

pub mod aggregate;
pub mod bridge;
pub mod builders;
pub mod data;
pub mod encoder;
pub mod error;
pub mod exprs;
pub mod guarantee;
pub mod lex;
pub mod merge;
pub mod topk;
