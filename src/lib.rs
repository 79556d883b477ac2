//! A composition engine for analytics queries over a frozen snapshot of
//! repository metadata: grouping, aggregation, filtering, stable sorting,
//! representative sampling and flattening, each with an exact contract.

pub mod rational;
pub mod group;
pub mod order;
pub mod sample;
pub mod aggregate;
pub mod filter;
pub mod model;
pub mod query;
pub mod export;
