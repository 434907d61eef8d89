//! A verified execution core for relational record pipelines: typed rows of
//! nullable fields, stateless transforms, keyed associative reduction, an
//! incremental windowed scan, equi-joins with non-matching-null keys, and a
//! lazy operator graph run by one blocking call.

pub mod aggregate;
pub mod cell;
pub mod error;
pub mod expr;
pub mod join;
pub mod pipeline;
pub mod scan;
pub mod schema;
pub mod transform;
