//! Delimited text ingestion into string-backed columnar tables with
//! on-demand typed casting.

pub mod error;
pub mod field;
pub mod datatable;
pub mod loader;
