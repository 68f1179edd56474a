//! A spreadsheet evaluation engine: cells addressed by (row, column)
//! coordinates hold numbers, text, or formulas; formulas are parsed into
//! expression trees, the dependency edges they induce are kept symmetric,
//! cycles are rejected, and evaluation caches each computed result.

pub mod cell;
pub mod error;
pub mod eval;
pub mod graph;
pub mod laws;
pub mod parser;
pub mod sheet;
mod table;
