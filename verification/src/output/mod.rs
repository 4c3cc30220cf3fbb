//! Rendering of benchmark results: unit suffixes and number text, CSV and
//! the terminal table.

pub mod csv;
pub mod fmt;
pub mod table;
pub mod render;
