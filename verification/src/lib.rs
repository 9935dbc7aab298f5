//! Decomposition of tabular and structured text (CSV, TSV, JSON) into tiles
//! that can be filtered, sorted, summarised and written back out.
pub mod text;
pub mod csv;
pub mod value;
pub mod tile;
pub mod decompose;
pub mod query;
pub mod sorting;
pub mod summary;
pub mod output;
pub mod roundtrip;
pub mod json;
pub mod json_tree;
pub mod json_out;

pub use crate::decompose::DataDecomposer;
pub use crate::query::{Aggregation, FilterOp};
pub use crate::tile::{CountMap, DataKind, DataStats, DataTile, TextMap};
pub use crate::value::{FieldMap, Order, Value};
