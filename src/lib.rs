//! An in-memory editor for comma-separated tables: a header line, data
//! lines, cached column widths, and the queries and edits on them.
pub mod edit;
pub mod error;
pub mod laws;
pub mod order;
pub mod render;
pub mod table;
pub mod text;

pub use error::{CSVError, LoadError, WriteError};
pub use table::CSVFile;
