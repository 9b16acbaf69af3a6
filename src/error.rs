//! The error values of the table's operations, of loading and of saving.
use vstd::prelude::*;

verus! {

/// Why a query or an edit of a table was refused.
#[derive(Debug, Clone, Copy, PartialEq, Eq, Structural)]
pub enum CSVError {
    /// A display range starts after it ends.
    IncorrectIndices,
    /// A row index is 0 or above the number of rows.
    InvalidRowIndex,
    /// A column index is 0 or above the number of columns.
    InvalidColIndex,
    /// The cell to clear already holds the placeholder.
    InvalidEntry,
    /// More fields or values were supplied than the edit needs.
    MoreEntriesThanRequired,
    /// Fewer fields or values were supplied than the edit needs.
    LessEntriesThanRequired,
    /// The tables to merge have different numbers of columns.
    InvalidDimensions,
}

pub open spec fn error_message(e: CSVError) -> Seq<char> {
    match e {
        CSVError::IncorrectIndices => "Start index greater than end index"@,
        CSVError::InvalidRowIndex => "Row with entered index doesn't exist"@,
        CSVError::InvalidColIndex => "Col with entered index doesn't exist"@,
        CSVError::InvalidEntry => "No item exists at supplied position"@,
        CSVError::MoreEntriesThanRequired => "More entries supplied than required"@,
        CSVError::LessEntriesThanRequired => "Less entries supplied than required. Use '_' for lack of entry"@,
        CSVError::InvalidDimensions => "Dimensions of specified files do not match. Cannot merge"@,
    }
}

impl CSVError {
    /// The sentence shown to the user for this error.
    pub fn message(&self) -> (r: String)
        ensures
            r@ == error_message(*self),
    {
        match self {
            CSVError::IncorrectIndices => String::from_str("Start index greater than end index"),
            CSVError::InvalidRowIndex => String::from_str("Row with entered index doesn't exist"),
            CSVError::InvalidColIndex => String::from_str("Col with entered index doesn't exist"),
            CSVError::InvalidEntry => String::from_str("No item exists at supplied position"),
            CSVError::MoreEntriesThanRequired => String::from_str("More entries supplied than required"),
            CSVError::LessEntriesThanRequired => String::from_str(
                "Less entries supplied than required. Use '_' for lack of entry",
            ),
            CSVError::InvalidDimensions => String::from_str(
                "Dimensions of specified files do not match. Cannot merge",
            ),
        }
    }
}

/// Why file content could not become a table.
#[derive(Debug, Clone, Copy, PartialEq, Eq, Structural)]
pub enum LoadError {
    /// The path does not end in `.csv`.
    NotCsvFile,
    /// The content, or its first line, is empty.
    EmptyFile,
    /// A data line does not have as many fields as the header.
    RaggedRow,
}

/// Why a table could not be saved.
#[derive(Debug, Clone, Copy, PartialEq, Eq, Structural)]
pub enum WriteError {
    /// The table has no columns.
    NoColumns,
    /// The target path does not end in `.csv`.
    NotCsvFile,
}

} // verus!
