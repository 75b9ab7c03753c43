use vstd::prelude::*;

verus! {

/// Why an extraction failed. `S` is the type of the text a variant carries:
/// `String` in running code (`ExtractError`), `Seq<char>` in contracts (`ErrorSpec`).
#[derive(Debug, PartialEq)]
pub enum ErrorOf<S> {
    /// "Missing or invalid 'row_range'"
    MissingRowRange,
    /// "Missing 'start_row' in 'row_range'"
    MissingStartRow,
    /// "Missing 'end_row' in 'row_range'"
    MissingEndRow,
    /// "Missing 'columns'"
    MissingColumns,
    /// "Invalid column '{}' in columns spec"
    InvalidColumnInSpec(S),
    /// "Invalid value in column array at position {}: expected string"
    ColumnArrayNotString(usize),
    /// "Invalid column '{}'"
    InvalidColumn(S),
    /// "Column specification must be a string or array of strings"
    ColumnSpecType,
    /// "Invalid column '{}' in unique_id"
    InvalidUniqueIdColumn(S),
    /// "'unique_id' array cannot be empty"
    EmptyUniqueId,
    /// "Invalid value in 'unique_id' array at position {}: expected string"
    UniqueIdArrayNotString(usize),
    /// "'unique_id' must be a string or an array of strings"
    UniqueIdType,
    /// "Invalid column '{}' in 'stop_if_empty'"
    InvalidStopColumn(S),
    /// "Invalid value in 'stop_if_empty' array at position {}: expected string"
    StopArrayNotString(usize),
    /// "'mode' in 'stop_if_empty' must be a string"
    StopModeNotString,
    /// "'column' field required in 'stop_if_empty' when mode is 'column'"
    StopColumnRequiredForMode,
    /// "Invalid mode '{}' in 'stop_if_empty'. Must be 'row' or 'column'"
    InvalidStopMode(S),
    /// "'column' field required in 'stop_if_empty' object"
    StopColumnRequired,
    /// "'stop_if_empty' must be a string, array, or object"
    StopType,
    /// "'column' must be a string or array of strings"
    StopColumnType,
    /// "Error in cell"
    CellError,
    /// "Unsupported data type"
    UnsupportedDataType,
    /// "Invalid float value"
    InvalidFloat,
    /// "Invalid date/time value"
    InvalidDateTime,
    /// "Missing or invalid 'column_range'"
    MissingColumnRange,
    /// "Invalid 'column_range'"
    InvalidColumnRange,
    /// "Invalid 'start_column' format"
    InvalidStartColumn,
    /// "Invalid 'end_column' format"
    InvalidEndColumn,
    /// "Missing 'header_row'"
    MissingHeaderRow,
    /// "Invalid 'header_row' format"
    InvalidHeaderRow,
    /// "Missing 'row'"
    MissingRow,
    /// "Missing 'col'"
    MissingCol,
    /// "Invalid or missing row/column specification"
    InvalidCellSpec,
    /// "Invalid column name '{}'"
    InvalidColumnName(S),
    /// "Invalid cell address '{}'"
    InvalidCellAddress(S),
    /// "Extraction detail should be a JSON object"
    DetailNotObject,
    /// "Invalid sheet name"
    InvalidSheetName,
    /// "Invalid \"sheets\" value in extraction details"
    InvalidSheets,
    /// "Missing \"sheets\" key in extraction details"
    MissingSheets,
    /// "Missing or invalid \"extractions\" key in extraction details"
    MissingExtractions,
    /// "Each extraction should be a JSON object"
    ExtractionNotObject,
    /// "Missing 'function' key"
    MissingFunction,
    /// "Missing 'instructions' key"
    MissingInstructions,
}

pub type ExtractError = ErrorOf<String>;

pub type ErrorSpec = ErrorOf<Seq<char>>;

impl ErrorOf<String> {
    /// The model of an error: the same variant, its text taken by its view.
    pub open spec fn model(self) -> ErrorSpec {
        match self {
            ErrorOf::MissingRowRange => ErrorOf::MissingRowRange,
            ErrorOf::MissingStartRow => ErrorOf::MissingStartRow,
            ErrorOf::MissingEndRow => ErrorOf::MissingEndRow,
            ErrorOf::MissingColumns => ErrorOf::MissingColumns,
            ErrorOf::InvalidColumnInSpec(s) => ErrorOf::InvalidColumnInSpec(s@),
            ErrorOf::ColumnArrayNotString(i) => ErrorOf::ColumnArrayNotString(i),
            ErrorOf::InvalidColumn(s) => ErrorOf::InvalidColumn(s@),
            ErrorOf::ColumnSpecType => ErrorOf::ColumnSpecType,
            ErrorOf::InvalidUniqueIdColumn(s) => ErrorOf::InvalidUniqueIdColumn(s@),
            ErrorOf::EmptyUniqueId => ErrorOf::EmptyUniqueId,
            ErrorOf::UniqueIdArrayNotString(i) => ErrorOf::UniqueIdArrayNotString(i),
            ErrorOf::UniqueIdType => ErrorOf::UniqueIdType,
            ErrorOf::InvalidStopColumn(s) => ErrorOf::InvalidStopColumn(s@),
            ErrorOf::StopArrayNotString(i) => ErrorOf::StopArrayNotString(i),
            ErrorOf::StopModeNotString => ErrorOf::StopModeNotString,
            ErrorOf::StopColumnRequiredForMode => ErrorOf::StopColumnRequiredForMode,
            ErrorOf::InvalidStopMode(s) => ErrorOf::InvalidStopMode(s@),
            ErrorOf::StopColumnRequired => ErrorOf::StopColumnRequired,
            ErrorOf::StopType => ErrorOf::StopType,
            ErrorOf::StopColumnType => ErrorOf::StopColumnType,
            ErrorOf::CellError => ErrorOf::CellError,
            ErrorOf::UnsupportedDataType => ErrorOf::UnsupportedDataType,
            ErrorOf::InvalidFloat => ErrorOf::InvalidFloat,
            ErrorOf::InvalidDateTime => ErrorOf::InvalidDateTime,
            ErrorOf::MissingColumnRange => ErrorOf::MissingColumnRange,
            ErrorOf::InvalidColumnRange => ErrorOf::InvalidColumnRange,
            ErrorOf::InvalidStartColumn => ErrorOf::InvalidStartColumn,
            ErrorOf::InvalidEndColumn => ErrorOf::InvalidEndColumn,
            ErrorOf::MissingHeaderRow => ErrorOf::MissingHeaderRow,
            ErrorOf::InvalidHeaderRow => ErrorOf::InvalidHeaderRow,
            ErrorOf::MissingRow => ErrorOf::MissingRow,
            ErrorOf::MissingCol => ErrorOf::MissingCol,
            ErrorOf::InvalidCellSpec => ErrorOf::InvalidCellSpec,
            ErrorOf::InvalidColumnName(s) => ErrorOf::InvalidColumnName(s@),
            ErrorOf::InvalidCellAddress(s) => ErrorOf::InvalidCellAddress(s@),
            ErrorOf::DetailNotObject => ErrorOf::DetailNotObject,
            ErrorOf::InvalidSheetName => ErrorOf::InvalidSheetName,
            ErrorOf::InvalidSheets => ErrorOf::InvalidSheets,
            ErrorOf::MissingSheets => ErrorOf::MissingSheets,
            ErrorOf::MissingExtractions => ErrorOf::MissingExtractions,
            ErrorOf::ExtractionNotObject => ErrorOf::ExtractionNotObject,
            ErrorOf::MissingFunction => ErrorOf::MissingFunction,
            ErrorOf::MissingInstructions => ErrorOf::MissingInstructions,
        }
    }
}

} // verus!
