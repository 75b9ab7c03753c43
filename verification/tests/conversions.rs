use sheet_excavator::conversions::{address_to_row_col, column_name_to_index, extract_filename};
use sheet_excavator::error::ErrorOf;

#[test]
fn column_names_count_from_zero() {
    assert_eq!(column_name_to_index("A"), Ok(0));
    assert_eq!(column_name_to_index("B"), Ok(1));
    assert_eq!(column_name_to_index("Z"), Ok(25));
    assert_eq!(column_name_to_index("AA"), Ok(26));
    assert_eq!(column_name_to_index("AZ"), Ok(51));
    assert_eq!(column_name_to_index("BA"), Ok(52));
    assert_eq!(column_name_to_index("XFD"), Ok(16383));
}

#[test]
fn column_names_ignore_case() {
    assert_eq!(column_name_to_index("aa"), column_name_to_index("AA"));
    assert_eq!(column_name_to_index("xFd"), Ok(16383));
}

#[test]
fn invalid_column_names_are_refused() {
    assert_eq!(column_name_to_index(""), Err(ErrorOf::InvalidColumnName(String::new())));
    assert_eq!(column_name_to_index("A1"), Err(ErrorOf::InvalidColumnName("A1".to_string())));
    assert_eq!(column_name_to_index("Ä"), Err(ErrorOf::InvalidColumnName("Ä".to_string())));
}

#[test]
fn addresses_give_row_and_column() {
    assert_eq!(address_to_row_col("A1"), Ok((1, 0)));
    assert_eq!(address_to_row_col("B12"), Ok((12, 1)));
    assert_eq!(address_to_row_col("AA100"), Ok((100, 26)));
}

#[test]
fn addresses_ignore_case() {
    assert_eq!(address_to_row_col("c3"), address_to_row_col("C3"));
    assert_eq!(address_to_row_col("d4"), Ok((4, 3)));
}

#[test]
fn invalid_addresses_are_refused() {
    for a in ["", "A", "12", "1A", "A1B", "A 1"] {
        assert_eq!(address_to_row_col(a), Err(ErrorOf::InvalidCellAddress(a.to_string())));
    }
}

#[test]
fn file_names_lose_directories_and_extension() {
    assert_eq!(extract_filename("/data/reports/school_a.xlsx"), "school_a");
    assert_eq!(extract_filename("C:\\data\\report.final.xls"), "report.final");
    assert_eq!(extract_filename("plain"), "plain");
    assert_eq!(extract_filename("dir/.hidden"), ".hidden");
    assert_eq!(extract_filename(""), "");
}
