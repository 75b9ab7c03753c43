use sheet_excavator::error::ErrorOf;
use sheet_excavator::json::JsonValue;
use sheet_excavator::manipulations::{
    extract_cell_value, extract_column_data, extract_headers, Cell, FloatText, Sheet,
};

fn text(t: &str) -> Cell {
    Cell::Str(t.to_string())
}

fn float(display: &str, json: Option<&str>) -> Cell {
    Cell::Float(FloatText { display: display.to_string(), json: json.map(|j| j.to_string()) })
}

/// A sheet whose first row is `rows[0]` and first column is "A".
fn sheet(rows: Vec<Vec<Cell>>) -> Sheet {
    Sheet { start_row: 0, start_col: 0, rows }
}

#[test]
fn cell_values_by_kind() {
    let sh = sheet(vec![vec![
        Cell::Empty,
        Cell::Int(42),
        float("2.5", Some("2.5")),
        Cell::Bool(true),
        text("  padded  "),
        Cell::DateTime(Some("2024-01-31 00:00:00".to_string())),
        Cell::DurationIso("PT1H".to_string()),
    ]]);
    assert_eq!(extract_cell_value(&sh, 1, 0, false), Ok((Some(JsonValue::Null), "Null".to_string())));
    assert_eq!(extract_cell_value(&sh, 1, 1, false), Ok((Some(JsonValue::Int(42)), "Int".to_string())));
    assert_eq!(
        extract_cell_value(&sh, 1, 2, false),
        Ok((Some(JsonValue::Float("2.5".to_string())), "Float".to_string()))
    );
    assert_eq!(extract_cell_value(&sh, 1, 3, false), Ok((Some(JsonValue::Bool(true)), "Bool".to_string())));
    assert_eq!(
        extract_cell_value(&sh, 1, 4, false),
        Ok((Some(JsonValue::Str("padded".to_string())), "String".to_string()))
    );
    assert_eq!(
        extract_cell_value(&sh, 1, 5, false),
        Ok((Some(JsonValue::Str("2024-01-31 00:00:00".to_string())), "DateTime".to_string()))
    );
    assert_eq!(
        extract_cell_value(&sh, 1, 6, false),
        Ok((Some(JsonValue::Str("PT1H".to_string())), "DurationIso".to_string()))
    );
}

#[test]
fn cells_outside_the_sheet_have_no_value() {
    let sh = Sheet { start_row: 2, start_col: 1, rows: vec![vec![Cell::Int(7)]] };
    assert_eq!(extract_cell_value(&sh, 3, 1, false), Ok((Some(JsonValue::Int(7)), "Int".to_string())));
    assert_eq!(extract_cell_value(&sh, 1, 0, false), Ok((None, "Null".to_string())));
    assert_eq!(extract_cell_value(&sh, 4, 1, false), Ok((None, "Null".to_string())));
    assert_eq!(extract_cell_value(&sh, 3, 2, false), Ok((None, "Null".to_string())));
    assert_eq!(extract_cell_value(&sh, 0, 1, false), Ok((None, "Null".to_string())));
}

#[test]
fn forced_text_of_each_kind() {
    let sh = sheet(vec![vec![
        Cell::Empty,
        Cell::Int(-17),
        float("0.1", Some("0.1")),
        Cell::Bool(false),
        text(" a b "),
        Cell::DateTime(Some("2020-02-29 12:00:00".to_string())),
        Cell::DurationIso("P2D".to_string()),
    ]]);
    let expect = ["Null", "-17", "0.1", "false", "a b", "2020-02-29 12:00:00", "P2D"];
    for (col, t) in expect.iter().enumerate() {
        assert_eq!(
            extract_cell_value(&sh, 1, col as u32, true),
            Ok((Some(JsonValue::Str(t.to_string())), t.to_string()))
        );
    }
}

#[test]
fn cell_errors() {
    let sh = sheet(vec![vec![
        Cell::Error,
        float("NaN", None),
        Cell::DateTime(None),
        Cell::DateTimeIso("2024-01-01T00:00:00".to_string()),
    ]]);
    assert_eq!(extract_cell_value(&sh, 1, 0, false), Err(ErrorOf::CellError));
    assert_eq!(extract_cell_value(&sh, 1, 1, false), Err(ErrorOf::InvalidFloat));
    assert_eq!(extract_cell_value(&sh, 1, 2, false), Err(ErrorOf::InvalidDateTime));
    assert_eq!(extract_cell_value(&sh, 1, 3, false), Err(ErrorOf::UnsupportedDataType));
    assert_eq!(extract_cell_value(&sh, 1, 0, true), Err(ErrorOf::CellError));
    assert_eq!(
        extract_cell_value(&sh, 1, 1, true),
        Ok((Some(JsonValue::Str("NaN".to_string())), "NaN".to_string()))
    );
    assert_eq!(extract_cell_value(&sh, 1, 2, true), Err(ErrorOf::InvalidDateTime));
    assert_eq!(extract_cell_value(&sh, 1, 3, true), Err(ErrorOf::UnsupportedDataType));
}

#[test]
fn multi_row_headers_are_joined() {
    let sh = sheet(vec![
        vec![Cell::Empty],
        vec![text("Math")],
        vec![text("Score")],
        vec![text("(100)")],
    ]);
    assert_eq!(extract_headers(&sh, &[2, 3, 4], 0, " "), Ok("Math Score (100)".to_string()));
    assert_eq!(extract_headers(&sh, &[2, 4], 0, "|"), Ok("Math|(100)".to_string()));
    assert_eq!(extract_headers(&sh, &[], 0, " "), Ok(String::new()));
}

#[test]
fn header_line_breaks_become_spaces() {
    let sh = sheet(vec![vec![text("Total\r\namount\nin\rNOK")], vec![Cell::Int(3)]]);
    assert_eq!(extract_headers(&sh, &[1, 2, 9], 0, "-"), Ok("Total amount in NOK-3-Null".to_string()));
}

#[test]
fn header_errors() {
    let sh = sheet(vec![vec![text("ok")], vec![Cell::Error]]);
    assert_eq!(extract_headers(&sh, &[1, 2], 0, " "), Err(ErrorOf::CellError));
}

#[test]
fn column_data_fills_missing_cells_with_null() {
    let sh = sheet(vec![vec![Cell::Int(1)], vec![Cell::Empty], vec![text("x")]]);
    assert_eq!(
        extract_column_data(&sh, 0, 1, 4),
        Ok(JsonValue::Array(vec![
            JsonValue::Int(1),
            JsonValue::Null,
            JsonValue::Str("x".to_string()),
            JsonValue::Null
        ]))
    );
    assert_eq!(extract_column_data(&sh, 0, 3, 2), Ok(JsonValue::Array(vec![])));
    let bad = sheet(vec![vec![Cell::Error]]);
    assert_eq!(extract_column_data(&bad, 0, 1, 1), Err(ErrorOf::CellError));
}
