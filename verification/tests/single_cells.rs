use sheet_excavator::error::ErrorOf;
use sheet_excavator::json::{JsonMap, JsonValue};
use sheet_excavator::manipulations::{Cell, Sheet};
use sheet_excavator::single_cells::extract_values;

fn s(t: &str) -> JsonValue {
    JsonValue::Str(t.to_string())
}

fn map(pairs: Vec<(&str, JsonValue)>) -> JsonMap {
    JsonMap { entries: pairs.into_iter().map(|(k, v)| (k.to_string(), v)).collect() }
}

fn sheet(rows: Vec<Vec<Cell>>) -> Sheet {
    Sheet { start_row: 0, start_col: 0, rows }
}

fn example() -> Sheet {
    sheet(vec![
        vec![Cell::Str("Title".to_string()), Cell::Empty, Cell::Empty, Cell::Empty],
        vec![Cell::Empty, Cell::Int(5), Cell::Empty, Cell::Str(" 2024 ".to_string())],
    ])
}

#[test]
fn single_cells_by_address() {
    let ins = map(vec![("title", s("A1")), ("year", s("d2")), ("blank", s("B1")), ("far", s("Z99"))]);
    let out: Vec<(String, JsonValue)> = extract_values(&example(), &ins).unwrap().into_iter().collect();
    assert_eq!(
        out,
        vec![
            ("title".to_string(), s("Title")),
            ("year".to_string(), s("2024")),
            ("blank".to_string(), JsonValue::Null),
            ("far".to_string(), JsonValue::Null),
        ]
    );
}

#[test]
fn arrays_of_cells_keep_only_values() {
    let by_row_col = JsonValue::Object(map(vec![("row", JsonValue::Int(2)), ("col", JsonValue::Int(1))]));
    let ins = map(vec![("values", JsonValue::Array(vec![s("A1"), s("B1"), s("Z99"), by_row_col]))]);
    let out: Vec<(String, JsonValue)> = extract_values(&example(), &ins).unwrap().into_iter().collect();
    assert_eq!(out, vec![("values".to_string(), JsonValue::Array(vec![s("Title"), JsonValue::Int(5)]))]);
}

#[test]
fn single_cell_errors() {
    let sh = example();
    let missing_row = JsonValue::Object(map(vec![("col", JsonValue::Int(1))]));
    let missing_col = JsonValue::Object(map(vec![("row", JsonValue::Int(1))]));
    let ins = map(vec![("x", JsonValue::Array(vec![missing_row]))]);
    assert_eq!(extract_values(&sh, &ins).err(), Some(ErrorOf::MissingRow));
    let ins = map(vec![("x", JsonValue::Array(vec![missing_col]))]);
    assert_eq!(extract_values(&sh, &ins).err(), Some(ErrorOf::MissingCol));
    let ins = map(vec![("x", JsonValue::Int(3))]);
    assert_eq!(extract_values(&sh, &ins).err(), Some(ErrorOf::InvalidCellSpec));
    let ins = map(vec![("x", JsonValue::Array(vec![JsonValue::Bool(true)]))]);
    assert_eq!(extract_values(&sh, &ins).err(), Some(ErrorOf::InvalidCellSpec));
    let ins = map(vec![("ok", s("A1")), ("x", s("1A"))]);
    assert_eq!(extract_values(&sh, &ins).err(), Some(ErrorOf::InvalidCellAddress("1A".to_string())));
    let bad = sheet(vec![vec![Cell::Error]]);
    let ins = map(vec![("x", s("A1"))]);
    assert_eq!(extract_values(&bad, &ins).err(), Some(ErrorOf::CellError));
}
