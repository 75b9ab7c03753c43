use sheet_excavator::dataframe::{dataframe_config_ok, extract_dataframe};
use sheet_excavator::error::ErrorOf;
use sheet_excavator::json::{JsonMap, JsonValue};
use sheet_excavator::manipulations::{Cell, Sheet};

fn s(t: &str) -> JsonValue {
    JsonValue::Str(t.to_string())
}

fn n(i: i64) -> JsonValue {
    JsonValue::Int(i)
}

fn arr(v: Vec<JsonValue>) -> JsonValue {
    JsonValue::Array(v)
}

fn map(pairs: Vec<(&str, JsonValue)>) -> JsonMap {
    JsonMap { entries: pairs.into_iter().map(|(k, v)| (k.to_string(), v)).collect() }
}

fn t(x: &str) -> Cell {
    Cell::Str(x.to_string())
}

/// Two header rows over three columns, then two rows of grades.
fn grades() -> Sheet {
    Sheet {
        start_row: 0,
        start_col: 0,
        rows: vec![
            vec![t("Math"), t("Math"), t("Art")],
            vec![t("Score"), t("Grade"), t("Score")],
            vec![Cell::Int(90), t("A"), Cell::Int(70)],
            vec![Cell::Int(80), t("B"), Cell::Empty],
        ],
    }
}

#[test]
fn dataframe_is_column_oriented() {
    let ins = map(vec![
        ("row_range", arr(vec![n(3), n(4)])),
        ("column_range", arr(vec![s("A"), s("C")])),
        ("header_row", arr(vec![n(1), n(2)])),
        ("separator", s("/")),
    ]);
    let out: Vec<(String, JsonValue)> = extract_dataframe(&grades(), &ins).unwrap().into_iter().collect();
    assert_eq!(
        out,
        vec![
            ("Math/Score".to_string(), arr(vec![n(90), n(80)])),
            ("Math/Grade".to_string(), arr(vec![s("A"), s("B")])),
            ("Art/Score".to_string(), arr(vec![n(70), JsonValue::Null])),
        ]
    );
}

#[test]
fn dataframe_with_one_header_row_and_numeric_columns() {
    let ins = map(vec![
        ("row_range", arr(vec![n(3), n(3)])),
        ("column_range", arr(vec![n(1), n(2)])),
        ("header_row", n(2)),
    ]);
    let out: Vec<(String, JsonValue)> = extract_dataframe(&grades(), &ins).unwrap().into_iter().collect();
    assert_eq!(
        out,
        vec![("Grade".to_string(), arr(vec![s("A")])), ("Score".to_string(), arr(vec![n(70)]))]
    );
}

#[test]
fn equal_headers_keep_the_last_column() {
    let ins = map(vec![
        ("row_range", arr(vec![n(3), n(3)])),
        ("column_range", arr(vec![s("A"), s("C")])),
        ("header_row", n(2)),
    ]);
    let out: Vec<(String, JsonValue)> = extract_dataframe(&grades(), &ins).unwrap().into_iter().collect();
    assert_eq!(
        out,
        vec![("Score".to_string(), arr(vec![n(70)])), ("Grade".to_string(), arr(vec![s("A")]))]
    );
}

#[test]
fn dataframe_errors() {
    let sh = grades();
    let base = |pairs: Vec<(&str, JsonValue)>| {
        let mut all = vec![
            ("row_range", arr(vec![n(3), n(4)])),
            ("column_range", arr(vec![s("A"), s("B")])),
            ("header_row", n(1)),
        ];
        for (k, v) in pairs {
            all.retain(|(key, _)| *key != k);
            all.push((k, v));
        }
        map(all)
    };
    assert_eq!(extract_dataframe(&sh, &base(vec![("row_range", n(3))])).err(), Some(ErrorOf::MissingRowRange));
    assert_eq!(
        extract_dataframe(&sh, &base(vec![("column_range", s("A:B"))])).err(),
        Some(ErrorOf::MissingColumnRange)
    );
    assert_eq!(
        extract_dataframe(&sh, &base(vec![("column_range", arr(vec![]))])).err(),
        Some(ErrorOf::InvalidColumnRange)
    );
    assert_eq!(
        extract_dataframe(&sh, &base(vec![("column_range", arr(vec![s("A")]))])).err(),
        Some(ErrorOf::InvalidColumnRange)
    );
    assert_eq!(
        extract_dataframe(&sh, &base(vec![("column_range", arr(vec![JsonValue::Null, s("B")]))])).err(),
        Some(ErrorOf::InvalidStartColumn)
    );
    assert_eq!(
        extract_dataframe(&sh, &base(vec![("column_range", arr(vec![s("A"), JsonValue::Bool(false)]))])).err(),
        Some(ErrorOf::InvalidEndColumn)
    );
    assert_eq!(
        extract_dataframe(&sh, &base(vec![("column_range", arr(vec![s("A1"), s("B")]))])).err(),
        Some(ErrorOf::InvalidColumnName("A1".to_string()))
    );
    let mut no_header = base(vec![]);
    no_header.entries.retain(|(k, _)| k != "header_row");
    assert_eq!(extract_dataframe(&sh, &no_header).err(), Some(ErrorOf::MissingHeaderRow));
    assert_eq!(extract_dataframe(&sh, &base(vec![("header_row", s("1"))])).err(), Some(ErrorOf::InvalidHeaderRow));
}

#[test]
fn unreadable_numbers_are_detected() {
    let good = map(vec![
        ("row_range", arr(vec![n(1), n(2)])),
        ("column_range", arr(vec![n(0), s("B")])),
        ("header_row", arr(vec![n(1)])),
    ]);
    assert!(dataframe_config_ok(&good));
    let negative_header = map(vec![
        ("row_range", arr(vec![n(1), n(2)])),
        ("column_range", arr(vec![n(0), s("B")])),
        ("header_row", arr(vec![n(1), n(-1)])),
    ]);
    assert!(!dataframe_config_ok(&negative_header));
    let fractional_column = map(vec![
        ("row_range", arr(vec![n(1), n(2)])),
        ("column_range", arr(vec![JsonValue::Float("1.5".to_string()), s("B")])),
        ("header_row", n(1)),
    ]);
    assert!(!dataframe_config_ok(&fractional_column));
    assert!(dataframe_config_ok(&map(vec![])));
}
