use sheet_excavator::error::ErrorOf;
use sheet_excavator::json::{JsonMap, JsonValue};
use sheet_excavator::manipulations::{Cell, Sheet};
use sheet_excavator::multirow_patterns::extract_rows;
use sheet_excavator::parsed_config::ParsedMultirowConfig;

fn s(t: &str) -> JsonValue {
    JsonValue::Str(t.to_string())
}

fn n(i: i64) -> JsonValue {
    JsonValue::Int(i)
}

fn arr(v: Vec<JsonValue>) -> JsonValue {
    JsonValue::Array(v)
}

fn map(pairs: Vec<(&str, JsonValue)>) -> JsonMap {
    JsonMap { entries: pairs.into_iter().map(|(k, v)| (k.to_string(), v)).collect() }
}

fn obj(pairs: Vec<(&str, JsonValue)>) -> JsonValue {
    JsonValue::Object(map(pairs))
}

fn t(x: &str) -> Cell {
    Cell::Str(x.to_string())
}

fn sheet(rows: Vec<Vec<Cell>>) -> Sheet {
    Sheet { start_row: 0, start_col: 0, rows }
}

/// ID | Name | Amount, with a repeated id, a blank row and one row after it.
fn ledger() -> Sheet {
    sheet(vec![
        vec![t("ID"), t("Name"), t("Amount")],
        vec![t("a"), t("x"), Cell::Int(1)],
        vec![t("b"), t("y"), Cell::Int(2)],
        vec![t("a"), t("z"), Cell::Int(3)],
        vec![Cell::Empty, Cell::Empty, Cell::Empty],
        vec![t("c"), t("w"), Cell::Int(4)],
    ])
}

fn row(name: &str, amount: i64) -> JsonValue {
    obj(vec![("Name", s(name)), ("Amount", n(amount))])
}

#[test]
fn keyed_rows_with_repeated_ids_get_suffixes_and_end_at_an_empty_id() {
    let ins = map(vec![
        ("row_range", arr(vec![n(2), n(6)])),
        ("unique_id", s("A")),
        ("columns", obj(vec![("Name", s("B")), ("Amount", s("C"))])),
    ]);
    let expected = obj(vec![("a", row("x", 1)), ("b", row("y", 2)), ("a_1", row("z", 3))]);
    assert_eq!(extract_rows(&ledger(), &ins), Ok(expected));
}

#[test]
fn keyed_rows_end_at_an_empty_id_under_a_stop_condition() {
    let ins = map(vec![
        ("row_range", arr(vec![n(2), n(6)])),
        ("unique_id", s("A")),
        ("stop_if_empty", s("A")),
        ("columns", obj(vec![("Name", s("B")), ("Amount", s("C"))])),
    ]);
    let expected = obj(vec![("a", row("x", 1)), ("b", row("y", 2)), ("a_1", row("z", 3))]);
    assert_eq!(extract_rows(&ledger(), &ins), Ok(expected));
}

#[test]
fn keyed_rows_pass_a_short_gap() {
    let ins = map(vec![
        ("row_range", arr(vec![n(2), n(6)])),
        ("unique_id", s("A")),
        ("stop_if_empty", s("A")),
        ("stop_consecutive", n(2)),
        ("columns", obj(vec![("Name", s("B")), ("Amount", s("C"))])),
    ]);
    let expected =
        obj(vec![("a", row("x", 1)), ("b", row("y", 2)), ("a_1", row("z", 3)), ("c", row("w", 4))]);
    assert_eq!(extract_rows(&ledger(), &ins), Ok(expected));
}

#[test]
fn composite_ids_are_joined_with_the_separator() {
    let ins = map(vec![
        ("row_range", arr(vec![n(2), n(4)])),
        ("unique_id", arr(vec![s("A"), s("C")])),
        ("unique_id_separator", s("-")),
        ("columns", obj(vec![("Name", s("B"))])),
    ]);
    let expected = obj(vec![
        ("a-1", obj(vec![("Name", s("x"))])),
        ("b-2", obj(vec![("Name", s("y"))])),
        ("a-3", obj(vec![("Name", s("z"))])),
    ]);
    assert_eq!(extract_rows(&ledger(), &ins), Ok(expected));
}

#[test]
fn list_rows_end_at_the_first_row_without_data() {
    let ins = map(vec![
        ("row_range", arr(vec![n(2), n(6)])),
        ("columns", obj(vec![("ID", s("A")), ("Name", s("B"))])),
    ]);
    let expected = arr(vec![
        obj(vec![("ID", s("a")), ("Name", s("x"))]),
        obj(vec![("ID", s("b")), ("Name", s("y"))]),
        obj(vec![("ID", s("a")), ("Name", s("z"))]),
    ]);
    assert_eq!(extract_rows(&ledger(), &ins), Ok(expected));
}

#[test]
fn gap_tolerance_follows_stop_consecutive() {
    let sh = sheet(vec![
        vec![t("a")],
        vec![Cell::Empty],
        vec![Cell::Empty],
        vec![t("b")],
        vec![Cell::Empty],
        vec![Cell::Empty],
        vec![Cell::Empty],
        vec![t("c")],
    ]);
    let ins = map(vec![
        ("row_range", arr(vec![n(1), n(8)])),
        ("stop_if_empty", s("A")),
        ("stop_consecutive", n(3)),
        ("columns", obj(vec![("V", s("A"))])),
    ]);
    let expected = arr(vec![obj(vec![("V", s("a"))]), obj(vec![("V", s("b"))])]);
    assert_eq!(extract_rows(&sh, &ins), Ok(expected));
    let ins = map(vec![
        ("row_range", arr(vec![n(1), n(8)])),
        ("stop_if_empty", obj(vec![("column", s("A")), ("consecutive", n(4))])),
        ("columns", obj(vec![("V", s("A"))])),
    ]);
    let expected =
        arr(vec![obj(vec![("V", s("a"))]), obj(vec![("V", s("b"))]), obj(vec![("V", s("c"))])]);
    assert_eq!(extract_rows(&sh, &ins), Ok(expected));
}

#[test]
fn row_mode_treats_blank_text_as_empty() {
    let sh = sheet(vec![
        vec![t("a"), Cell::Int(1)],
        vec![t("   "), t("")],
        vec![t("b"), Cell::Int(2)],
    ]);
    let ins = map(vec![
        ("row_range", arr(vec![n(1), n(3)])),
        ("stop_if_empty", obj(vec![("mode", s("row"))])),
        ("columns", obj(vec![("K", s("A")), ("V", s("B"))])),
    ]);
    assert_eq!(extract_rows(&sh, &ins), Ok(arr(vec![obj(vec![("K", s("a")), ("V", n(1))])])));
    let ins = map(vec![
        ("row_range", arr(vec![n(1), n(3)])),
        ("stop_if_empty", s("row")),
        ("stop_consecutive", n(2)),
        ("columns", obj(vec![("K", s("A")), ("V", s("B"))])),
    ]);
    assert_eq!(
        extract_rows(&sh, &ins),
        Ok(arr(vec![obj(vec![("K", s("a")), ("V", n(1))]), obj(vec![("K", s("b")), ("V", n(2))])]))
    );
}

#[test]
fn merged_columns_give_arrays() {
    let sh = sheet(vec![vec![t("id"), Cell::Int(1), Cell::Empty, Cell::Int(3)], vec![t("id2"), Cell::Empty, Cell::Int(5)]]);
    let ins = map(vec![
        ("row_range", arr(vec![n(1), n(2)])),
        ("columns", obj(vec![("ID", s("A")), ("Combined", arr(vec![s("B"), s("C"), s("D")]))])),
    ]);
    let expected = arr(vec![
        obj(vec![("ID", s("id")), ("Combined", arr(vec![n(1), n(3)]))]),
        obj(vec![("ID", s("id2")), ("Combined", n(5))]),
    ]);
    assert_eq!(extract_rows(&sh, &ins), Ok(expected));
}

#[test]
fn parsed_config_reads_settings_once() {
    let ins = map(vec![
        ("row_range", arr(vec![n(3), n(9)])),
        ("unique_id", arr(vec![s("a"), s("C")])),
        ("columns", obj(vec![("One", s("B")), ("Two", arr(vec![s("D"), s("AA")]))])),
    ]);
    let cfg = ParsedMultirowConfig::from_instructions(&ins).unwrap();
    assert_eq!(cfg.start_row, 3);
    assert_eq!(cfg.end_row, 9);
    assert_eq!(cfg.columns.len(), 2);
    assert_eq!(cfg.columns[0].name, "One");
    assert_eq!(cfg.columns[0].indices, vec![1]);
    assert_eq!(cfg.columns[1].name, "Two");
    assert_eq!(cfg.columns[1].indices, vec![3, 26]);
    assert_eq!(cfg.unique_id_indices, vec![0, 2]);
    assert_eq!(cfg.unique_id_separator, "_");
    assert!(cfg.use_unique_id);
}

fn err_of(pairs: Vec<(&str, JsonValue)>) -> Option<ErrorOf<String>> {
    let mut all = vec![("row_range", arr(vec![n(1), n(2)])), ("columns", obj(vec![("X", s("A"))]))];
    for (k, v) in pairs {
        all.retain(|(key, _)| *key != k);
        all.push((k, v));
    }
    extract_rows(&ledger(), &map(all)).err()
}

#[test]
fn multirow_config_errors() {
    let sh = ledger();
    assert_eq!(extract_rows(&sh, &map(vec![])).err(), Some(ErrorOf::MissingRowRange));
    assert_eq!(err_of(vec![("row_range", arr(vec![]))]), Some(ErrorOf::MissingStartRow));
    assert_eq!(err_of(vec![("row_range", arr(vec![n(1)]))]), Some(ErrorOf::MissingEndRow));
    assert_eq!(err_of(vec![("columns", s("A"))]), Some(ErrorOf::MissingColumns));
    assert_eq!(
        err_of(vec![("columns", obj(vec![("X", s("1"))]))]),
        Some(ErrorOf::InvalidColumnInSpec("1".to_string()))
    );
    assert_eq!(
        err_of(vec![("columns", obj(vec![("X", arr(vec![s("A"), n(1)]))]))]),
        Some(ErrorOf::ColumnArrayNotString(1))
    );
    assert_eq!(
        err_of(vec![("columns", obj(vec![("X", arr(vec![s("A"), s("?")]))]))]),
        Some(ErrorOf::InvalidColumn("?".to_string()))
    );
    assert_eq!(err_of(vec![("columns", obj(vec![("X", n(1))]))]), Some(ErrorOf::ColumnSpecType));
}

#[test]
fn unique_id_errors() {
    assert_eq!(err_of(vec![("unique_id", s("1"))]), Some(ErrorOf::InvalidUniqueIdColumn("1".to_string())));
    assert_eq!(
        err_of(vec![("unique_id", arr(vec![s("A"), s("-")]))]),
        Some(ErrorOf::InvalidUniqueIdColumn("-".to_string()))
    );
    assert_eq!(err_of(vec![("unique_id", arr(vec![]))]), Some(ErrorOf::EmptyUniqueId));
    assert_eq!(err_of(vec![("unique_id", arr(vec![n(0)]))]), Some(ErrorOf::UniqueIdArrayNotString(0)));
    assert_eq!(err_of(vec![("unique_id", JsonValue::Null)]), Some(ErrorOf::UniqueIdType));
}

#[test]
fn stop_condition_errors() {
    assert_eq!(err_of(vec![("stop_if_empty", s("1"))]), Some(ErrorOf::InvalidStopColumn("1".to_string())));
    assert_eq!(
        err_of(vec![("stop_if_empty", arr(vec![s("A"), s("%")]))]),
        Some(ErrorOf::InvalidStopColumn("%".to_string()))
    );
    assert_eq!(err_of(vec![("stop_if_empty", arr(vec![s("A"), n(2)]))]), Some(ErrorOf::StopArrayNotString(1)));
    assert_eq!(err_of(vec![("stop_if_empty", obj(vec![("mode", n(1))]))]), Some(ErrorOf::StopModeNotString));
    assert_eq!(
        err_of(vec![("stop_if_empty", obj(vec![("mode", s("column"))]))]),
        Some(ErrorOf::StopColumnRequiredForMode)
    );
    assert_eq!(
        err_of(vec![("stop_if_empty", obj(vec![("mode", s("cell"))]))]),
        Some(ErrorOf::InvalidStopMode("cell".to_string()))
    );
    assert_eq!(err_of(vec![("stop_if_empty", obj(vec![("consecutive", n(2))]))]), Some(ErrorOf::StopColumnRequired));
    assert_eq!(err_of(vec![("stop_if_empty", n(3))]), Some(ErrorOf::StopType));
    assert_eq!(
        err_of(vec![("stop_if_empty", obj(vec![("column", JsonValue::Bool(true))]))]),
        Some(ErrorOf::StopColumnType)
    );
    assert_eq!(
        err_of(vec![("stop_if_empty", obj(vec![("column", s("1"))]))]),
        Some(ErrorOf::InvalidStopColumn("1".to_string()))
    );
}

#[test]
fn cell_errors_in_rows_are_reported() {
    let sh = sheet(vec![vec![t("a"), Cell::Error]]);
    let ins = map(vec![
        ("row_range", arr(vec![n(1), n(1)])),
        ("columns", obj(vec![("K", s("A")), ("V", s("B"))])),
    ]);
    assert_eq!(extract_rows(&sh, &ins), Err(ErrorOf::CellError));
}

#[test]
fn rows_with_a_missing_id_part_are_not_stored() {
    let sh = sheet(vec![
        vec![t("a"), Cell::Int(1)],
        vec![t("b"), Cell::Empty],
        vec![t("c"), Cell::Int(3)],
    ]);
    let base = || {
        vec![
            ("row_range", arr(vec![n(1), n(3)])),
            ("unique_id", arr(vec![s("A"), s("B")])),
            ("unique_id_separator", s("-")),
            ("columns", obj(vec![("K", s("A"))])),
        ]
    };
    assert_eq!(
        extract_rows(&sh, &map(base())),
        Ok(obj(vec![("a-1", obj(vec![("K", s("a"))])), ("c-3", obj(vec![("K", s("c"))]))]))
    );
    let mut with_stop = base();
    with_stop.push(("stop_if_empty", s("A")));
    assert_eq!(
        extract_rows(&sh, &map(with_stop)),
        Ok(obj(vec![("a-1", obj(vec![("K", s("a"))])), ("c-3", obj(vec![("K", s("c"))]))]))
    );
}

#[test]
fn composite_id_with_an_empty_part_skips_the_row() {
    let sh = sheet(vec![
        vec![t("x"), t("1")],
        vec![t("y"), Cell::Empty],
        vec![t("z"), t("3")],
    ]);
    let ins = map(vec![
        ("row_range", arr(vec![n(1), n(3)])),
        ("unique_id", arr(vec![s("A"), s("B")])),
        ("columns", obj(vec![("P", s("A")), ("Q", s("B"))])),
    ]);
    let expected = obj(vec![
        ("x_1", obj(vec![("P", s("x")), ("Q", s("1"))])),
        ("z_3", obj(vec![("P", s("z")), ("Q", s("3"))])),
    ]);
    assert_eq!(extract_rows(&sh, &ins), Ok(expected));
}
