use sheet_excavator::error::ErrorOf;
use sheet_excavator::json::{JsonMap, JsonValue};
use sheet_excavator::manipulations::{Cell, Sheet};
use sheet_excavator::parallel::insert_file_result;
use sheet_excavator::read_excel::{process_workbook, read_extraction, Workbook};

fn s(t: &str) -> JsonValue {
    JsonValue::Str(t.to_string())
}

fn n(i: i64) -> JsonValue {
    JsonValue::Int(i)
}

fn arr(v: Vec<JsonValue>) -> JsonValue {
    JsonValue::Array(v)
}

fn map(pairs: Vec<(&str, JsonValue)>) -> JsonMap {
    JsonMap { entries: pairs.into_iter().map(|(k, v)| (k.to_string(), v)).collect() }
}

fn obj(pairs: Vec<(&str, JsonValue)>) -> JsonValue {
    JsonValue::Object(map(pairs))
}

fn t(x: &str) -> Cell {
    Cell::Str(x.to_string())
}

fn sheet(rows: Vec<Vec<Cell>>) -> Sheet {
    Sheet { start_row: 0, start_col: 0, rows }
}

/// Two school sheets (B has an empty C3) and a draft.
fn workbook() -> Workbook {
    let school = |name: &str, c3: Cell| {
        sheet(vec![
            vec![t(name), Cell::Int(2024), Cell::Empty],
            vec![Cell::Empty, Cell::Empty, Cell::Empty],
            vec![Cell::Empty, Cell::Empty, c3],
        ])
    };
    Workbook {
        sheet_names: vec!["School_A".to_string(), "School_B".to_string(), "School_Draft".to_string()],
        sheets: vec![
            ("School_A".to_string(), school("Alpha", Cell::Int(1))),
            ("School_B".to_string(), school("Beta", Cell::Empty)),
            ("School_Draft".to_string(), school("Draft", Cell::Int(1))),
        ],
    }
}

fn header_rule(label: &str) -> JsonValue {
    obj(vec![
        ("function", s("single_cells")),
        ("label", s(label)),
        ("instructions", obj(vec![("name", s("A1")), ("year", s("B1"))])),
    ])
}

fn group(sheets: Vec<JsonValue>, extractions: Vec<JsonValue>) -> Vec<(&'static str, JsonValue)> {
    vec![("sheets", arr(sheets)), ("extractions", arr(extractions))]
}

#[test]
fn file_result_holds_each_sheet_under_its_name() {
    let mut g = group(vec![s("School_*")], vec![header_rule("header")]);
    g.push(("skip_sheets", arr(vec![s("School_Draft")])));
    let details = vec![obj(g)];
    let r = process_workbook("/data/file.xlsx", &Some(workbook()), &details);
    let expected = obj(vec![
        ("filepath", s("/data/file.xlsx")),
        ("School_A", obj(vec![("header", obj(vec![("name", s("Alpha")), ("year", n(2024))]))])),
        ("School_B", obj(vec![("header", obj(vec![("name", s("Beta")), ("year", n(2024))]))])),
    ]);
    assert_eq!(r, Some(Ok(expected)));
}

#[test]
fn null_check_skips_sheets_and_rules() {
    let mut g = group(vec![s("School_A"), s("School_B")], vec![header_rule("header")]);
    g.push(("break_if_null", s("c3")));
    let r = process_workbook("f.xlsx", &Some(workbook()), &vec![obj(g)]);
    let expected = obj(vec![
        ("filepath", s("f.xlsx")),
        ("School_A", obj(vec![("header", obj(vec![("name", s("Alpha")), ("year", n(2024))]))])),
    ]);
    assert_eq!(r, Some(Ok(expected)));
    let guarded = obj(vec![
        ("function", s("single_cells")),
        ("label", s("guarded")),
        ("break_if_null", s("C3")),
        ("instructions", obj(vec![("name", s("A1"))])),
    ]);
    let g = group(vec![s("School_B")], vec![header_rule("header"), guarded]);
    let r = process_workbook("f.xlsx", &Some(workbook()), &vec![obj(g)]);
    let expected = obj(vec![
        ("filepath", s("f.xlsx")),
        ("School_B", obj(vec![("header", obj(vec![("name", s("Beta")), ("year", n(2024))]))])),
    ]);
    assert_eq!(r, Some(Ok(expected)));
}

#[test]
fn unlabelled_results_get_unique_keys_and_labels_merge() {
    let unlabelled = obj(vec![
        ("function", s("single_cells")),
        ("instructions", obj(vec![("name", s("A1"))])),
    ]);
    let more = obj(vec![
        ("function", s("single_cells")),
        ("label", s("header")),
        ("instructions", obj(vec![("extra", s("B1"))])),
    ]);
    let g = group(vec![s("School_A")], vec![unlabelled.duplicate(), unlabelled, header_rule("header"), more]);
    let r = process_workbook("f.xlsx", &Some(workbook()), &vec![obj(g)]);
    let expected = obj(vec![
        ("filepath", s("f.xlsx")),
        (
            "School_A",
            obj(vec![
                ("name", s("Alpha")),
                ("name_1", s("Alpha")),
                ("header", obj(vec![("name", s("Alpha")), ("year", n(2024)), ("extra", n(2024))])),
            ]),
        ),
    ]);
    assert_eq!(r, Some(Ok(expected)));
}

#[test]
fn groups_add_to_the_same_sheet_and_unknown_rules_are_ignored() {
    let unknown = obj(vec![("function", s("pivot")), ("instructions", obj(vec![]))]);
    let g1 = group(vec![s("School_A")], vec![header_rule("first")]);
    let g2 = group(vec![s("School_A"), s("Nowhere")], vec![unknown, header_rule("second")]);
    let r = process_workbook("f.xlsx", &Some(workbook()), &vec![obj(g1), obj(g2)]);
    let h = || obj(vec![("name", s("Alpha")), ("year", n(2024))]);
    let expected = obj(vec![
        ("filepath", s("f.xlsx")),
        ("School_A", obj(vec![("first", h()), ("second", h())])),
    ]);
    assert_eq!(r, Some(Ok(expected)));
}

#[test]
fn multirow_and_dataframe_rules_run_on_sheets() {
    let rows = obj(vec![
        ("function", s("multirow_patterns")),
        ("label", s("rows")),
        ("instructions", obj(vec![("row_range", arr(vec![n(1), n(1)])), ("columns", obj(vec![("N", s("A"))]))])),
    ]);
    let table = obj(vec![
        ("function", s("dataframe")),
        ("instructions", obj(vec![
            ("row_range", arr(vec![n(1), n(1)])),
            ("column_range", arr(vec![s("B"), s("B")])),
            ("header_row", n(3)),
        ])),
    ]);
    let g = group(vec![s("School_A")], vec![rows, table]);
    let r = process_workbook("f.xlsx", &Some(workbook()), &vec![obj(g)]);
    let expected = obj(vec![
        ("filepath", s("f.xlsx")),
        (
            "School_A",
            obj(vec![("rows", arr(vec![obj(vec![("N", s("Alpha"))])])), ("Null", arr(vec![n(2024)]))]),
        ),
    ]);
    assert_eq!(r, Some(Ok(expected)));
}

#[test]
fn unreadable_workbook_gives_null() {
    let g = group(vec![s("School_A")], vec![header_rule("h")]);
    assert_eq!(process_workbook("f.xlsx", &None, &vec![obj(g)]), Some(Ok(JsonValue::Null)));
    assert_eq!(process_workbook("f.xlsx", &None, &vec![]), Some(Ok(obj(vec![("filepath", s("f.xlsx"))]))));
}

#[test]
fn unreadable_dataframe_settings_stop_the_run() {
    let table = obj(vec![
        ("function", s("dataframe")),
        ("instructions", obj(vec![
            ("row_range", arr(vec![n(1), n(1)])),
            ("column_range", arr(vec![s("A"), s("A")])),
            ("header_row", n(-1)),
        ])),
    ]);
    let g = group(vec![s("School_A")], vec![table.duplicate()]);
    assert_eq!(process_workbook("f.xlsx", &Some(workbook()), &vec![obj(g)]), None);
    let g = group(vec![s("Nowhere")], vec![table]);
    assert_eq!(
        process_workbook("f.xlsx", &Some(workbook()), &vec![obj(g)]),
        Some(Ok(obj(vec![("filepath", s("f.xlsx"))])))
    );
}

#[test]
fn sheet_group_errors_are_reported() {
    let wb = Some(workbook());
    assert_eq!(process_workbook("f", &wb, &vec![s("x")]), Some(Err(ErrorOf::DetailNotObject)));
    assert_eq!(process_workbook("f", &None, &vec![n(1)]), Some(Err(ErrorOf::DetailNotObject)));
    let no_rules = obj(vec![("sheets", arr(vec![s("School_A")]))]);
    assert_eq!(process_workbook("f", &wb, &vec![no_rules]), Some(Err(ErrorOf::MissingExtractions)));
    let g = group(vec![s("School_A")], vec![s("rule")]);
    assert_eq!(process_workbook("f", &wb, &vec![obj(g)]), Some(Err(ErrorOf::ExtractionNotObject)));
    let g = group(vec![s("School_A")], vec![obj(vec![("instructions", obj(vec![]))])]);
    assert_eq!(process_workbook("f", &wb, &vec![obj(g)]), Some(Err(ErrorOf::MissingFunction)));
    let g = group(vec![s("School_A")], vec![obj(vec![("function", s("single_cells"))])]);
    assert_eq!(process_workbook("f", &wb, &vec![obj(g)]), Some(Err(ErrorOf::MissingInstructions)));
    let mut g = group(vec![s("School_A")], vec![header_rule("h")]);
    g.push(("break_if_null", s("3C")));
    assert_eq!(
        process_workbook("f", &wb, &vec![obj(g)]),
        Some(Err(ErrorOf::InvalidCellAddress("3C".to_string())))
    );
}

#[test]
fn extraction_rules_are_read_with_defaults() {
    let x = read_extraction(&obj(vec![("function", s("dataframe")), ("instructions", obj(vec![("a", n(1))]))]))
        .unwrap();
    assert_eq!(x.function, "dataframe");
    assert_eq!(x.label, "");
    assert_eq!(x.instructions, map(vec![("a", n(1))]));
    assert_eq!(x.break_if_null, None);
    assert_eq!(read_extraction(&n(1)).err(), Some(ErrorOf::ExtractionNotObject));
}

#[test]
fn duplicate_file_names_get_suffixes() {
    let mut results = JsonMap { entries: vec![] };
    insert_file_result(&mut results, obj(vec![("filepath", s("/a/report.xlsx"))]));
    insert_file_result(&mut results, obj(vec![("filepath", s("/b/report.xls"))]));
    insert_file_result(&mut results, JsonValue::Null);
    insert_file_result(&mut results, obj(vec![("filepath", s("C:\\c\\report.xlsm"))]));
    insert_file_result(&mut results, obj(vec![("filepath", s("other.xlsx"))]));
    let keys: Vec<&str> = results.entries.iter().map(|(k, _)| k.as_str()).collect();
    assert_eq!(keys, vec!["report", "report_1", "report_2", "other"]);
    assert_eq!(results.entries[1].1, obj(vec![("filepath", s("/b/report.xls"))]));
}

#[test]
fn an_unknown_rule_changes_nothing() {
    let plain = group(vec![s("School_*")], vec![header_rule("h")]);
    let unknown = obj(vec![
        ("function", s("pivot")),
        ("label", s("p")),
        ("instructions", obj(vec![])),
    ]);
    let extended = group(vec![s("School_*")], vec![header_rule("h"), unknown]);
    let wb = Some(workbook());
    assert_eq!(
        process_workbook("f.xlsx", &wb, &vec![obj(extended)]),
        process_workbook("f.xlsx", &wb, &vec![obj(plain)])
    );
}

#[test]
fn storing_under_a_key_keeps_keys_distinct() {
    let mut m = JsonMap::new();
    m.insert("a".to_string(), n(1));
    m.insert("b".to_string(), n(2));
    m.insert("a".to_string(), n(3));
    assert_eq!(m, map(vec![("a", n(3)), ("b", n(2))]));
}
