use indexmap::IndexMap;
use sheet_excavator::error::ErrorOf;
use sheet_excavator::helpers::{make_unique_key, make_unique_key_indexmap};
use sheet_excavator::json::{JsonMap, JsonValue};
use sheet_excavator::sheets::{extend_unique, match_sheet_names, resolve_sheet_names};

fn s(t: &str) -> JsonValue {
    JsonValue::Str(t.to_string())
}

fn arr(v: Vec<JsonValue>) -> JsonValue {
    JsonValue::Array(v)
}

fn map(pairs: Vec<(&str, JsonValue)>) -> JsonMap {
    JsonMap { entries: pairs.into_iter().map(|(k, v)| (k.to_string(), v)).collect() }
}

fn names(v: &[&str]) -> Vec<String> {
    v.iter().map(|x| x.to_string()).collect()
}

#[test]
fn unique_keys_take_the_first_free_suffix() {
    let m = map(vec![("a", JsonValue::Null), ("a_1", JsonValue::Null), ("a_3", JsonValue::Null)]);
    assert_eq!(make_unique_key(&m, "b"), "b");
    assert_eq!(make_unique_key(&m, "a"), "a_2");
    assert_eq!(make_unique_key(&m, "a_1"), "a_1_1");
    assert_eq!(make_unique_key(&JsonMap { entries: vec![] }, ""), "");
}

#[test]
fn unique_keys_in_an_ordered_map() {
    let mut m: IndexMap<String, JsonValue> = IndexMap::new();
    assert_eq!(make_unique_key_indexmap(&m, "id"), "id");
    m.insert("id".to_string(), JsonValue::Int(1));
    assert_eq!(make_unique_key_indexmap(&m, "id"), "id_1");
    m.insert("id_1".to_string(), JsonValue::Int(2));
    assert_eq!(make_unique_key_indexmap(&m, "id"), "id_2");
}

#[test]
fn unique_keys_never_overwrite() {
    let mut m = JsonMap { entries: vec![] };
    for i in 0..12 {
        let k = make_unique_key(&m, "x");
        assert!(!m.contains_key(&k));
        m.insert(k, JsonValue::Int(i));
    }
    assert_eq!(m.len(), 12);
    assert_eq!(m.entries[11].0, "x_11");
}

#[test]
fn extend_unique_skips_repeats() {
    let mut v = names(&["a", "b"]);
    extend_unique(&mut v, "a".to_string());
    assert_eq!(v, names(&["a", "b"]));
    extend_unique(&mut v, "c".to_string());
    assert_eq!(v, names(&["a", "b", "c"]));
    let mut empty: Vec<String> = Vec::new();
    extend_unique(&mut empty, String::new());
    assert_eq!(empty, names(&[""]));
}

#[test]
fn wildcards_match_prefix_and_suffix() {
    let wb = names(&["School_A", "School_B", "Summary", "Old_School_A", "School_"]);
    assert_eq!(match_sheet_names(&wb, "School_*"), names(&["School_A", "School_B", "School_"]));
    assert_eq!(match_sheet_names(&wb, "*_A"), names(&["School_A", "Old_School_A"]));
    assert_eq!(match_sheet_names(&wb, "S**y"), names(&["Summary"]));
    assert_eq!(match_sheet_names(&wb, "*"), wb);
    assert_eq!(match_sheet_names(&wb, "X*"), names(&[]));
}

#[test]
fn sheet_groups_resolve_patterns_skips_and_repeats() {
    let wb = names(&["Report_1", "Report_Draft", "Report_2", "Notes"]);
    let d = map(vec![
        ("sheets", arr(vec![s("Notes"), s("Report_*"), s("Notes"), s("Missing")])),
        ("skip_sheets", arr(vec![s("Report_Draft")])),
    ]);
    assert_eq!(resolve_sheet_names(&d, &wb), Ok(names(&["Notes", "Report_1", "Report_2", "Missing"])));
    let d = map(vec![("sheets", arr(vec![s("Notes")])), ("skip_sheets", arr(vec![s("Notes")]))]);
    assert_eq!(resolve_sheet_names(&d, &wb), Ok(names(&[])));
}

#[test]
fn sheet_group_errors() {
    let wb = names(&["A"]);
    assert_eq!(resolve_sheet_names(&map(vec![]), &wb), Err(ErrorOf::MissingSheets));
    assert_eq!(resolve_sheet_names(&map(vec![("sheets", s("A"))]), &wb), Err(ErrorOf::InvalidSheets));
    assert_eq!(
        resolve_sheet_names(&map(vec![("sheets", arr(vec![s("A"), JsonValue::Int(1)]))]), &wb),
        Err(ErrorOf::InvalidSheetName)
    );
}

#[test]
fn wildcard_prefix_and_suffix_do_not_overlap() {
    let wb = names(&["ab", "abb", "abxb", "b"]);
    assert_eq!(match_sheet_names(&wb, "ab*b"), names(&["abb", "abxb"]));
    assert_eq!(match_sheet_names(&wb, "b*b"), names(&[]));
    assert_eq!(match_sheet_names(&wb, "ab*"), names(&["ab", "abb", "abxb"]));
}
