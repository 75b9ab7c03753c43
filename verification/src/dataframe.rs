use vstd::prelude::*;
use crate::folds::lemma_stop_carries;
use indexmap::IndexMap;
use crate::error::{ErrorOf, ExtractError, ErrorSpec};
use crate::json::{JsonMap, JsonValue, JsonSpec, Entries, lookup, as_u64, as_array, as_str, insert_entry, models, lemma_array_model};
use crate::conversions::{column_index_spec, column_name_to_index};
use crate::manipulations::{Sheet, header_spec, column_values, row_range, extract_headers, extract_column_data};
use crate::index_map::{index_map_entries, index_map_new, index_map_insert};

verus! {

/// The settings of a dataframe extraction.
pub struct DataframeSpec {
    pub start_row: u32,
    pub end_row: u32,
    pub start_col: u32,
    pub end_col: u32,
    pub header_rows: Seq<u32>,
    pub separator: Seq<char>,
}

/// A JSON number read as a count: `None` unless it is a non-negative integer.
pub open spec fn number_u64(j: JsonSpec) -> Option<u64> {
    match j {
        JsonSpec::Int(i) => if i >= 0 {
            Some(i as u64)
        } else {
            None
        },
        _ => None,
    }
}

/// A JSON number.
pub open spec fn is_number(j: JsonSpec) -> bool {
    j is Int || j is Float
}

/// A bound of the column range: a column number or a column name. `None` when it is
/// a number that is no count, which leaves the settings unreadable; `wrong` is the error
/// for a bound of another kind.
pub open spec fn column_bound(b: Option<JsonSpec>, wrong: ErrorSpec) -> Option<Result<u32, ErrorSpec>> {
    match b {
        None => Some(Err(ErrorOf::InvalidColumnRange)),
        Some(j) => if is_number(j) {
            match number_u64(j) {
                Some(n) => Some(Ok(n as u32)),
                None => None,
            }
        } else {
            match j {
                JsonSpec::Str(s) => Some(column_index_spec(s)),
                _ => Some(Err(wrong)),
            }
        },
    }
}

/// The header rows: one row number, or an array of them. `None` when one of
/// them is a number that is no count, which leaves the settings unreadable.
pub open spec fn header_rows_spec(h: JsonSpec) -> Option<Result<Seq<u32>, ErrorSpec>> {
    if is_number(h) {
        match number_u64(h) {
            Some(n) => Some(Ok(seq![n as u32])),
            None => None,
        }
    } else {
        match h {
            JsonSpec::Array(a) => if forall|i: int| 0 <= i < a.len() ==> (#[trigger] number_u64(a[i])) is Some {
                Some(Ok(Seq::new(a.len(), |i: int| number_u64(a[i])->0 as u32)))
            } else {
                None
            },
            _ => Some(Err(ErrorOf::InvalidHeaderRow)),
        }
    }
}

/// The element `i` of an optional array.
pub open spec fn elem(a: Seq<JsonSpec>, i: int) -> Option<JsonSpec> {
    if 0 <= i < a.len() {
        Some(a[i])
    } else {
        None
    }
}

/// The settings that dataframe instructions give: `None` where they are unreadable (a
/// number that is no count where a row or column number is due).
pub open spec fn dataframe_config(ins: Entries) -> Option<Result<DataframeSpec, ErrorSpec>> {
    let rr = match lookup(ins, "row_range"@) {
        Some(v) => as_array(v),
        None => None,
    };
    match rr {
        None => Some(Err(ErrorOf::MissingRowRange)),
        Some(rr) => {
            let start_row = match elem(rr, 0) {
                Some(v) => match as_u64(v) {
                    Some(n) => n,
                    None => 0,
                },
                None => 0,
            };
            let end_row = match elem(rr, 1) {
                Some(v) => match as_u64(v) {
                    Some(n) => n,
                    None => 0,
                },
                None => 0,
            };
            let cr = match lookup(ins, "column_range"@) {
                Some(v) => as_array(v),
                None => None,
            };
            match cr {
                None => Some(Err(ErrorOf::MissingColumnRange)),
                Some(cr) => match column_bound(elem(cr, 0), ErrorOf::InvalidStartColumn) {
                    None => None,
                    Some(Err(e)) => Some(Err(e)),
                    Some(Ok(sc)) => match column_bound(elem(cr, 1), ErrorOf::InvalidEndColumn) {
                        None => None,
                        Some(Err(e)) => Some(Err(e)),
                        Some(Ok(ec)) => match lookup(ins, "header_row"@) {
                            None => Some(Err(ErrorOf::MissingHeaderRow)),
                            Some(h) => match header_rows_spec(h) {
                                None => None,
                                Some(Err(e)) => Some(Err(e)),
                                Some(Ok(hs)) => Some(Ok(DataframeSpec {
                                    start_row: start_row as u32,
                                    end_row: end_row as u32,
                                    start_col: sc,
                                    end_col: ec,
                                    header_rows: hs,
                                    separator: match lookup(ins, "separator"@) {
                                        Some(v) => match as_str(v) {
                                            Some(s) => s,
                                            None => " "@,
                                        },
                                        None => " "@,
                                    },
                                })),
                            },
                        },
                    },
                },
            }
        },
    }
}

/// The columns `cols` of the table: each header stored with the array of its column's
/// values; the first error if one fails.
pub open spec fn table_spec(sheet: Sheet, cfg: DataframeSpec, cols: Seq<u32>) -> Result<Entries, ErrorSpec>
    decreases cols.len(),
{
    if cols.len() == 0 {
        Ok(Seq::empty())
    } else {
        match table_spec(sheet, cfg, cols.drop_last()) {
            Err(e) => Err(e),
            Ok(acc) => match header_spec(sheet, cfg.header_rows, cols.last(), cfg.separator) {
                Err(e) => Err(e),
                Ok(h) => match column_values(sheet, cols.last(), row_range(cfg.start_row, cfg.end_row)) {
                    Err(e) => Err(e),
                    Ok(vals) => Ok(insert_entry(acc, h, JsonSpec::Array(vals))),
                },
            },
        }
    }
}

/// What a dataframe extraction gives on a sheet: `None` where its settings are
/// unreadable.
pub open spec fn dataframe_spec(sheet: Sheet, ins: Entries) -> Option<Result<Entries, ErrorSpec>> {
    match dataframe_config(ins) {
        Some(Ok(cfg)) => Some(table_spec(sheet, cfg, row_range(cfg.start_col, cfg.end_col))),
        Some(Err(e)) => Some(Err(e)),
        None => None,
    }
}

proof fn lemma_table_err(sheet: Sheet, cfg: DataframeSpec, cols: Seq<u32>, j: int)
    requires
        0 <= j <= cols.len(),
        table_spec(sheet, cfg, cols.take(j)) is Err,
    ensures
        table_spec(sheet, cfg, cols) == table_spec(sheet, cfg, cols.take(j)),
{
    let f = |c: Seq<u32>| table_spec(sheet, cfg, c);
    let stops = |r| r is Err;
    assert forall|k: int| 0 <= k < cols.len() && stops(#[trigger] f(cols.take(k))) implies f(cols.take(k + 1)) == f(
        cols.take(k),
    ) by {
        assert(cols.take(k + 1).drop_last() == cols.take(k));
    }
    lemma_stop_carries(f, stops, cols, j);
}

/// A JSON number read as a count: `None` unless it is a non-negative integer.
fn number_value(j: &JsonValue) -> (r: Option<u64>)
    ensures
        r == number_u64(j.model()),
{
    match j {
        JsonValue::Int(i) => if *i >= 0 {
            Some(*i as u64)
        } else {
            None
        },
        _ => None,
    }
}

/// Whether a JSON value is a number.
fn is_number_value(j: &JsonValue) -> (r: bool)
    ensures
        r == is_number(j.model()),
{
    match j {
        JsonValue::Int(_) | JsonValue::Float(_) => true,
        _ => false,
    }
}

/// A bound of the column range: `None` where it is unreadable.
fn column_bound_of(b: Option<&JsonValue>, wrong: ExtractError) -> (r: Option<Result<u32, ExtractError>>)
    ensures
        match column_bound(
            match b {
                Some(j) => Some(j.model()),
                None => None,
            },
            wrong.model(),
        ) {
            Some(Ok(c)) => r == Some(Ok::<u32, ExtractError>(c)),
            Some(Err(e)) => r matches Some(Err(x)) && x.model() == e,
            None => r is None,
        },
{
    match b {
        None => Some(Err(ErrorOf::InvalidColumnRange)),
        Some(j) => {
            if is_number_value(j) {
                match number_value(j) {
                    Some(n) => Some(Ok(n as u32)),
                    None => None,
                }
            } else {
                match j {
                    JsonValue::Str(s) => Some(column_name_to_index(s.as_str())),
                    _ => Some(Err(wrong)),
                }
            }
        },
    }
}

/// The element `i` of an array.
fn elem_of(a: &Vec<JsonValue>, i: usize) -> (r: Option<&JsonValue>)
    ensures
        match r {
            Some(j) => elem(models(a@), i as int) == Some(j.model()),
            None => elem(models(a@), i as int) is None,
        },
{
    if i < a.len() {
        Some(&a[i])
    } else {
        None
    }
}

/// The header rows of the instructions (see `header_rows_spec`).
fn header_rows_of(h: &JsonValue) -> (r: Option<Result<Vec<u32>, ExtractError>>)
    ensures
        match header_rows_spec(h.model()) {
            Some(Ok(hs)) => r matches Some(Ok(v)) && v@ == hs,
            Some(Err(e)) => r matches Some(Err(x)) && x.model() == e,
            None => r is None,
        },
{
    if is_number_value(h) {
        return match number_value(h) {
            Some(n) => Some(Ok(vec![n as u32])),
            None => None,
        };
    }
    match h {
        JsonValue::Array(a) => {
            proof {
                lemma_array_model(*a);
            }
            let mut hs: Vec<u32> = Vec::new();
            let n = a.len();
            for i in 0..n
                invariant
                    n == a@.len(),
                    h.model() == JsonSpec::Array(models(a@)),
                    forall|k: int| 0 <= k < i ==> (#[trigger] number_u64(models(a@)[k])) is Some,
                    hs@ == Seq::new(i as nat, |k: int| number_u64(models(a@)[k])->0 as u32),
            {
                match number_value(&a[i]) {
                    Some(v) => {
                        hs.push(v as u32);
                        assert(hs@ =~= Seq::new((i + 1) as nat, |k: int| number_u64(models(a@)[k])->0 as u32));
                    },
                    None => {
                        assert(number_u64(models(a@)[i as int]) is None);
                        return None;
                    },
                }
            }
            Some(Ok(hs))
        },
        _ => Some(Err(ErrorOf::InvalidHeaderRow)),
    }
}

/// Reads the dataframe settings: `None` where they are unreadable.
fn read_config(ins: &JsonMap) -> (r: Option<Result<(u32, u32, u32, u32, Vec<u32>, String), ExtractError>>)
    ensures
        match dataframe_config(ins.model()) {
            Some(Ok(cfg)) => r matches Some(Ok((sr, er, sc, ec, hs, sep))) && sr == cfg.start_row && er
                == cfg.end_row && sc == cfg.start_col && ec == cfg.end_col && hs@ == cfg.header_rows
                && sep@ == cfg.separator,
            Some(Err(e)) => r matches Some(Err(x)) && x.model() == e,
            None => r is None,
        },
{
    let rr = match ins.get("row_range") {
        Some(v) => v.as_array(),
        None => None,
    };
    let rr = match rr {
        None => {
            return Some(Err(ErrorOf::MissingRowRange));
        },
        Some(a) => a,
    };
    let start_row = match elem_of(rr, 0) {
        Some(v) => match v.as_u64() {
            Some(n) => n,
            None => 0,
        },
        None => 0,
    } as u32;
    let end_row = match elem_of(rr, 1) {
        Some(v) => match v.as_u64() {
            Some(n) => n,
            None => 0,
        },
        None => 0,
    } as u32;
    let cr = match ins.get("column_range") {
        Some(v) => v.as_array(),
        None => None,
    };
    let cr = match cr {
        None => {
            return Some(Err(ErrorOf::MissingColumnRange));
        },
        Some(a) => a,
    };
    let start_col = match column_bound_of(elem_of(cr, 0), ErrorOf::InvalidStartColumn) {
        None => {
            return None;
        },
        Some(Err(e)) => {
            return Some(Err(e));
        },
        Some(Ok(c)) => c,
    };
    let end_col = match column_bound_of(elem_of(cr, 1), ErrorOf::InvalidEndColumn) {
        None => {
            return None;
        },
        Some(Err(e)) => {
            return Some(Err(e));
        },
        Some(Ok(c)) => c,
    };
    let h = match ins.get("header_row") {
        None => {
            return Some(Err(ErrorOf::MissingHeaderRow));
        },
        Some(h) => h,
    };
    let header_rows = match header_rows_of(h) {
        None => {
            return None;
        },
        Some(Err(e)) => {
            return Some(Err(e));
        },
        Some(Ok(hs)) => hs,
    };
    let separator = match ins.get("separator") {
        Some(v) => match v.as_str() {
            Some(s) => s.to_owned(),
            None => " ".to_owned(),
        },
        None => " ".to_owned(),
    };
    Some(Ok((start_row, end_row, start_col, end_col, header_rows, separator)))
}

/// Whether the settings of dataframe instructions can be read: `false` exactly where a
/// number in them that must be a count is negative or fractional.
pub fn dataframe_config_ok(instructions: &JsonMap) -> (r: bool)
    ensures
        r == (dataframe_config(instructions.model()) is Some),
{
    read_config(instructions).is_some()
}

/// A table of columns: for each column of `column_range` (inclusive), its header (the
/// cells of the `header_row` rows joined with `separator`) stored with the array of its
/// values over `row_range`.
pub fn extract_dataframe(sheet: &Sheet, instructions: &JsonMap) -> (r: Result<IndexMap<String, JsonValue>, ExtractError>)
    requires
        dataframe_config(instructions.model()) is Some,
    ensures
        match dataframe_spec(*sheet, instructions.model()) {
            Some(Ok(e)) => r matches Ok(m) && index_map_entries(m) == e,
            Some(Err(e)) => r matches Err(x) && x.model() == e,
            None => false,
        },
{
    let (start_row, end_row, start_col, end_col, header_rows, separator) = match read_config(instructions) {
        Some(Ok(c)) => c,
        Some(Err(e)) => {
            return Err(e);
        },
        None => {
            proof {
                assert(false);
            }
            return Err(ErrorOf::InvalidHeaderRow);
        },
    };
    let ghost cfg = dataframe_config(instructions.model())->0->Ok_0;
    let ghost cols = row_range(start_col, end_col);
    let mut dataframe = index_map_new();
    let mut col: u64 = start_col as u64;
    assert(cols.take(0) =~= Seq::<u32>::empty());
    while col <= end_col as u64
        invariant
            col >= start_col,
            start_col <= end_col ==> col <= end_col as u64 + 1,
            start_col > end_col ==> col == start_col,
            cfg == dataframe_config(instructions.model())->0->Ok_0,
            dataframe_config(instructions.model()) is Some,
            dataframe_config(instructions.model())->0 is Ok,
            cfg.start_row == start_row && cfg.end_row == end_row && cfg.start_col == start_col
                && cfg.end_col == end_col && cfg.header_rows == header_rows@ && cfg.separator == separator@,
            cols == row_range(start_col, end_col),
            table_spec(*sheet, cfg, cols.take(col - start_col)) == Ok::<Entries, ErrorSpec>(index_map_entries(dataframe)),
        decreases end_col as u64 + 1 - col,
    {
        let ghost k = (col - start_col as u64) as int;
        assert(cols.take(k + 1).drop_last() == cols.take(k));
        assert(cols.take(k + 1).last() == col as u32);
        let header = match extract_headers(sheet, header_rows.as_slice(), col as u32, separator.as_str()) {
            Ok(h) => h,
            Err(e) => {
                proof {
                    lemma_table_err(*sheet, cfg, cols, k + 1);
                }
                return Err(e);
            },
        };
        let data = match extract_column_data(sheet, col as u32, start_row, end_row) {
            Ok(d) => d,
            Err(e) => {
                proof {
                    lemma_table_err(*sheet, cfg, cols, k + 1);
                }
                return Err(e);
            },
        };
        index_map_insert(&mut dataframe, header, data);
        col = col + 1;
    }
    assert(cols.take(col - start_col) == cols);
    Ok(dataframe)
}

/// Header rows are joined with the text under "separator" when it is text, and with one
/// space otherwise.
pub proof fn law_separator_defaults_to_a_space(ins: Entries)
    ensures
        dataframe_config(ins) matches Some(Ok(cfg)) ==> cfg.separator == match lookup(ins, "separator"@) {
            Some(JsonSpec::Str(t)) => t,
            _ => seq![' '],
        },
{
    reveal_strlit(" ");
}

} // verus!
