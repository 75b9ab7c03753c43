use vstd::prelude::*;
use crate::folds::lemma_stop_carries;
use crate::error::{ErrorOf, ExtractError, ErrorSpec};
use crate::json::{JsonMap, JsonValue, JsonSpec, Entries, lookup, has_key, as_u64, as_str, insert_entry, models, distinct_keys, lemma_array_model, lemma_object_model};
use crate::conversions::{column_index_spec, column_name_to_index};
use crate::manipulations::{Sheet, CellSpec, cell_of, cell_json, bool_text, row_range, join, extract_cell_value};
use crate::parsed_config::{ParsedColumn, ParsedMultirowConfig, ColumnSpec, MultirowSpec, ListKind, column_list_spec, multirow_config_spec, parse_column_list, column_models};
use crate::helpers::{unique_key, make_unique_key_indexmap, lemma_unique_insert};
use crate::index_map::{index_map_entries, index_map_new, index_map_insert, index_map_into_entries};
use crate::text::{trim, trim_start, trim_end, is_ws, lemma_trim_twice, trim_chars, chars_of, string_of, dec_i64, i64_text, str_eq};

verus! {

/// Whether a stop condition watches whole rows or chosen columns.
#[derive(Debug)]
enum StopMode {
    Column,
    Row,
}

/// When to stop reading rows: after `consecutive` empty rows in a row.
#[derive(Debug)]
struct StopConfig {
    mode: StopMode,
    columns: Vec<u32>,
    consecutive: usize,
}

/// The model of a stop condition.
pub struct StopSpec {
    pub row_mode: bool,
    pub columns: Seq<u32>,
    pub consecutive: usize,
}

impl StopConfig {
    spec fn model(self) -> StopSpec {
        StopSpec { row_mode: self.mode is Row, columns: self.columns@, consecutive: self.consecutive }
    }
}

/// The columns of a stop object's "column" field: one name, or an array of names.
pub open spec fn column_value_spec(v: JsonSpec) -> Result<Seq<u32>, ErrorSpec> {
    match v {
        JsonSpec::Str(s) => match column_index_spec(s) {
            Ok(c) => Ok(seq![c]),
            Err(_) => Err(ErrorOf::InvalidStopColumn(s)),
        },
        JsonSpec::Array(a) => column_list_spec(a, ListKind::Columns),
        _ => Err(ErrorOf::StopColumnType),
    }
}

/// A "consecutive" count given in `obj`, else `dflt`.
pub open spec fn consecutive_in(obj: Entries, dflt: usize) -> usize {
    match lookup(obj, "consecutive"@) {
        Some(v) => match as_u64(v) {
            Some(c) => c as usize,
            None => dflt,
        },
        None => dflt,
    }
}

/// The stop condition of multirow instructions: none without "stop_if_empty"; "row" or
/// {"mode": "row"} watches whole rows; a column name, an array of them, or an object with
/// "column" watches those columns. The count of empty rows comes from "consecutive" in
/// the object, else from "stop_consecutive", else 1.
pub open spec fn stop_config_spec(ins: Entries) -> Result<Option<StopSpec>, ErrorSpec> {
    match lookup(ins, "stop_if_empty"@) {
        None => Ok(None),
        Some(stop) => {
            let cons: usize = match lookup(ins, "stop_consecutive"@) {
                Some(v) => match as_u64(v) {
                    Some(c) => c as usize,
                    None => 1,
                },
                None => 1,
            };
            match stop {
                JsonSpec::Str(s) => if s == "row"@ {
                    Ok(Some(StopSpec { row_mode: true, columns: Seq::empty(), consecutive: cons }))
                } else {
                    match column_index_spec(s) {
                        Ok(c) => Ok(Some(StopSpec { row_mode: false, columns: seq![c], consecutive: cons })),
                        Err(_) => Err(ErrorOf::InvalidStopColumn(s)),
                    }
                },
                JsonSpec::Array(a) => match column_list_spec(a, ListKind::Stop) {
                    Ok(cols) => Ok(Some(StopSpec { row_mode: false, columns: cols, consecutive: cons })),
                    Err(e) => Err(e),
                },
                JsonSpec::Object(o) => if has_key(o, "mode"@) {
                    match as_str(lookup(o, "mode"@)->0) {
                        None => Err(ErrorOf::StopModeNotString),
                        Some(m) => if m == "row"@ {
                            Ok(Some(StopSpec { row_mode: true, columns: Seq::empty(), consecutive: consecutive_in(o, cons) }))
                        } else if m == "column"@ {
                            match lookup(o, "column"@) {
                                None => Err(ErrorOf::StopColumnRequiredForMode),
                                Some(cv) => match column_value_spec(cv) {
                                    Ok(cols) => Ok(Some(StopSpec { row_mode: false, columns: cols, consecutive: consecutive_in(o, cons) })),
                                    Err(e) => Err(e),
                                },
                            }
                        } else {
                            Err(ErrorOf::InvalidStopMode(m))
                        },
                    }
                } else {
                    match lookup(o, "column"@) {
                        None => Err(ErrorOf::StopColumnRequired),
                        Some(cv) => match column_value_spec(cv) {
                            Ok(cols) => Ok(Some(StopSpec { row_mode: false, columns: cols, consecutive: consecutive_in(o, cons) })),
                            Err(e) => Err(e),
                        },
                    }
                },
                _ => Err(ErrorOf::StopType),
            }
        },
    }
}

/// The columns of a stop object's "column" field.
fn parse_column_value(column_val: &JsonValue) -> (r: Result<Vec<u32>, ExtractError>)
    ensures
        match column_value_spec(column_val.model()) {
            Ok(v) => r matches Ok(x) && x@ == v,
            Err(e) => r matches Err(x) && x.model() == e,
        },
{
    match column_val {
        JsonValue::Str(s) => match column_name_to_index(s.as_str()) {
            Ok(c) => Ok(vec![c]),
            Err(_) => Err(ErrorOf::InvalidStopColumn(s.clone())),
        },
        JsonValue::Array(arr) => {
            proof {
                lemma_array_model(*arr);
            }
            parse_column_list(arr, ListKind::Columns)
        },
        _ => Err(ErrorOf::StopColumnType),
    }
}

/// A "consecutive" count in a stop object, else `dflt`.
fn consecutive_of(obj: &JsonMap, dflt: usize) -> (r: usize)
    ensures
        r == consecutive_in(obj.model(), dflt),
{
    match obj.get("consecutive") {
        Some(v) => match v.as_u64() {
            Some(c) => c as usize,
            None => dflt,
        },
        None => dflt,
    }
}

/// The model of an optional stop condition.
spec fn stop_model(s: Option<StopConfig>) -> Option<StopSpec> {
    match s {
        Some(c) => Some(c.model()),
        None => None,
    }
}

/// Reads the stop condition of multirow instructions.
fn parse_stop_config(instructions: &JsonMap) -> (r: Result<Option<StopConfig>, ExtractError>)
    ensures
        match stop_config_spec(instructions.model()) {
            Ok(None) => r matches Ok(None),
            Ok(Some(st)) => r matches Ok(Some(x)) && x.model() == st,
            Err(e) => r matches Err(x) && x.model() == e,
        },
{
    let stop_if_empty = match instructions.get("stop_if_empty") {
        Some(v) => v,
        None => {
            return Ok(None);
        },
    };
    let consecutive: usize = match instructions.get("stop_consecutive") {
        Some(v) => match v.as_u64() {
            Some(c) => c as usize,
            None => 1,
        },
        None => 1,
    };
    match stop_if_empty {
        JsonValue::Str(s) => {
            if str_eq(s.as_str(), "row") {
                return Ok(Some(StopConfig { mode: StopMode::Row, columns: Vec::new(), consecutive }));
            } else {
                match column_name_to_index(s.as_str()) {
                    Ok(c) => {
                        let mut cols: Vec<u32> = Vec::new();
                        cols.push(c);
                        assert(cols@ =~= seq![c]);
                        return Ok(Some(StopConfig { mode: StopMode::Column, columns: cols, consecutive }));
                    },
                    Err(_) => {
                        return Err(ErrorOf::InvalidStopColumn(s.clone()));
                    },
                }
            }
        },
        JsonValue::Array(arr) => {
            proof {
                lemma_array_model(*arr);
            }
            let cols = parse_column_list(arr, ListKind::Stop)?;
            return Ok(Some(StopConfig { mode: StopMode::Column, columns: cols, consecutive }));
        },
        JsonValue::Object(obj) => {
            proof {
                lemma_object_model(*obj);
            }
            match obj.get("mode") {
                Some(mode_val) => {
                    let mode_str = match mode_val.as_str() {
                        Some(m) => m,
                        None => {
                            return Err(ErrorOf::StopModeNotString);
                        },
                    };
                    if str_eq(mode_str, "row") {
                        return Ok(Some(StopConfig { mode: StopMode::Row, columns: Vec::new(), consecutive: consecutive_of(obj, consecutive) }));
                    } else if str_eq(mode_str, "column") {
                        let column_val = match obj.get("column") {
                            Some(c) => c,
                            None => {
                                return Err(ErrorOf::StopColumnRequiredForMode);
                            },
                        };
                        let cons = consecutive_of(obj, consecutive);
                        let cols = parse_column_value(column_val)?;
                        return Ok(Some(StopConfig { mode: StopMode::Column, columns: cols, consecutive: cons }));
                    } else {
                        return Err(ErrorOf::InvalidStopMode(mode_str.to_owned()));
                    }
                },
                None => {
                    let column_val = match obj.get("column") {
                        Some(c) => c,
                        None => {
                            return Err(ErrorOf::StopColumnRequired);
                        },
                    };
                    let cons = consecutive_of(obj, consecutive);
                    let cols = parse_column_value(column_val)?;
                    return Ok(Some(StopConfig { mode: StopMode::Column, columns: cols, consecutive: cons }));
                },
            }
        },
        _ => Err(ErrorOf::StopType),
    }
}


/// A cell holds data: a value other than `null` and, for text, other than white space.
pub open spec fn cell_filled(sheet: Sheet, row: u32, col: u32) -> bool {
    match cell_json(sheet, row, col) {
        Ok(Some(v)) => v != JsonSpec::Null && match v {
            JsonSpec::Str(s) => trim(s).len() > 0,
            _ => true,
        },
        _ => false,
    }
}

/// None of the columns `cols` holds data in `row`.
pub open spec fn columns_empty(sheet: Sheet, row: u32, cols: Seq<u32>) -> bool {
    forall|i: int| 0 <= i < cols.len() ==> !cell_filled(sheet, row, #[trigger] cols[i])
}

/// None of the columns read by `columns` holds data in `row`.
pub open spec fn row_empty(sheet: Sheet, row: u32, columns: Seq<ColumnSpec>) -> bool {
    forall|i: int, j: int|
        0 <= i < columns.len() && 0 <= j < columns[i].indices.len() ==> !cell_filled(
            sheet,
            row,
            #[trigger] columns[i].indices[j],
        )
}

/// `row` counts as empty for the stop condition.
pub open spec fn stop_empty(sheet: Sheet, row: u32, cfg: MultirowSpec, st: StopSpec) -> bool {
    if st.row_mode {
        row_empty(sheet, row, cfg.columns)
    } else {
        columns_empty(sheet, row, st.columns)
    }
}

/// Whether the cell holds data.
fn is_cell_filled(sheet: &Sheet, row: u32, col: u32) -> (r: bool)
    ensures
        r == cell_filled(*sheet, row, col),
{
    match extract_cell_value(sheet, row, col, false) {
        Ok((Some(value), _)) => {
            if value.is_null() {
                false
            } else {
                match &value {
                    JsonValue::Str(s) => {
                        let t = trim_chars(&chars_of(s.as_str()));
                        t.len() > 0
                    },
                    _ => true,
                }
            }
        },
        _ => false,
    }
}

/// Whether none of `columns` holds data in `row`.
fn are_columns_empty(sheet: &Sheet, row: u32, columns: &[u32]) -> (r: bool)
    ensures
        r == columns_empty(*sheet, row, columns@),
{
    let n = columns.len();
    for i in 0..n
        invariant
            n == columns@.len(),
            forall|k: int| 0 <= k < i ==> !cell_filled(*sheet, row, #[trigger] columns@[k]),
    {
        if is_cell_filled(sheet, row, columns[i]) {
            return false;
        }
    }
    true
}

/// Whether none of the columns read by `columns` holds data in `row`; text of white space
/// only counts as empty.
fn is_row_empty_with_parsed(sheet: &Sheet, row: u32, columns: &[ParsedColumn]) -> (r: bool)
    ensures
        r == row_empty(*sheet, row, column_models(columns@)),
{
    let n = columns.len();
    for i in 0..n
        invariant
            n == columns@.len(),
            forall|a: int, b: int|
                0 <= a < i && 0 <= b < columns@[a].indices@.len() ==> !cell_filled(
                    *sheet,
                    row,
                    #[trigger] columns@[a].indices@[b],
                ),
    {
        let ix = &columns[i].indices;
        let m = ix.len();
        for j in 0..m
            invariant
                n == columns@.len(),
                i < n,
                m == ix@.len(),
                ix@ == columns@[i as int].indices@,
                forall|a: int, b: int|
                    0 <= a < i && 0 <= b < columns@[a].indices@.len() ==> !cell_filled(
                        *sheet,
                        row,
                        #[trigger] columns@[a].indices@[b],
                    ),
                forall|b: int| 0 <= b < j ==> !cell_filled(*sheet, row, #[trigger] ix@[b]),
        {
            if is_cell_filled(sheet, row, ix[j]) {
                assert(column_models(columns@)[i as int] == columns@[i as int].model());
                assert(column_models(columns@)[i as int].indices[j as int] == ix@[j as int]);
                return false;
            }
        }
    }
    assert forall|a: int, b: int|
        0 <= a < column_models(columns@).len() && 0 <= b < column_models(columns@)[a].indices.len()
        implies !cell_filled(*sheet, row, #[trigger] column_models(columns@)[a].indices[b]) by {
        assert(column_models(columns@)[a].indices[b] == columns@[a].indices@[b]);
    }
    true
}

/// The non-null values of the cells `ix` of `row`, in order; the first error if a cell
/// fails.
pub open spec fn merged_values(sheet: Sheet, row: u32, ix: Seq<u32>) -> Result<Seq<JsonSpec>, ErrorSpec>
    decreases ix.len(),
{
    if ix.len() == 0 {
        Ok(Seq::empty())
    } else {
        match merged_values(sheet, row, ix.drop_last()) {
            Err(e) => Err(e),
            Ok(vals) => match cell_json(sheet, row, ix.last()) {
                Err(e) => Err(e),
                Ok(Some(v)) => if v != JsonSpec::Null {
                    Ok(vals.push(v))
                } else {
                    Ok(vals)
                },
                Ok(None) => Ok(vals),
            },
        }
    }
}

/// An output field: `null` with no value, the value itself with one, an array with more.
pub open spec fn field_value(vals: Seq<JsonSpec>) -> JsonSpec {
    if vals.len() == 0 {
        JsonSpec::Null
    } else if vals.len() == 1 {
        vals[0]
    } else {
        JsonSpec::Array(vals)
    }
}

/// The fields of `row`, each column's name with its value, and whether any column holds a
/// value; the first error if a cell fails.
pub open spec fn row_fields(sheet: Sheet, row: u32, columns: Seq<ColumnSpec>) -> Result<(Entries, bool), ErrorSpec>
    decreases columns.len(),
{
    if columns.len() == 0 {
        Ok((Seq::empty(), false))
    } else {
        match row_fields(sheet, row, columns.drop_last()) {
            Err(e) => Err(e),
            Ok((acc, any)) => match merged_values(sheet, row, columns.last().indices) {
                Err(e) => Err(e),
                Ok(vals) => Ok((insert_entry(acc, columns.last().name, field_value(vals)), any || vals.len() > 0)),
            },
        }
    }
}

proof fn lemma_merged_err(sheet: Sheet, row: u32, ix: Seq<u32>, j: int)
    requires
        0 <= j <= ix.len(),
        merged_values(sheet, row, ix.take(j)) is Err,
    ensures
        merged_values(sheet, row, ix) == merged_values(sheet, row, ix.take(j)),
{
    let f = |c: Seq<u32>| merged_values(sheet, row, c);
    let stops = |r| r is Err;
    assert forall|k: int| 0 <= k < ix.len() && stops(#[trigger] f(ix.take(k))) implies f(ix.take(k + 1)) == f(
        ix.take(k),
    ) by {
        assert(ix.take(k + 1).drop_last() == ix.take(k));
    }
    lemma_stop_carries(f, stops, ix, j);
}

proof fn lemma_fields_err(sheet: Sheet, row: u32, cols: Seq<ColumnSpec>, j: int)
    requires
        0 <= j <= cols.len(),
        row_fields(sheet, row, cols.take(j)) is Err,
    ensures
        row_fields(sheet, row, cols) == row_fields(sheet, row, cols.take(j)),
{
    let f = |c: Seq<ColumnSpec>| row_fields(sheet, row, c);
    let stops = |r| r is Err;
    assert forall|k: int| 0 <= k < cols.len() && stops(#[trigger] f(cols.take(k))) implies f(cols.take(k + 1)) == f(
        cols.take(k),
    ) by {
        assert(cols.take(k + 1).drop_last() == cols.take(k));
    }
    lemma_stop_carries(f, stops, cols, j);
}

/// The value of an output field read from the cells `ix` of `row`, and whether it has any.
fn merged_field(sheet: &Sheet, row: u32, ix: &Vec<u32>) -> (r: Result<(JsonValue, bool), ExtractError>)
    ensures
        match merged_values(*sheet, row, ix@) {
            Ok(vals) => r matches Ok((v, any)) && v.model() == field_value(vals) && any == (vals.len() > 0),
            Err(e) => r matches Err(x) && x.model() == e,
        },
{
    let mut cell_values: Vec<JsonValue> = Vec::new();
    let n = ix.len();
    assert(ix@.take(0) =~= Seq::<u32>::empty());
    assert(models(cell_values@) =~= Seq::<JsonSpec>::empty());
    for i in 0..n
        invariant
            n == ix@.len(),
            merged_values(*sheet, row, ix@.take(i as int)) == Ok::<Seq<JsonSpec>, ErrorSpec>(models(cell_values@)),
    {
        assert(ix@.take(i + 1).drop_last() == ix@.take(i as int));
        assert(ix@.take(i + 1).last() == ix@[i as int]);
        match extract_cell_value(sheet, row, ix[i], false) {
            Ok((Some(value), _)) => {
                if !value.is_null() {
                    let ghost old_vals = cell_values@;
                    let ghost vm = value.model();
                    cell_values.push(value);
                    assert(models(cell_values@) =~= models(old_vals).push(vm));
                }
            },
            Ok((None, _)) => {},
            Err(e) => {
                proof {
                    lemma_merged_err(*sheet, row, ix@, i + 1);
                }
                return Err(e);
            },
        }
    }
    assert(ix@.take(n as int) == ix@);
    let len = cell_values.len();
    if len == 0 {
        Ok((JsonValue::Null, false))
    } else if len == 1 {
        let v = cell_values.pop().unwrap();
        Ok((v, true))
    } else {
        proof {
            lemma_array_model(cell_values);
        }
        Ok((JsonValue::Array(cell_values), true))
    }
}

/// The fields of `row` and whether any column holds a value.
fn extract_row_fields(sheet: &Sheet, row: u32, columns: &Vec<ParsedColumn>) -> (r: Result<(JsonMap, bool), ExtractError>)
    ensures
        match row_fields(*sheet, row, column_models(columns@)) {
            Ok((e, any)) => r matches Ok((m, a)) && m.model() == e && a == any,
            Err(e) => r matches Err(x) && x.model() == e,
        },
{
    let ghost cols = column_models(columns@);
    let mut row_data = JsonMap::new();
    let mut has_any_data = false;
    let n = columns.len();
    assert(cols.take(0) =~= Seq::<ColumnSpec>::empty());
    for i in 0..n
        invariant
            n == columns@.len(),
            cols == column_models(columns@),
            row_fields(*sheet, row, cols.take(i as int)) == Ok::<(Entries, bool), ErrorSpec>((row_data.model(), has_any_data)),
    {
        assert(cols.take(i + 1).drop_last() == cols.take(i as int));
        assert(cols.take(i + 1).last() == columns@[i as int].model());
        let (value, any) = match merged_field(sheet, row, &columns[i].indices) {
            Ok(x) => x,
            Err(e) => {
                proof {
                    lemma_fields_err(*sheet, row, cols, i + 1);
                }
                return Err(e);
            },
        };
        row_data.insert(columns[i].name.clone(), value);
        has_any_data = has_any_data || any;
    }
    assert(cols.take(n as int) == cols);
    Ok((row_data, has_any_data))
}

/// The text of a scalar JSON value, as `Value::to_string` writes it (a cell never holds an
/// array or an object).
pub open spec fn scalar_text(v: JsonSpec) -> Seq<char> {
    match v {
        JsonSpec::Null => "null"@,
        JsonSpec::Bool(b) => bool_text(b),
        JsonSpec::Int(i) => dec_i64(i),
        JsonSpec::Float(t) => t,
        _ => Seq::empty(),
    }
}

/// The part of a unique id that the cell gives: its trimmed text, or the text of its value;
/// `None` when it has no value, fails, or gives empty text.
pub open spec fn id_part(sheet: Sheet, row: u32, col: u32) -> Option<Seq<char>> {
    match cell_json(sheet, row, col) {
        Ok(Some(v)) => if v != JsonSpec::Null {
            let t = match v {
                JsonSpec::Str(s) => trim(s),
                _ => scalar_text(v),
            };
            if t.len() > 0 {
                Some(t)
            } else {
                None
            }
        } else {
            None
        },
        _ => None,
    }
}

/// The parts of a unique id over the columns `ix`; `None` as soon as one is missing.
pub open spec fn id_parts(sheet: Sheet, row: u32, ix: Seq<u32>) -> Option<Seq<Seq<char>>>
    decreases ix.len(),
{
    if ix.len() == 0 {
        Some(Seq::empty())
    } else {
        match id_parts(sheet, row, ix.drop_last()) {
            None => None,
            Some(parts) => match id_part(sheet, row, ix.last()) {
                None => None,
                Some(p) => Some(parts.push(p)),
            },
        }
    }
}

/// The unique id of `row`: its parts joined with the separator; `None` when a part is
/// missing or there are none.
pub open spec fn row_id(sheet: Sheet, row: u32, cfg: MultirowSpec) -> Option<Seq<char>> {
    match id_parts(sheet, row, cfg.unique_id_indices) {
        Some(parts) => if parts.len() > 0 {
            Some(join(parts, cfg.unique_id_separator))
        } else {
            None
        },
        None => None,
    }
}

/// The rows of `rows` that a list extraction keeps, after those already kept (`acc`), with
/// `ce` empty rows just seen. With a stop condition, `consecutive` empty rows in a row end
/// the extraction and fewer are skipped; without one, the first row with no value ends it.
pub open spec fn list_rows(
    sheet: Sheet,
    cfg: MultirowSpec,
    stop: Option<StopSpec>,
    rows: Seq<u32>,
    ce: int,
    acc: Seq<JsonSpec>,
) -> Result<Seq<JsonSpec>, ErrorSpec>
    decreases rows.len(),
{
    if rows.len() == 0 {
        Ok(acc)
    } else {
        let row = rows[0];
        let rest = rows.drop_first();
        match stop {
            Some(st) => if stop_empty(sheet, row, cfg, st) {
                if ce + 1 >= st.consecutive {
                    Ok(acc)
                } else {
                    list_rows(sheet, cfg, stop, rest, ce + 1, acc)
                }
            } else {
                match row_fields(sheet, row, cfg.columns) {
                    Err(e) => Err(e),
                    Ok((fields, _)) => list_rows(sheet, cfg, stop, rest, 0, acc.push(JsonSpec::Object(fields))),
                }
            },
            None => match row_fields(sheet, row, cfg.columns) {
                Err(e) => Err(e),
                Ok((fields, any)) => if !any {
                    Ok(acc)
                } else {
                    list_rows(sheet, cfg, stop, rest, 0, acc.push(JsonSpec::Object(fields)))
                },
            },
        }
    }
}

/// A keyed extraction ends at a row without an id when there is no stop condition and
/// the id is read from a single column; with a composite id such a row is skipped.
pub open spec fn ends_at_missing_id(cfg: MultirowSpec, stop: Option<StopSpec>) -> bool {
    stop is None && cfg.unique_id_indices.len() <= 1
}

/// The entries that a keyed extraction gives for `rows`, after those already stored
/// (`acc`): each row with a unique id is stored under that id, made unique with a `_1`,
/// `_2`, ... suffix where it is taken. A row without a complete id is skipped, except
/// that with a single-column id and no stop condition it ends the extraction.
pub open spec fn keyed_rows(
    sheet: Sheet,
    cfg: MultirowSpec,
    stop: Option<StopSpec>,
    rows: Seq<u32>,
    ce: int,
    acc: Entries,
) -> Result<Entries, ErrorSpec>
    decreases rows.len(),
{
    if rows.len() == 0 {
        Ok(acc)
    } else {
        let row = rows[0];
        let rest = rows.drop_first();
        if stop is Some && stop_empty(sheet, row, cfg, stop->0) {
            if ce + 1 >= stop->0.consecutive {
                Ok(acc)
            } else {
                keyed_rows(sheet, cfg, stop, rest, ce + 1, acc)
            }
        } else {
            match row_id(sheet, row, cfg) {
                None => if ends_at_missing_id(cfg, stop) {
                    Ok(acc)
                } else {
                    keyed_rows(sheet, cfg, stop, rest, 0, acc)
                },
                Some(id) => match row_fields(sheet, row, cfg.columns) {
                    Err(e) => Err(e),
                    Ok((fields, _)) => keyed_rows(
                        sheet,
                        cfg,
                        stop,
                        rest,
                        0,
                        insert_entry(acc, unique_key(acc, id), JsonSpec::Object(fields)),
                    ),
                },
            }
        }
    }
}

/// What a multirow extraction gives: an object keyed by unique id when "unique_id" is
/// given, else an array of row objects.
pub open spec fn extract_rows_spec(sheet: Sheet, ins: Entries) -> Result<JsonSpec, ErrorSpec> {
    match multirow_config_spec(ins) {
        Err(e) => Err(e),
        Ok(cfg) => match stop_config_spec(ins) {
            Err(e) => Err(e),
            Ok(stop) => {
                let rows = row_range(cfg.start_row, cfg.end_row);
                if cfg.use_unique_id {
                    match keyed_rows(sheet, cfg, stop, rows, 0, Seq::empty()) {
                        Ok(e) => Ok(JsonSpec::Object(e)),
                        Err(e) => Err(e),
                    }
                } else {
                    match list_rows(sheet, cfg, stop, rows, 0, Seq::empty()) {
                        Ok(v) => Ok(JsonSpec::Array(v)),
                        Err(e) => Err(e),
                    }
                }
            },
        },
    }
}


/// The text of a scalar JSON value.
fn scalar_string(v: &JsonValue) -> (r: Vec<char>)
    ensures
        r@ == scalar_text(v.model()),
{
    match v {
        JsonValue::Null => chars_of("null"),
        JsonValue::Bool(b) => if *b {
            chars_of("true")
        } else {
            chars_of("false")
        },
        JsonValue::Int(i) => i64_text(*i),
        JsonValue::Float(t) => chars_of(t.as_str()),
        _ => Vec::new(),
    }
}

proof fn lemma_id_parts_none(sheet: Sheet, row: u32, ix: Seq<u32>, j: int)
    requires
        0 <= j <= ix.len(),
        id_parts(sheet, row, ix.take(j)) is None,
    ensures
        id_parts(sheet, row, ix) is None,
{
    let f = |c: Seq<u32>| id_parts(sheet, row, c);
    let stops = |r: Option<Seq<Seq<char>>>| r is None;
    assert forall|k: int| 0 <= k < ix.len() && stops(#[trigger] f(ix.take(k))) implies f(ix.take(k + 1)) == f(
        ix.take(k),
    ) by {
        assert(ix.take(k + 1).drop_last() == ix.take(k));
    }
    lemma_stop_carries(f, stops, ix, j);
}

/// The unique id of `row`: the parts its id columns give, joined with the separator.
fn row_unique_id(sheet: &Sheet, row: u32, ix: &Vec<u32>, sep: &str) -> (r: Option<String>)
    ensures
        match id_parts(*sheet, row, ix@) {
            Some(parts) => if parts.len() > 0 {
                r matches Some(s) && s@ == join(parts, sep@)
            } else {
                r is None
            },
            None => r is None,
        },
{
    let mut parts: Vec<Vec<char>> = Vec::new();
    let n = ix.len();
    assert(ix@.take(0) =~= Seq::<u32>::empty());
    assert(crate::manipulations::char_views(parts@) =~= Seq::<Seq<char>>::empty());
    for i in 0..n
        invariant
            n == ix@.len(),
            id_parts(*sheet, row, ix@.take(i as int)) == Some(crate::manipulations::char_views(parts@)),
    {
        assert(ix@.take(i + 1).drop_last() == ix@.take(i as int));
        assert(ix@.take(i + 1).last() == ix@[i as int]);
        let part = match extract_cell_value(sheet, row, ix[i], false) {
            Ok((Some(value), _)) => {
                if value.is_null() {
                    None
                } else {
                    let t = match &value {
                        JsonValue::Str(s) => trim_chars(&chars_of(s.as_str())),
                        _ => scalar_string(&value),
                    };
                    if t.len() > 0 {
                        Some(t)
                    } else {
                        None
                    }
                }
            },
            _ => None,
        };
        match part {
            Some(t) => {
                let ghost old_parts = parts@;
                let ghost tv = t@;
                parts.push(t);
                assert(crate::manipulations::char_views(parts@) =~= crate::manipulations::char_views(old_parts).push(tv));
            },
            None => {
                proof {
                    lemma_id_parts_none(*sheet, row, ix@, i + 1);
                }
                return None;
            },
        }
    }
    assert(ix@.take(n as int) == ix@);
    if parts.len() == 0 {
        return None;
    }
    let sep_chars = chars_of(sep);
    Some(string_of(&crate::manipulations::join_chars(&parts, &sep_chars)))
}

/// Extracts rows following a repeating pattern: the columns of each row of `row_range`
/// become the fields of one object. With "unique_id" the objects are stored under their
/// row's id (made unique with a `_1`, `_2`, ... suffix); without it they form an array.
/// "stop_if_empty" ends the extraction after a number of empty rows.
pub fn extract_rows(sheet: &Sheet, instructions: &JsonMap) -> (r: Result<JsonValue, ExtractError>)
    ensures
        match extract_rows_spec(*sheet, instructions.model()) {
            Ok(v) => r matches Ok(x) && x.model() == v,
            Err(e) => r matches Err(x) && x.model() == e,
        },
{
    let config = ParsedMultirowConfig::from_instructions(instructions)?;
    let stop_config = parse_stop_config(instructions)?;
    let ghost cfg = config.model();
    let ghost stop: Option<StopSpec> = stop_model(stop_config);
    let ghost rows = row_range(config.start_row, config.end_row);
    let start = config.start_row;
    let end = config.end_row;
    let mut consecutive_empty: usize = 0;
    let mut row: u64 = start as u64;
    assert(rows.skip(0) == rows);
    if config.use_unique_id {
        let mut results = index_map_new();
        loop
            invariant_except_break
                start == cfg.start_row && end == cfg.end_row,
                cfg == config.model(),
                rows == row_range(start, end),
                row >= start,
                start <= end ==> row <= end as u64 + 1,
                start > end ==> row == start,
                stop == stop_model(stop_config),
                stop is Some ==> consecutive_empty == 0 || consecutive_empty < stop->0.consecutive,
                cfg.use_unique_id,
                extract_rows_spec(*sheet, instructions.model()) == match keyed_rows(*sheet, cfg, stop, rows, 0, Seq::empty()) {
                    Ok(e) => Ok(JsonSpec::Object(e)),
                    Err(e) => Err(e),
                },
                keyed_rows(*sheet, cfg, stop, rows, 0, Seq::empty()) == keyed_rows(
                    *sheet,
                    cfg,
                    stop,
                    rows.skip(row - start),
                    consecutive_empty as int,
                    index_map_entries(results),
                ),
            ensures
                keyed_rows(*sheet, cfg, stop, rows, 0, Seq::empty()) == Ok::<Entries, ErrorSpec>(index_map_entries(results)),
            decreases end as u64 + 1 - row,
        {
            if row > end as u64 {
                assert(rows.skip(row - start) =~= Seq::<u32>::empty());
                break;
            }
            let ghost rest = rows.skip(row - start);
            assert(rest[0] == row as u32);
            assert(rest.drop_first() == rows.skip(row + 1 - start));
            let r32 = row as u32;
            match &stop_config {
                Some(stop_cfg) => {
                    let is_empty = match stop_cfg.mode {
                        StopMode::Row => is_row_empty_with_parsed(sheet, r32, config.columns.as_slice()),
                        StopMode::Column => are_columns_empty(sheet, r32, stop_cfg.columns.as_slice()),
                    };
                    if is_empty {
                        consecutive_empty = consecutive_empty + 1;
                        if consecutive_empty >= stop_cfg.consecutive {
                            break;
                        }
                        row = row + 1;
                        continue;
                    } else {
                        consecutive_empty = 0;
                    }
                },
                None => {},
            }
            match row_unique_id(sheet, r32, &config.unique_id_indices, config.unique_id_separator.as_str()) {
                None => {
                    if stop_config.is_none() && config.unique_id_indices.len() <= 1 {
                        break;
                    }
                    consecutive_empty = 0;
                    row = row + 1;
                    continue;
                },
                Some(unique_id_string) => {
                    let (row_data, _) = match extract_row_fields(sheet, r32, &config.columns) {
                        Ok(x) => x,
                        Err(e) => {
                            return Err(e);
                        },
                    };
                    let unique_key = make_unique_key_indexmap(&results, unique_id_string.as_str());
                    proof {
                        lemma_object_model(row_data);
                    }
                    index_map_insert(&mut results, unique_key, JsonValue::Object(row_data));
                    consecutive_empty = 0;
                },
            }
            row = row + 1;
        }
        let entries = index_map_into_entries(results);
        let m = JsonMap { entries };
        proof {
            lemma_object_model(m);
        }
        Ok(JsonValue::Object(m))
    } else {
        let mut results: Vec<JsonValue> = Vec::new();
        assert(models(results@) =~= Seq::<JsonSpec>::empty());
        loop
            invariant_except_break
                start == cfg.start_row && end == cfg.end_row,
                cfg == config.model(),
                rows == row_range(start, end),
                row >= start,
                start <= end ==> row <= end as u64 + 1,
                start > end ==> row == start,
                stop == stop_model(stop_config),
                stop is Some ==> consecutive_empty == 0 || consecutive_empty < stop->0.consecutive,
                stop is None ==> consecutive_empty == 0,
                !cfg.use_unique_id,
                extract_rows_spec(*sheet, instructions.model()) == match list_rows(*sheet, cfg, stop, rows, 0, Seq::empty()) {
                    Ok(v) => Ok(JsonSpec::Array(v)),
                    Err(e) => Err(e),
                },
                list_rows(*sheet, cfg, stop, rows, 0, Seq::empty()) == list_rows(
                    *sheet,
                    cfg,
                    stop,
                    rows.skip(row - start),
                    consecutive_empty as int,
                    models(results@),
                ),
            ensures
                list_rows(*sheet, cfg, stop, rows, 0, Seq::empty()) == Ok::<Seq<JsonSpec>, ErrorSpec>(models(results@)),
            decreases end as u64 + 1 - row,
        {
            if row > end as u64 {
                assert(rows.skip(row - start) =~= Seq::<u32>::empty());
                break;
            }
            let ghost rest = rows.skip(row - start);
            assert(rest[0] == row as u32);
            assert(rest.drop_first() == rows.skip(row + 1 - start));
            let r32 = row as u32;
            match &stop_config {
                Some(stop_cfg) => {
                    let is_empty = match stop_cfg.mode {
                        StopMode::Row => is_row_empty_with_parsed(sheet, r32, config.columns.as_slice()),
                        StopMode::Column => are_columns_empty(sheet, r32, stop_cfg.columns.as_slice()),
                    };
                    if is_empty {
                        consecutive_empty = consecutive_empty + 1;
                        if consecutive_empty >= stop_cfg.consecutive {
                            break;
                        }
                        row = row + 1;
                        continue;
                    } else {
                        consecutive_empty = 0;
                    }
                },
                None => {},
            }
            let (row_data, has_any_data) = match extract_row_fields(sheet, r32, &config.columns) {
                Ok(x) => x,
                Err(e) => {
                    return Err(e);
                },
            };
            if stop_config.is_none() && !has_any_data {
                break;
            }
            proof {
                lemma_object_model(row_data);
            }
            let ghost old_results = results@;
            let value = JsonValue::Object(row_data);
            let ghost vm = value.model();
            results.push(value);
            assert(models(results@) =~= models(old_results).push(vm));
            row = row + 1;
        }
        proof {
            lemma_array_model(results);
        }
        Ok(JsonValue::Array(results))
    }
}

/// Each row a keyed extraction stores is appended under a key of its own: the entries
/// already stored stay as they were, and the keys stay distinct.
proof fn lemma_keyed_rows_append(
    sheet: Sheet,
    cfg: MultirowSpec,
    stop: Option<StopSpec>,
    rows: Seq<u32>,
    ce: int,
    acc: Entries,
)
    requires
        distinct_keys(acc),
        keyed_rows(sheet, cfg, stop, rows, ce, acc) is Ok,
    ensures
        distinct_keys(keyed_rows(sheet, cfg, stop, rows, ce, acc)->Ok_0),
        acc.len() <= keyed_rows(sheet, cfg, stop, rows, ce, acc)->Ok_0.len(),
        keyed_rows(sheet, cfg, stop, rows, ce, acc)->Ok_0.take(acc.len() as int) == acc,
    decreases rows.len(),
{
    let e = keyed_rows(sheet, cfg, stop, rows, ce, acc)->Ok_0;
    if rows.len() == 0 {
        assert(e.take(acc.len() as int) =~= acc);
    } else {
        let row = rows[0];
        let rest = rows.drop_first();
        if stop is Some && stop_empty(sheet, row, cfg, stop->0) {
            if ce + 1 >= stop->0.consecutive {
                assert(e.take(acc.len() as int) =~= acc);
            } else {
                lemma_keyed_rows_append(sheet, cfg, stop, rest, ce + 1, acc);
            }
        } else {
            match row_id(sheet, row, cfg) {
                None => if ends_at_missing_id(cfg, stop) {
                    assert(e.take(acc.len() as int) =~= acc);
                } else {
                    lemma_keyed_rows_append(sheet, cfg, stop, rest, 0, acc);
                },
                Some(id) => match row_fields(sheet, row, cfg.columns) {
                    Err(_) => {},
                    Ok((fields, _)) => {
                        let v = JsonSpec::Object(fields);
                        let acc2 = insert_entry(acc, unique_key(acc, id), v);
                        lemma_unique_insert(acc, id, v);
                        lemma_keyed_rows_append(sheet, cfg, stop, rest, 0, acc2);
                        assert(e.take(acc.len() as int) =~= e.take(acc2.len() as int).take(acc.len() as int));
                        assert(acc2.take(acc.len() as int) =~= acc);
                    },
                },
            }
        }
    }
}

/// A keyed multirow result never holds two rows under one key: a row whose id is taken
/// is stored under the id with a `_1`, `_2`, ... suffix instead of overwriting.
pub proof fn law_keyed_rows_distinct(sheet: Sheet, ins: Entries)
    ensures
        extract_rows_spec(sheet, ins) matches Ok(JsonSpec::Object(e)) ==> distinct_keys(e),
{
    if let Ok(cfg) = multirow_config_spec(ins) {
        if let Ok(stop) = stop_config_spec(ins) {
            if cfg.use_unique_id {
                let rows = row_range(cfg.start_row, cfg.end_row);
                let empty = Seq::<(Seq<char>, JsonSpec)>::empty();
                if keyed_rows(sheet, cfg, stop, rows, 0, empty) is Ok {
                    lemma_keyed_rows_append(sheet, cfg, stop, rows, 0, empty);
                }
            }
        }
    }
}

/// A multirow extraction gives an object keyed by unique id exactly when the instructions
/// name a "unique_id", and an array of rows otherwise.
pub proof fn law_rows_shape(sheet: Sheet, ins: Entries)
    ensures
        extract_rows_spec(sheet, ins) matches Ok(v) ==> {
            &&& (v is Object <==> has_key(ins, "unique_id"@))
            &&& (v is Array <==> !has_key(ins, "unique_id"@))
        },
{
}

/// The first `k` rows are empty for the stop condition `st`.
pub open spec fn leading_stop_empty(sheet: Sheet, cfg: MultirowSpec, st: StopSpec, rows: Seq<u32>, k: int) -> bool {
    &&& 0 <= k <= rows.len()
    &&& forall|i: int| 0 <= i < k ==> stop_empty(sheet, #[trigger] rows[i], cfg, st)
}

/// Gap tolerance: with a stop condition, a run of empty rows shorter than `consecutive`
/// (counting the `ce` empty rows just before it) is passed over, and the extraction goes
/// on after it, as "stop_consecutive" promises.
pub proof fn law_short_gap_passed_over(
    sheet: Sheet,
    cfg: MultirowSpec,
    st: StopSpec,
    rows: Seq<u32>,
    k: int,
    ce: int,
    list_acc: Seq<JsonSpec>,
    keyed_acc: Entries,
)
    requires
        leading_stop_empty(sheet, cfg, st, rows, k),
        0 <= ce,
        ce + k < st.consecutive,
    ensures
        list_rows(sheet, cfg, Some(st), rows, ce, list_acc) == list_rows(
            sheet,
            cfg,
            Some(st),
            rows.skip(k),
            ce + k,
            list_acc,
        ),
        keyed_rows(sheet, cfg, Some(st), rows, ce, keyed_acc) == keyed_rows(
            sheet,
            cfg,
            Some(st),
            rows.skip(k),
            ce + k,
            keyed_acc,
        ),
    decreases k,
{
    if k == 0 {
        assert(rows.skip(0) == rows);
    } else {
        assert(stop_empty(sheet, rows[0], cfg, st));
        let rest = rows.drop_first();
        assert(leading_stop_empty(sheet, cfg, st, rest, k - 1)) by {
            assert forall|i: int| 0 <= i < k - 1 implies stop_empty(sheet, #[trigger] rest[i], cfg, st) by {
                assert(rest[i] == rows[i + 1]);
            }
        }
        law_short_gap_passed_over(sheet, cfg, st, rest, k - 1, ce + 1, list_acc, keyed_acc);
        assert(rest.skip(k - 1) =~= rows.skip(k));
    }
}

/// With a stop condition, `consecutive` empty rows in a row (counting the `ce` empty rows
/// just before them) end the extraction: what was gathered so far is the result.
pub proof fn law_long_gap_stops(
    sheet: Sheet,
    cfg: MultirowSpec,
    st: StopSpec,
    rows: Seq<u32>,
    k: int,
    ce: int,
    list_acc: Seq<JsonSpec>,
    keyed_acc: Entries,
)
    requires
        leading_stop_empty(sheet, cfg, st, rows, k),
        k >= 1,
        0 <= ce,
        ce + k >= st.consecutive,
    ensures
        list_rows(sheet, cfg, Some(st), rows, ce, list_acc) == Ok::<Seq<JsonSpec>, ErrorSpec>(list_acc),
        keyed_rows(sheet, cfg, Some(st), rows, ce, keyed_acc) == Ok::<Entries, ErrorSpec>(keyed_acc),
    decreases k,
{
    assert(stop_empty(sheet, rows[0], cfg, st));
    if ce + 1 < st.consecutive {
        let rest = rows.drop_first();
        assert(leading_stop_empty(sheet, cfg, st, rest, k - 1)) by {
            assert forall|i: int| 0 <= i < k - 1 implies stop_empty(sheet, #[trigger] rest[i], cfg, st) by {
                assert(rest[i] == rows[i + 1]);
            }
        }
        law_long_gap_stops(sheet, cfg, st, rest, k - 1, ce + 1, list_acc, keyed_acc);
    }
}

/// A cell holding only white space counts as empty, in row mode as in column mode.
pub proof fn law_blank_text_is_empty(sheet: Sheet, row: u32, col: u32, s: Seq<char>)
    requires
        cell_of(sheet, row, col) == Some(CellSpec::Str(s)),
        trim(s).len() == 0,
    ensures
        !cell_filled(sheet, row, col),
{
    assert(trim_start(trim(s)) == trim(s));
    assert(trim_end(trim(s)) == trim(s));
}

/// A row whose unique id lacks a part (a cell with no value or with empty text) is not
/// stored. With a composite id, or under a stop condition, it is skipped and the
/// extraction goes on with the next row; with a single-column id and no stop condition
/// the extraction ends there.
pub proof fn law_rows_without_id_are_not_stored(
    sheet: Sheet,
    cfg: MultirowSpec,
    stop: Option<StopSpec>,
    rows: Seq<u32>,
    ce: int,
    acc: Entries,
)
    requires
        rows.len() > 0,
        row_id(sheet, rows[0], cfg) is None,
        !(stop is Some && stop_empty(sheet, rows[0], cfg, stop->0)),
    ensures
        keyed_rows(sheet, cfg, stop, rows, ce, acc) == if ends_at_missing_id(cfg, stop) {
            Ok::<Entries, ErrorSpec>(acc)
        } else {
            keyed_rows(sheet, cfg, stop, rows.drop_first(), 0, acc)
        },
{
}

/// Whether a cell holds data, read from the cell itself: no cell and an empty cell hold
/// none, a number or a boolean holds data, and text holds data exactly when it has a
/// character that is not white space.
pub proof fn law_cell_filled_by_content(sheet: Sheet, row: u32, col: u32)
    ensures
        cell_of(sheet, row, col) is None ==> !cell_filled(sheet, row, col),
        cell_of(sheet, row, col) == Some(CellSpec::Empty) ==> !cell_filled(sheet, row, col),
        cell_of(sheet, row, col) matches Some(CellSpec::Int(_)) ==> cell_filled(sheet, row, col),
        cell_of(sheet, row, col) matches Some(CellSpec::Bool(_)) ==> cell_filled(sheet, row, col),
        cell_of(sheet, row, col) matches Some(CellSpec::Str(t)) ==> (cell_filled(sheet, row, col) <==> exists|
            i: int,
        | 0 <= i < t.len() && !is_ws(#[trigger] t[i])),
{
    if let Some(CellSpec::Str(t)) = cell_of(sheet, row, col) {
        lemma_trim_twice(t);
        lemma_trim_empty_iff_blank(t);
    }
}

/// A text trims to nothing exactly when all its characters are white space.
proof fn lemma_trim_empty_iff_blank(t: Seq<char>)
    ensures
        trim(t).len() == 0 <==> forall|i: int| 0 <= i < t.len() ==> is_ws(#[trigger] t[i]),
    decreases t.len(),
{
    if t.len() > 0 {
        lemma_trim_empty_iff_blank(t.drop_first());
        if is_ws(t[0]) {
            assert(trim(t) == trim(t.drop_first()));
            assert(forall|i: int| 0 <= i < t.drop_first().len() ==> #[trigger] t.drop_first()[i] == t[i + 1]);
            if forall|i: int| 0 <= i < t.drop_first().len() ==> is_ws(#[trigger] t.drop_first()[i]) {
                assert forall|i: int| 0 <= i < t.len() implies is_ws(#[trigger] t[i]) by {
                    if i > 0 {
                        assert(t[i] == t.drop_first()[i - 1]);
                    }
                }
            } else {
                let k = choose|k: int| 0 <= k < t.drop_first().len() && !is_ws(#[trigger] t.drop_first()[k]);
                assert(!is_ws(t[k + 1]));
            }
        } else {
            assert(trim_start(t) == t);
            lemma_trim_end_keeps_first(t);
        }
    }
}

/// Trimming the end of a text whose first character is not white space leaves that
/// character.
proof fn lemma_trim_end_keeps_first(t: Seq<char>)
    requires
        t.len() > 0,
        !is_ws(t[0]),
    ensures
        trim_end(t).len() > 0,
    decreases t.len(),
{
    if is_ws(t.last()) {
        assert(t.len() > 1);
        assert(t.drop_last()[0] == t[0]);
        lemma_trim_end_keeps_first(t.drop_last());
    }
}

/// Under a column stop condition a row counts as empty exactly when none of the watched
/// columns holds data: a single filled column keeps the row.
pub proof fn law_column_stop_needs_every_column_blank(sheet: Sheet, row: u32, cfg: MultirowSpec, st: StopSpec)
    requires
        !st.row_mode,
    ensures
        stop_empty(sheet, row, cfg, st) <==> forall|i: int|
            0 <= i < st.columns.len() ==> !cell_filled(sheet, row, #[trigger] st.columns[i]),
        forall|i: int|
            0 <= i < st.columns.len() && cell_filled(sheet, row, #[trigger] st.columns[i]) ==> !stop_empty(
                sheet,
                row,
                cfg,
                st,
            ),
{
}

/// Under a row stop condition a row counts as empty exactly when none of the columns the
/// extraction reads holds data.
pub proof fn law_row_stop_needs_every_column_blank(sheet: Sheet, row: u32, cfg: MultirowSpec, st: StopSpec)
    requires
        st.row_mode,
    ensures
        stop_empty(sheet, row, cfg, st) <==> forall|i: int, j: int|
            0 <= i < cfg.columns.len() && 0 <= j < cfg.columns[i].indices.len() ==> !cell_filled(
                sheet,
                row,
                #[trigger] cfg.columns[i].indices[j],
            ),
{
}

} // verus!
