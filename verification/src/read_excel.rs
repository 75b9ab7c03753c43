use vstd::prelude::*;
use crate::folds::lemma_stop_carries;
use crate::error::{ErrorOf, ExtractError, ErrorSpec};
use crate::json::{JsonMap, JsonValue, JsonSpec, Entries, lookup, has_key, first_pos, insert_entry, entries_model, distinct_keys, lemma_first_unique, lemma_first_exists, lemma_object_model, lemma_lookup_insert};
use crate::helpers::{unique_key, make_unique_key, lemma_unique_insert};
use crate::json::{as_str, as_array, as_object, models};
use crate::conversions::{address_spec, address_to_row_col};
use crate::manipulations::{Sheet, CellSpec, cell_of, cell_result, extract_cell_value};
use crate::single_cells::{values_spec, extract_values};
use crate::multirow_patterns::{extract_rows_spec, extract_rows};
use crate::dataframe::{dataframe_spec, extract_dataframe, dataframe_config_ok};
use crate::sheets::{views, resolve_spec, resolve_sheet_names};
use crate::index_map::index_map_into_entries;
use crate::text::str_eq;

verus! {

/// Each entry of `items` stored in turn under a key that overwrites nothing (see
/// `unique_key`).
pub open spec fn insert_unique_all(acc: Entries, items: Entries) -> Entries
    decreases items.len(),
{
    if items.len() == 0 {
        acc
    } else {
        let a = insert_unique_all(acc, items.drop_last());
        insert_entry(a, unique_key(a, items.last().0), items.last().1)
    }
}

/// Each entry of `items` stored in turn under its own key.
pub open spec fn insert_all(acc: Entries, items: Entries) -> Entries
    decreases items.len(),
{
    if items.len() == 0 {
        acc
    } else {
        insert_entry(insert_all(acc, items.drop_last()), items.last().0, items.last().1)
    }
}

/// The results after the entries `items` of an extraction are added under `label`: with no
/// label each goes straight into the results under a key that overwrites nothing; with a
/// label they join an object already stored there, or become a new object there.
pub open spec fn merge_object(sr: Entries, label: Seq<char>, items: Entries) -> Entries {
    if label.len() == 0 {
        insert_unique_all(sr, items)
    } else {
        match lookup(sr, label) {
            Some(JsonSpec::Object(existing)) => sr.update(
                first_pos(sr, label),
                (label, JsonSpec::Object(insert_all(existing, items))),
            ),
            _ => insert_entry(sr, label, JsonSpec::Object(items)),
        }
    }
}

/// The results after a multirow result `v` is added under `label`: an object is treated as
/// `merge_object` treats entries (an unlabelled array goes under "multirow_patterns"); a
/// labelled array replaces what was under the label.
pub open spec fn merge_multirow(sr: Entries, label: Seq<char>, v: JsonSpec) -> Entries {
    if label.len() == 0 {
        match v {
            JsonSpec::Object(obj) => insert_unique_all(sr, obj),
            JsonSpec::Array(_) => insert_entry(sr, "multirow_patterns"@, v),
            _ => sr,
        }
    } else {
        match (lookup(sr, label), v) {
            (Some(JsonSpec::Object(existing)), JsonSpec::Object(obj)) => sr.update(
                first_pos(sr, label),
                (label, JsonSpec::Object(insert_all(existing, obj))),
            ),
            _ => insert_entry(sr, label, v),
        }
    }
}

/// The file results after the results `sr` of sheet `name` are added: they join an object
/// already stored under the sheet's name, or become a new object there.
pub open spec fn merge_sheet(results: Entries, name: Seq<char>, sr: Entries) -> Entries {
    match lookup(results, name) {
        Some(JsonSpec::Object(existing)) => results.update(
            first_pos(results, name),
            (name, JsonSpec::Object(insert_all(existing, sr))),
        ),
        _ => insert_entry(results, name, JsonSpec::Object(sr)),
    }
}

/// `v` in reverse order.
fn reversed<T>(v: Vec<T>) -> (r: Vec<T>)
    ensures
        r@ == v@.reverse(),
{
    let mut v = v;
    let mut r: Vec<T> = Vec::new();
    let ghost orig = v@;
    while v.len() > 0
        invariant
            orig.len() == v@.len() + r@.len(),
            v@ == orig.take(v@.len() as int),
            r@ == orig.skip(v@.len() as int).reverse(),
        decreases v@.len(),
    {
        let ghost k = v@.len();
        let x = v.pop().unwrap();
        r.push(x);
        assert(orig.skip(k - 1).reverse() =~= orig.skip(k as int).reverse().push(x));
        assert(v@ =~= orig.take(k - 1));
    }
    assert(orig.skip(0) == orig);
    r
}

/// Stores each of `items` in `acc` in turn: under a key that overwrites nothing when
/// `unique`, else under its own key.
fn insert_each(acc: &mut JsonMap, items: Vec<(String, JsonValue)>, unique: bool)
    ensures
        final(acc).model() == if unique {
            insert_unique_all(old(acc).model(), entries_model(items@))
        } else {
            insert_all(old(acc).model(), entries_model(items@))
        },
{
    let ghost all = entries_model(items@);
    let ghost start = acc.model();
    let mut rest = reversed(items);
    let ghost n = all.len();
    assert(all.take(0) =~= Seq::<(Seq<char>, JsonSpec)>::empty());
    while rest.len() > 0
        invariant
            n == all.len(),
            rest@.len() <= n,
            entries_model(rest@.reverse()) == all.skip(n - rest@.len()),
            acc.model() == if unique {
                insert_unique_all(start, all.take(n - rest@.len()))
            } else {
                insert_all(start, all.take(n - rest@.len()))
            },
        decreases rest@.len(),
    {
        let ghost k = n - rest@.len();
        let ghost before = rest@;
        let (key, value) = rest.pop().unwrap();
        assert(before.reverse()[0] == (key, value));
        assert(all.skip(k)[0] == (key@, value.model()));
        assert(all[k] == (key@, value.model()));
        assert(entries_model(rest@.reverse()) =~= all.skip(k + 1)) by {
            assert(rest@.reverse() =~= before.reverse().drop_first());
            assert forall|j: int| 0 <= j < rest@.len() implies #[trigger] entries_model(rest@.reverse())[j] == all.skip(k + 1)[j] by {
                assert(entries_model(rest@.reverse())[j] == entries_model(before.reverse())[j + 1]);
                assert(all.skip(k + 1)[j] == all.skip(k)[j + 1]);
            }
        }
        assert(all.take(k + 1).drop_last() == all.take(k));
        assert(all.take(k + 1).last() == all[k]);
        if unique {
            let key = make_unique_key(acc, key.as_str());
            acc.insert(key, value);
        } else {
            acc.insert(key, value);
        }
    }
    assert(all.take(n as int) == all);
}

/// Adds the entries of an extraction to the sheet results under `label` (see
/// `merge_object`).
fn merge_entries(sr: &mut JsonMap, label: &str, items: Vec<(String, JsonValue)>)
    ensures
        final(sr).model() == merge_object(old(sr).model(), label@, entries_model(items@)),
{
    if label.is_empty() {
        insert_each(sr, items, true);
        return;
    }
    match sr.position(label) {
        Some(i) => {
            proof {
                lemma_first_unique(sr.model(), label@, i as int);
            }
            let old_value = sr.replace_value(i, JsonValue::Null);
            match old_value {
                JsonValue::Object(mut existing) => {
                    proof {
                        lemma_object_model(existing);
                    }
                    insert_each(&mut existing, items, false);
                    let merged = JsonValue::Object(existing);
                    proof {
                        lemma_object_model(existing);
                    }
                    sr.replace_value(i, merged);
                    assert(sr.model() =~= merge_object(old(sr).model(), label@, entries_model(items@)));
                },
                other => {
                    let fresh = JsonMap { entries: items };
                    proof {
                        lemma_object_model(fresh);
                    }
                    sr.replace_value(i, JsonValue::Object(fresh));
                    assert(sr.model() =~= merge_object(old(sr).model(), label@, entries_model(items@)));
                },
            }
        },
        None => {
            let fresh = JsonMap { entries: items };
            proof {
                lemma_object_model(fresh);
            }
            sr.insert(label.to_owned(), JsonValue::Object(fresh));
        },
    }
}

/// Adds a multirow result to the sheet results under `label` (see `merge_multirow`).
fn merge_rows(sr: &mut JsonMap, label: &str, result: JsonValue)
    ensures
        final(sr).model() == merge_multirow(old(sr).model(), label@, result.model()),
{
    if label.is_empty() {
        match result {
            JsonValue::Object(obj) => {
                proof {
                    lemma_object_model(obj);
                }
                insert_each(sr, obj.entries, true);
            },
            JsonValue::Array(a) => {
                sr.insert("multirow_patterns".to_owned(), JsonValue::Array(a));
            },
            _ => {},
        }
        return;
    }
    match sr.position(label) {
        Some(i) => {
            proof {
                lemma_first_unique(sr.model(), label@, i as int);
            }
            let old_value = sr.replace_value(i, JsonValue::Null);
            match (old_value, result) {
                (JsonValue::Object(mut existing), JsonValue::Object(obj)) => {
                    proof {
                        lemma_object_model(existing);
                        lemma_object_model(obj);
                    }
                    insert_each(&mut existing, obj.entries, false);
                    let merged = JsonValue::Object(existing);
                    proof {
                        lemma_object_model(existing);
                    }
                    sr.replace_value(i, merged);
                    assert(sr.model() =~= merge_multirow(old(sr).model(), label@, result.model()));
                },
                (_, r) => {
                    sr.replace_value(i, r);
                    assert(sr.model() =~= merge_multirow(old(sr).model(), label@, result.model()));
                },
            }
        },
        None => {
            sr.insert(label.to_owned(), result);
        },
    }
}

/// Adds the results of sheet `name` to the file results (see `merge_sheet`).
fn merge_sheet_results(results: &mut JsonMap, name: &str, sheet_results: JsonMap)
    ensures
        final(results).model() == merge_sheet(old(results).model(), name@, sheet_results.model()),
{
    match results.position(name) {
        Some(i) => {
            proof {
                lemma_first_unique(results.model(), name@, i as int);
            }
            let old_value = results.replace_value(i, JsonValue::Null);
            match old_value {
                JsonValue::Object(mut existing) => {
                    proof {
                        lemma_object_model(existing);
                    }
                    insert_each(&mut existing, sheet_results.entries, false);
                    let merged = JsonValue::Object(existing);
                    proof {
                        lemma_object_model(existing);
                    }
                    results.replace_value(i, merged);
                    assert(results.model() =~= merge_sheet(old(results).model(), name@, sheet_results.model()));
                },
                other => {
                    proof {
                        lemma_object_model(sheet_results);
                    }
                    results.replace_value(i, JsonValue::Object(sheet_results));
                    assert(results.model() =~= merge_sheet(old(results).model(), name@, sheet_results.model()));
                },
            }
        },
        None => {
            proof {
                lemma_object_model(sheet_results);
            }
            results.insert(name.to_owned(), JsonValue::Object(sheet_results));
        },
    }
}


/// One extraction rule: its function, its label ("" when absent), its instructions, and
/// the cell that, when empty, skips it.
pub struct ExtractionSpec {
    pub function: Seq<char>,
    pub label: Seq<char>,
    pub instructions: Entries,
    pub break_if_null: Option<Seq<char>>,
}

/// The text under `key` in an object, if it is text.
pub open spec fn str_field(o: Entries, key: Seq<char>) -> Option<Seq<char>> {
    match lookup(o, key) {
        Some(v) => as_str(v),
        None => None,
    }
}

/// An extraction rule read from its JSON object.
pub open spec fn parse_extraction(x: JsonSpec) -> Result<ExtractionSpec, ErrorSpec> {
    match x {
        JsonSpec::Object(o) => match str_field(o, "function"@) {
            None => Err(ErrorOf::MissingFunction),
            Some(f) => match lookup(o, "instructions"@) {
                Some(JsonSpec::Object(ins)) => Ok(ExtractionSpec {
                    function: f,
                    label: match str_field(o, "label"@) {
                        Some(l) => l,
                        None => Seq::empty(),
                    },
                    instructions: ins,
                    break_if_null: str_field(o, "break_if_null"@),
                }),
                _ => Err(ErrorOf::MissingInstructions),
            },
        },
        _ => Err(ErrorOf::ExtractionNotObject),
    }
}

/// The extraction rules of an array, in order; the first error if one is malformed.
pub open spec fn parse_extractions(a: Seq<JsonSpec>) -> Result<Seq<ExtractionSpec>, ErrorSpec>
    decreases a.len(),
{
    if a.len() == 0 {
        Ok(Seq::empty())
    } else {
        match parse_extractions(a.drop_last()) {
            Err(e) => Err(e),
            Ok(xs) => match parse_extraction(a.last()) {
                Err(e) => Err(e),
                Ok(x) => Ok(xs.push(x)),
            },
        }
    }
}

/// The extraction rules of a sheet group.
pub open spec fn group_extractions(d: Entries) -> Result<Seq<ExtractionSpec>, ErrorSpec> {
    match lookup(d, "extractions"@) {
        Some(JsonSpec::Array(a)) => parse_extractions(a),
        _ => Err(ErrorOf::MissingExtractions),
    }
}

/// Whether the cell at `address` is empty: no cell or a `null` value.
pub open spec fn cell_is_null(sheet: Sheet, address: Seq<char>) -> Result<bool, ErrorSpec> {
    match address_spec(address) {
        Err(e) => Err(e),
        Ok((row, col)) => match cell_result(cell_of(sheet, row, col), false) {
            Err(e) => Err(e),
            Ok((None, _)) => Ok(true),
            Ok((Some(v), _)) => Ok(v == JsonSpec::Null),
        },
    }
}

/// Whether a "break_if_null" check skips: never without an address.
pub open spec fn skip_check(sheet: Sheet, address: Option<Seq<char>>) -> Result<bool, ErrorSpec> {
    match address {
        Some(a) => cell_is_null(sheet, a),
        None => Ok(false),
    }
}

/// The sheet results after one extraction rule runs on `sheet`. A rule whose
/// "break_if_null" cell is empty is skipped, and so is a rule of an unknown function.
/// `None` where the run aborts: a dataframe rule whose settings are unreadable (see
/// `dataframe_config`).
pub open spec fn run_extraction(sheet: Sheet, x: ExtractionSpec, sr: Entries) -> Option<Result<Entries, ErrorSpec>> {
    match skip_check(sheet, x.break_if_null) {
        Err(e) => Some(Err(e)),
        Ok(true) => Some(Ok(sr)),
        Ok(false) => if x.function == "single_cells"@ {
            Some(
                match values_spec(sheet, x.instructions) {
                    Ok(items) => Ok(merge_object(sr, x.label, items)),
                    Err(e) => Err(e),
                },
            )
        } else if x.function == "multirow_patterns"@ {
            Some(
                match extract_rows_spec(sheet, x.instructions) {
                    Ok(v) => Ok(merge_multirow(sr, x.label, v)),
                    Err(e) => Err(e),
                },
            )
        } else if x.function == "dataframe"@ {
            match dataframe_spec(sheet, x.instructions) {
                Some(Ok(items)) => Some(Ok(merge_object(sr, x.label, items))),
                Some(Err(e)) => Some(Err(e)),
                None => None,
            }
        } else {
            Some(Ok(sr))
        },
    }
}

/// The results of the rules `xs` on `sheet`, in order; the first error or abort ends it.
pub open spec fn run_extractions(sheet: Sheet, xs: Seq<ExtractionSpec>) -> Option<Result<Entries, ErrorSpec>>
    decreases xs.len(),
{
    if xs.len() == 0 {
        Some(Ok(Seq::empty()))
    } else {
        match run_extractions(sheet, xs.drop_last()) {
            Some(Ok(sr)) => run_extraction(sheet, xs.last(), sr),
            stop => stop,
        }
    }
}

/// A workbook as the extraction reads it: its sheet names, and the readable sheets.
pub struct Workbook {
    pub sheet_names: Vec<String>,
    pub sheets: Vec<(String, Sheet)>,
}

/// The first sheet named `name`.
pub open spec fn find_sheet(sheets: Seq<(String, Sheet)>, name: Seq<char>) -> Option<Sheet>
    decreases sheets.len(),
{
    if sheets.len() == 0 {
        None
    } else if sheets[0].0@ == name {
        Some(sheets[0].1)
    } else {
        find_sheet(sheets.drop_first(), name)
    }
}

/// The file results after a sheet group's rules run on the sheet named `name`: a name
/// with no readable sheet is skipped, and so is a sheet whose "break_if_null" cell is
/// empty.
pub open spec fn process_sheet(
    wb: Workbook,
    name: Seq<char>,
    break_if_null: Option<Seq<char>>,
    xs: Seq<ExtractionSpec>,
    acc: Entries,
) -> Option<Result<Entries, ErrorSpec>> {
    match find_sheet(wb.sheets@, name) {
        None => Some(Ok(acc)),
        Some(sheet) => match skip_check(sheet, break_if_null) {
            Err(e) => Some(Err(e)),
            Ok(true) => Some(Ok(acc)),
            Ok(false) => match run_extractions(sheet, xs) {
                Some(Ok(sr)) => Some(Ok(merge_sheet(acc, name, sr))),
                stop => stop,
            },
        },
    }
}

/// The file results after a sheet group's rules run on the sheets `names` in turn.
pub open spec fn process_sheets(
    wb: Workbook,
    names: Seq<Seq<char>>,
    break_if_null: Option<Seq<char>>,
    xs: Seq<ExtractionSpec>,
    results: Entries,
) -> Option<Result<Entries, ErrorSpec>>
    decreases names.len(),
{
    if names.len() == 0 {
        Some(Ok(results))
    } else {
        match process_sheets(wb, names.drop_last(), break_if_null, xs, results) {
            Some(Ok(acc)) => process_sheet(wb, names.last(), break_if_null, xs, acc),
            stop => stop,
        }
    }
}

/// The file results after one sheet group. `Some(Ok(None))` when the workbook could not be
/// opened, which makes the whole file's result `null`; `None` where the run aborts.
pub open spec fn process_detail(wb: Option<Workbook>, d: JsonSpec, results: Entries) -> Option<
    Result<Option<Entries>, ErrorSpec>,
> {
    match d {
        JsonSpec::Object(o) => match wb {
            None => Some(Ok(None)),
            Some(w) => match resolve_spec(o, views(w.sheet_names@)) {
                Err(e) => Some(Err(e)),
                Ok(names) => match group_extractions(o) {
                    Err(e) => Some(Err(e)),
                    Ok(xs) => match process_sheets(w, names, str_field(o, "break_if_null"@), xs, results) {
                        Some(Ok(r)) => Some(Ok(Some(r))),
                        Some(Err(e)) => Some(Err(e)),
                        None => None,
                    },
                },
            },
        },
        _ => Some(Err(ErrorOf::DetailNotObject)),
    }
}

/// The file results after the sheet groups `ds`, starting from the file's path.
pub open spec fn process_details(path: Seq<char>, wb: Option<Workbook>, ds: Seq<JsonSpec>) -> Option<
    Result<Option<Entries>, ErrorSpec>,
>
    decreases ds.len(),
{
    if ds.len() == 0 {
        Some(Ok(Some(seq![("filepath"@, JsonSpec::Str(path))])))
    } else {
        match process_details(path, wb, ds.drop_last()) {
            Some(Ok(Some(acc))) => process_detail(wb, ds.last(), acc),
            stop => stop,
        }
    }
}

/// What one file gives: an object with its path and the results of each sheet, `null`
/// when the workbook could not be opened, or the first error. `None` where the run
/// aborts (see `run_extraction`).
pub open spec fn process_file_spec(path: Seq<char>, wb: Option<Workbook>, ds: Seq<JsonSpec>) -> Option<
    Result<JsonSpec, ErrorSpec>,
> {
    match process_details(path, wb, ds) {
        Some(Ok(None)) => Some(Ok(JsonSpec::Null)),
        Some(Ok(Some(e))) => Some(Ok(JsonSpec::Object(e))),
        Some(Err(e)) => Some(Err(e)),
        None => None,
    }
}

/// The text of an optional string.
pub open spec fn text_view(s: Option<String>) -> Option<Seq<char>> {
    match s {
        Some(t) => Some(t@),
        None => None,
    }
}

/// An extraction rule as it runs.
pub struct Extraction {
    pub function: String,
    pub label: String,
    pub instructions: JsonMap,
    pub break_if_null: Option<String>,
}

impl Extraction {
    pub open spec fn model(self) -> ExtractionSpec {
        ExtractionSpec {
            function: self.function@,
            label: self.label@,
            instructions: self.instructions.model(),
            break_if_null: text_view(self.break_if_null),
        }
    }
}

/// The models of a sequence of rules.
pub open spec fn extraction_models(xs: Seq<Extraction>) -> Seq<ExtractionSpec> {
    Seq::new(xs.len(), |i: int| xs[i].model())
}

/// The text under `key` in an object, if it is text.
fn text_field(o: &JsonMap, key: &str) -> (r: Option<String>)
    ensures
        match r {
            Some(s) => str_field(o.model(), key@) == Some(s@),
            None => str_field(o.model(), key@) is None,
        },
{
    match o.get(key) {
        Some(v) => match v.as_str() {
            Some(s) => Some(s.to_owned()),
            None => None,
        },
        None => None,
    }
}

/// Reads an extraction rule from its JSON object (see `parse_extraction`).
pub fn read_extraction(x: &JsonValue) -> (r: Result<Extraction, ExtractError>)
    ensures
        match parse_extraction(x.model()) {
            Ok(e) => r matches Ok(y) && y.model() == e,
            Err(e) => r matches Err(y) && y.model() == e,
        },
{
    let o = match x.as_object() {
        Some(o) => o,
        None => {
            return Err(ErrorOf::ExtractionNotObject);
        },
    };
    let function = match text_field(o, "function") {
        Some(f) => f,
        None => {
            return Err(ErrorOf::MissingFunction);
        },
    };
    let instructions = match o.get("instructions") {
        Some(v) => match v.as_object() {
            Some(m) => m.duplicate(),
            None => {
                return Err(ErrorOf::MissingInstructions);
            },
        },
        None => {
            return Err(ErrorOf::MissingInstructions);
        },
    };
    let label = match text_field(o, "label") {
        Some(l) => l,
        None => String::new(),
    };
    let break_if_null = text_field(o, "break_if_null");
    Ok(Extraction { function, label, instructions, break_if_null })
}

proof fn lemma_parse_stop(a: Seq<JsonSpec>, j: int)
    requires
        0 <= j <= a.len(),
        parse_extractions(a.take(j)) is Err,
    ensures
        parse_extractions(a) == parse_extractions(a.take(j)),
{
    let f = |c: Seq<JsonSpec>| parse_extractions(c);
    let stops = |r| r is Err;
    assert forall|k: int| 0 <= k < a.len() && stops(#[trigger] f(a.take(k))) implies f(a.take(k + 1)) == f(
        a.take(k),
    ) by {
        assert(a.take(k + 1).drop_last() == a.take(k));
    }
    lemma_stop_carries(f, stops, a, j);
}

/// Reads the extraction rules of a sheet group (see `group_extractions`).
pub fn read_extractions(detail: &JsonMap) -> (r: Result<Vec<Extraction>, ExtractError>)
    ensures
        match group_extractions(detail.model()) {
            Ok(xs) => r matches Ok(v) && extraction_models(v@) == xs,
            Err(e) => r matches Err(x) && x.model() == e,
        },
{
    let a = match detail.get("extractions") {
        Some(v) => match v.as_array() {
            Some(a) => a,
            None => {
                return Err(ErrorOf::MissingExtractions);
            },
        },
        None => {
            return Err(ErrorOf::MissingExtractions);
        },
    };
    let ghost am = models(a@);
    let mut out: Vec<Extraction> = Vec::new();
    let n = a.len();
    assert(am.take(0) =~= Seq::<JsonSpec>::empty());
    assert(extraction_models(out@) =~= Seq::<ExtractionSpec>::empty());
    for i in 0..n
        invariant
            n == a@.len(),
            am == models(a@),
            group_extractions(detail.model()) == parse_extractions(am),
            parse_extractions(am.take(i as int)) == Ok::<Seq<ExtractionSpec>, ErrorSpec>(
                extraction_models(out@),
            ),
    {
        assert(am.take(i + 1).drop_last() == am.take(i as int));
        assert(am.take(i + 1).last() == a@[i as int].model());
        match read_extraction(&a[i]) {
            Ok(x) => {
                let ghost old_out = out@;
                let ghost xm = x.model();
                out.push(x);
                assert(extraction_models(out@) =~= extraction_models(old_out).push(xm));
            },
            Err(e) => {
                proof {
                    assert(parse_extraction(am.take(i + 1).last()) == Err::<ExtractionSpec, ErrorSpec>(e.model()));
                    assert(parse_extractions(am.take(i + 1)) == Err::<Seq<ExtractionSpec>, ErrorSpec>(e.model()));
                    lemma_parse_stop(am, i + 1);
                }
                return Err(e);
            },
        }
    }
    assert(am.take(n as int) == am);
    Ok(out)
}

/// Whether the cell at `address` is empty (see `cell_is_null`).
fn cell_is_null_at(sheet: &Sheet, address: &str) -> (r: Result<bool, ExtractError>)
    ensures
        match cell_is_null(*sheet, address@) {
            Ok(b) => r == Ok::<bool, ExtractError>(b),
            Err(e) => r matches Err(x) && x.model() == e,
        },
{
    let (row, col) = address_to_row_col(address)?;
    let (v, _) = extract_cell_value(sheet, row, col, false)?;
    match v {
        Some(v) => Ok(v.is_null()),
        None => Ok(true),
    }
}

/// Whether a "break_if_null" check skips (see `skip_check`).
fn skip_check_at(sheet: &Sheet, address: &Option<String>) -> (r: Result<bool, ExtractError>)
    ensures
        match skip_check(*sheet, text_view(*address)) {
            Ok(b) => r == Ok::<bool, ExtractError>(b),
            Err(e) => r matches Err(x) && x.model() == e,
        },
{
    match address {
        Some(a) => cell_is_null_at(sheet, a.as_str()),
        None => Ok(false),
    }
}

/// Runs one extraction rule on `sheet` and adds what it gives to the sheet results `sr`
/// (see `run_extraction`). `None` where the rule's settings are unreadable.
pub fn run_extraction_on(sheet: &Sheet, x: &Extraction, sr: &mut JsonMap) -> (r: Option<Result<(), ExtractError>>)
    ensures
        match run_extraction(*sheet, x.model(), old(sr).model()) {
            Some(Ok(e)) => r matches Some(Ok(_)) && final(sr).model() == e,
            Some(Err(e)) => r matches Some(Err(y)) && y.model() == e,
            None => r is None,
        },
{
    match skip_check_at(sheet, &x.break_if_null) {
        Err(e) => {
            return Some(Err(e));
        },
        Ok(true) => {
            return Some(Ok(()));
        },
        Ok(false) => {},
    }
    let f = x.function.as_str();
    if str_eq(f, "single_cells") {
        match extract_values(sheet, &x.instructions) {
            Ok(m) => {
                let items = index_map_into_entries(m);
                merge_entries(sr, x.label.as_str(), items);
                Some(Ok(()))
            },
            Err(e) => Some(Err(e)),
        }
    } else if str_eq(f, "multirow_patterns") {
        match extract_rows(sheet, &x.instructions) {
            Ok(v) => {
                merge_rows(sr, x.label.as_str(), v);
                Some(Ok(()))
            },
            Err(e) => Some(Err(e)),
        }
    } else if str_eq(f, "dataframe") {
        if !dataframe_config_ok(&x.instructions) {
            return None;
        }
        match extract_dataframe(sheet, &x.instructions) {
            Ok(m) => {
                let items = index_map_into_entries(m);
                merge_entries(sr, x.label.as_str(), items);
                Some(Ok(()))
            },
            Err(e) => Some(Err(e)),
        }
    } else {
        Some(Ok(()))
    }
}

proof fn lemma_run_stop(sheet: Sheet, xs: Seq<ExtractionSpec>, j: int)
    requires
        0 <= j <= xs.len(),
        !(run_extractions(sheet, xs.take(j)) is Some && run_extractions(sheet, xs.take(j))->0 is Ok),
    ensures
        run_extractions(sheet, xs) == run_extractions(sheet, xs.take(j)),
{
    let f = |c: Seq<ExtractionSpec>| run_extractions(sheet, c);
    let stops = |r: Option<Result<Entries, ErrorSpec>>| !(r is Some && r->0 is Ok);
    assert forall|k: int| 0 <= k < xs.len() && stops(#[trigger] f(xs.take(k))) implies f(xs.take(k + 1)) == f(
        xs.take(k),
    ) by {
        assert(xs.take(k + 1).drop_last() == xs.take(k));
    }
    lemma_stop_carries(f, stops, xs, j);
}

/// Runs the rules `xs` on `sheet` in order and gives the sheet results (see
/// `run_extractions`).
pub fn run_extractions_on(sheet: &Sheet, xs: &Vec<Extraction>) -> (r: Option<Result<JsonMap, ExtractError>>)
    ensures
        match run_extractions(*sheet, extraction_models(xs@)) {
            Some(Ok(e)) => r matches Some(Ok(m)) && m.model() == e,
            Some(Err(e)) => r matches Some(Err(y)) && y.model() == e,
            None => r is None,
        },
{
    let ghost xm = extraction_models(xs@);
    let mut sr = JsonMap::new();
    let n = xs.len();
    assert(xm.take(0) =~= Seq::<ExtractionSpec>::empty());
    for i in 0..n
        invariant
            n == xs@.len(),
            xm == extraction_models(xs@),
            run_extractions(*sheet, xm.take(i as int)) == Some(Ok::<Entries, ErrorSpec>(sr.model())),
    {
        assert(xm.take(i + 1).drop_last() == xm.take(i as int));
        assert(xm.take(i + 1).last() == xs@[i as int].model());
        match run_extraction_on(sheet, &xs[i], &mut sr) {
            Some(Ok(())) => {},
            Some(Err(e)) => {
                proof {
                    lemma_run_stop(*sheet, xm, i + 1);
                }
                return Some(Err(e));
            },
            None => {
                proof {
                    lemma_run_stop(*sheet, xm, i + 1);
                }
                return None;
            },
        }
    }
    assert(xm.take(n as int) == xm);
    Some(Ok(sr))
}

/// The first sheet named `name` (see `find_sheet`).
fn find_sheet_named<'a>(sheets: &'a Vec<(String, Sheet)>, name: &str) -> (r: Option<&'a Sheet>)
    ensures
        match find_sheet(sheets@, name@) {
            Some(s) => r matches Some(x) && *x == s,
            None => r is None,
        },
{
    let n = sheets.len();
    assert(sheets@.skip(0) == sheets@);
    for i in 0..n
        invariant
            n == sheets@.len(),
            find_sheet(sheets@, name@) == find_sheet(sheets@.skip(i as int), name@),
    {
        assert(sheets@.skip(i as int).drop_first() =~= sheets@.skip(i + 1));
        assert(sheets@.skip(i as int)[0] == sheets@[i as int]);
        if str_eq(sheets[i].0.as_str(), name) {
            return Some(&sheets[i].1);
        }
    }
    assert(sheets@.skip(n as int).len() == 0);
    None
}

/// Runs a sheet group's rules on the sheet named `name` and adds its results to the file
/// results (see `process_sheet`).
fn process_sheet_on(
    wb: &Workbook,
    name: &str,
    break_if_null: &Option<String>,
    xs: &Vec<Extraction>,
    results: &mut JsonMap,
) -> (r: Option<Result<(), ExtractError>>)
    ensures
        match process_sheet(*wb, name@, text_view(*break_if_null), extraction_models(xs@), old(results).model()) {
            Some(Ok(e)) => r matches Some(Ok(_)) && final(results).model() == e,
            Some(Err(e)) => r matches Some(Err(y)) && y.model() == e,
            None => r is None,
        },
{
    let sheet = match find_sheet_named(&wb.sheets, name) {
        None => {
            return Some(Ok(()));
        },
        Some(s) => s,
    };
    match skip_check_at(sheet, break_if_null) {
        Err(e) => {
            return Some(Err(e));
        },
        Ok(true) => {
            return Some(Ok(()));
        },
        Ok(false) => {},
    }
    match run_extractions_on(sheet, xs) {
        Some(Ok(sr)) => {
            merge_sheet_results(results, name, sr);
            Some(Ok(()))
        },
        Some(Err(e)) => Some(Err(e)),
        None => None,
    }
}

proof fn lemma_sheets_stop(
    wb: Workbook,
    names: Seq<Seq<char>>,
    b: Option<Seq<char>>,
    xs: Seq<ExtractionSpec>,
    start: Entries,
    j: int,
)
    requires
        0 <= j <= names.len(),
        !(process_sheets(wb, names.take(j), b, xs, start) is Some && process_sheets(
            wb,
            names.take(j),
            b,
            xs,
            start,
        )->0 is Ok),
    ensures
        process_sheets(wb, names, b, xs, start) == process_sheets(wb, names.take(j), b, xs, start),
{
    let f = |c: Seq<Seq<char>>| process_sheets(wb, c, b, xs, start);
    let stops = |r: Option<Result<Entries, ErrorSpec>>| !(r is Some && r->0 is Ok);
    assert forall|k: int| 0 <= k < names.len() && stops(#[trigger] f(names.take(k))) implies f(names.take(k + 1)) == f(
        names.take(k),
    ) by {
        assert(names.take(k + 1).drop_last() == names.take(k));
    }
    lemma_stop_carries(f, stops, names, j);
}

/// Runs a sheet group's rules on the sheets `names` in turn (see `process_sheets`).
fn process_sheets_on(
    wb: &Workbook,
    names: &Vec<String>,
    break_if_null: &Option<String>,
    xs: &Vec<Extraction>,
    results: &mut JsonMap,
) -> (r: Option<Result<(), ExtractError>>)
    ensures
        match process_sheets(*wb, views(names@), text_view(*break_if_null), extraction_models(xs@), old(results).model()) {
            Some(Ok(e)) => r matches Some(Ok(_)) && final(results).model() == e,
            Some(Err(e)) => r matches Some(Err(y)) && y.model() == e,
            None => r is None,
        },
{
    let ghost nv = views(names@);
    let ghost b = text_view(*break_if_null);
    let ghost xm = extraction_models(xs@);
    let ghost start = results.model();
    let n = names.len();
    assert(nv.take(0) =~= Seq::<Seq<char>>::empty());
    for i in 0..n
        invariant
            n == names@.len(),
            nv == views(names@),
            b == text_view(*break_if_null),
            xm == extraction_models(xs@),
            start == old(results).model(),
            process_sheets(*wb, nv.take(i as int), b, xm, start) == Some(Ok::<Entries, ErrorSpec>(results.model())),
    {
        assert(nv.take(i + 1).drop_last() == nv.take(i as int));
        assert(nv.take(i + 1).last() == names@[i as int]@);
        match process_sheet_on(wb, names[i].as_str(), break_if_null, xs, results) {
            Some(Ok(())) => {},
            Some(Err(e)) => {
                proof {
                    lemma_sheets_stop(*wb, nv, b, xm, start, i + 1);
                }
                return Some(Err(e));
            },
            None => {
                proof {
                    lemma_sheets_stop(*wb, nv, b, xm, start, i + 1);
                }
                return None;
            },
        }
    }
    assert(nv.take(n as int) == nv);
    Some(Ok(()))
}

proof fn lemma_details_stop(path: Seq<char>, wb: Option<Workbook>, ds: Seq<JsonSpec>, j: int)
    requires
        0 <= j <= ds.len(),
        !(process_details(path, wb, ds.take(j)) matches Some(Ok(Some(_)))),
    ensures
        process_details(path, wb, ds) == process_details(path, wb, ds.take(j)),
{
    let f = |c: Seq<JsonSpec>| process_details(path, wb, c);
    let stops = |r| !(r matches Some(Ok(Some(_))));
    assert forall|k: int| 0 <= k < ds.len() && stops(#[trigger] f(ds.take(k))) implies f(ds.take(k + 1)) == f(
        ds.take(k),
    ) by {
        assert(ds.take(k + 1).drop_last() == ds.take(k));
    }
    lemma_stop_carries(f, stops, ds, j);
}

/// The extraction of one file from its workbook (`None` when it could not be opened):
/// each sheet group of `details` in turn picks its sheets and runs its rules on them, and
/// the results are gathered in an object that starts with the file's path (see
/// `process_file_spec`). `None` where the run aborts: a dataframe rule whose settings are
/// unreadable.
pub fn process_workbook(file_path: &str, workbook: &Option<Workbook>, details: &Vec<JsonValue>) -> (r: Option<
    Result<JsonValue, ExtractError>,
>)
    ensures
        match process_file_spec(file_path@, *workbook, models(details@)) {
            Some(Ok(v)) => r matches Some(Ok(x)) && x.model() == v,
            Some(Err(e)) => r matches Some(Err(y)) && y.model() == e,
            None => r is None,
        },
{
    let mut results = JsonMap::new();
    results.insert("filepath".to_owned(), JsonValue::Str(file_path.to_owned()));
    let ghost dm = models(details@);
    assert(results.model() =~= seq![("filepath"@, JsonSpec::Str(file_path@))]);
    assert(dm.take(0) =~= Seq::<JsonSpec>::empty());
    let n = details.len();
    for i in 0..n
        invariant
            n == details@.len(),
            dm == models(details@),
            process_details(file_path@, *workbook, dm.take(i as int)) == Some(
                Ok::<Option<Entries>, ErrorSpec>(Some(results.model())),
            ),
    {
        assert(dm.take(i + 1).drop_last() == dm.take(i as int));
        assert(dm.take(i + 1).last() == details@[i as int].model());
        let d = match details[i].as_object() {
            Some(o) => o,
            None => {
                proof {
                    lemma_details_stop(file_path@, *workbook, dm, i + 1);
                }
                return Some(Err(ErrorOf::DetailNotObject));
            },
        };
        let wb = match workbook {
            None => {
                proof {
                    lemma_details_stop(file_path@, *workbook, dm, i + 1);
                }
                return Some(Ok(JsonValue::Null));
            },
            Some(w) => w,
        };
        let names = match resolve_sheet_names(d, &wb.sheet_names) {
            Ok(v) => v,
            Err(e) => {
                proof {
                    lemma_details_stop(file_path@, *workbook, dm, i + 1);
                }
                return Some(Err(e));
            },
        };
        let xs = match read_extractions(d) {
            Ok(v) => v,
            Err(e) => {
                proof {
                    lemma_details_stop(file_path@, *workbook, dm, i + 1);
                }
                return Some(Err(e));
            },
        };
        let break_if_null = text_field(d, "break_if_null");
        match process_sheets_on(wb, &names, &break_if_null, &xs, &mut results) {
            Some(Ok(())) => {},
            Some(Err(e)) => {
                proof {
                    lemma_details_stop(file_path@, *workbook, dm, i + 1);
                }
                return Some(Err(e));
            },
            None => {
                proof {
                    lemma_details_stop(file_path@, *workbook, dm, i + 1);
                }
                return None;
            },
        }
    }
    assert(dm.take(n as int) == dm);
    proof {
        lemma_object_model(results);
    }
    Some(Ok(JsonValue::Object(results)))
}

/// Results merged without a label lose nothing: every entry is appended, in order and
/// with its value, under a key that no entry before it has; what was there stays.
pub proof fn law_unlabelled_merge_appends(acc: Entries, items: Entries)
    ensures
        insert_unique_all(acc, items).len() == acc.len() + items.len(),
        insert_unique_all(acc, items).take(acc.len() as int) == acc,
        forall|j: int|
            0 <= j < items.len() ==> #[trigger] insert_unique_all(acc, items)[acc.len() + j].1
                == items[j].1,
        distinct_keys(acc) ==> distinct_keys(insert_unique_all(acc, items)),
    decreases items.len(),
{
    let r = insert_unique_all(acc, items);
    if items.len() == 0 {
        assert(r.take(acc.len() as int) =~= acc);
    } else {
        let a = insert_unique_all(acc, items.drop_last());
        law_unlabelled_merge_appends(acc, items.drop_last());
        lemma_unique_insert(a, items.last().0, items.last().1);
        assert(r == a.push((unique_key(a, items.last().0), items.last().1)));
        assert(r.take(acc.len() as int) =~= a.take(acc.len() as int));
        assert forall|j: int| 0 <= j < items.len() implies #[trigger] r[acc.len() + j].1 == items[j].1 by {
            if j < items.len() - 1 {
                assert(a[acc.len() + j].1 == items.drop_last()[j].1);
            }
        }
    }
}

/// A sheet whose "break_if_null" cell is empty is skipped: the file results stay as they
/// were.
pub proof fn law_null_cell_skips_sheet(
    wb: Workbook,
    name: Seq<char>,
    address: Seq<char>,
    xs: Seq<ExtractionSpec>,
    acc: Entries,
)
    requires
        find_sheet(wb.sheets@, name) matches Some(sheet) && cell_is_null(sheet, address) == Ok::<
            bool,
            ErrorSpec,
        >(true),
    ensures
        process_sheet(wb, name, Some(address), xs, acc) == Some(Ok::<Entries, ErrorSpec>(acc)),
{
}

/// An extraction rule whose "break_if_null" cell is empty is skipped: the sheet results
/// stay as they were.
pub proof fn law_null_cell_skips_extraction(sheet: Sheet, x: ExtractionSpec, sr: Entries)
    requires
        x.break_if_null matches Some(a) && cell_is_null(sheet, a) == Ok::<bool, ErrorSpec>(true),
    ensures
        run_extraction(sheet, x, sr) == Some(Ok::<Entries, ErrorSpec>(sr)),
{
}

/// The results start with the entry "filepath".
pub open spec fn starts_with_path(e: Entries) -> bool {
    e.len() > 0 && e[0].0 == "filepath"@
}

/// Adding a sheet's results keeps the first key of the file results.
proof fn lemma_merge_sheet_first(results: Entries, name: Seq<char>, sr: Entries)
    requires
        results.len() > 0,
    ensures
        merge_sheet(results, name, sr).len() >= results.len(),
        merge_sheet(results, name, sr)[0].0 == results[0].0,
{
    if has_key(results, name) {
        lemma_first_exists(results, name);
    }
}

proof fn lemma_sheets_first(
    wb: Workbook,
    names: Seq<Seq<char>>,
    b: Option<Seq<char>>,
    xs: Seq<ExtractionSpec>,
    results: Entries,
)
    requires
        starts_with_path(results),
        process_sheets(wb, names, b, xs, results) matches Some(Ok(_)),
    ensures
        process_sheets(wb, names, b, xs, results) matches Some(Ok(r)) && starts_with_path(r),
    decreases names.len(),
{
    if names.len() > 0 {
        lemma_sheets_first(wb, names.drop_last(), b, xs, results);
        let acc = process_sheets(wb, names.drop_last(), b, xs, results)->0->Ok_0;
        if let Some(sheet) = find_sheet(wb.sheets@, names.last()) {
            if let Some(Ok(sr)) = run_extractions(sheet, xs) {
                lemma_merge_sheet_first(acc, names.last(), sr);
            }
        }
    }
}

proof fn lemma_details_first(path: Seq<char>, wb: Option<Workbook>, ds: Seq<JsonSpec>)
    requires
        process_details(path, wb, ds) matches Some(Ok(Some(_))),
    ensures
        process_details(path, wb, ds) matches Some(Ok(Some(e))) && starts_with_path(e),
    decreases ds.len(),
{
    if ds.len() > 0 {
        lemma_details_first(path, wb, ds.drop_last());
        let acc = process_details(path, wb, ds.drop_last())->0->Ok_0->0;
        if let JsonSpec::Object(o) = ds.last() {
            if let Some(w) = wb {
                if let Ok(names) = resolve_spec(o, views(w.sheet_names@)) {
                    if let Ok(xs) = group_extractions(o) {
                        lemma_sheets_first(w, names, str_field(o, "break_if_null"@), xs, acc);
                    }
                }
            }
        }
    }
}

/// The object a file gives always starts with its "filepath" entry, whatever its sheets
/// add after it.
pub proof fn law_result_records_path(path: Seq<char>, wb: Option<Workbook>, ds: Seq<JsonSpec>)
    ensures
        process_file_spec(path, wb, ds) matches Some(Ok(JsonSpec::Object(e))) ==> starts_with_path(e),
{
    if process_details(path, wb, ds) matches Some(Ok(Some(_))) {
        lemma_details_first(path, wb, ds);
    }
}

/// The functions an extraction rule can run.
pub open spec fn known_function(f: Seq<char>) -> bool {
    f == "single_cells"@ || f == "multirow_patterns"@ || f == "dataframe"@
}

/// A sheet group with the rule `rule` added at the end of its "extractions" array; any
/// other value as it is.
pub open spec fn with_rule(d: JsonSpec, rule: JsonSpec) -> JsonSpec {
    match d {
        JsonSpec::Object(o) => match lookup(o, "extractions"@) {
            Some(JsonSpec::Array(a)) => JsonSpec::Object(
                insert_entry(o, "extractions"@, JsonSpec::Array(a.push(rule))),
            ),
            _ => d,
        },
        _ => d,
    }
}

proof fn lemma_run_ignores(sheet: Sheet, xs: Seq<ExtractionSpec>, x: ExtractionSpec)
    requires
        !known_function(x.function),
        x.break_if_null is None,
    ensures
        run_extractions(sheet, xs.push(x)) == run_extractions(sheet, xs),
{
    assert(xs.push(x).drop_last() == xs);
    assert(xs.push(x).last() == x);
}

proof fn lemma_sheets_ignore(
    wb: Workbook,
    names: Seq<Seq<char>>,
    b: Option<Seq<char>>,
    xs: Seq<ExtractionSpec>,
    x: ExtractionSpec,
    results: Entries,
)
    requires
        !known_function(x.function),
        x.break_if_null is None,
    ensures
        process_sheets(wb, names, b, xs.push(x), results) == process_sheets(wb, names, b, xs, results),
    decreases names.len(),
{
    if names.len() > 0 {
        lemma_sheets_ignore(wb, names.drop_last(), b, xs, x, results);
        if let Some(sheet) = find_sheet(wb.sheets@, names.last()) {
            lemma_run_ignores(sheet, xs, x);
        }
    }
}

proof fn lemma_detail_ignores(wb: Option<Workbook>, d: JsonSpec, rule: JsonSpec, acc: Entries)
    requires
        parse_extraction(rule) matches Ok(x) && !known_function(x.function) && x.break_if_null is None,
    ensures
        process_detail(wb, with_rule(d, rule), acc) == process_detail(wb, d, acc),
{
    if let JsonSpec::Object(o) = d {
        if let Some(JsonSpec::Array(a)) = lookup(o, "extractions"@) {
            let v = JsonSpec::Array(a.push(rule));
            let o2 = insert_entry(o, "extractions"@, v);
            reveal_strlit("extractions");
            reveal_strlit("sheets");
            reveal_strlit("skip_sheets");
            reveal_strlit("break_if_null");
            assert("sheets"@.len() != "extractions"@.len());
            assert("skip_sheets"@[0] != "extractions"@[0]);
            assert("break_if_null"@.len() != "extractions"@.len());
            lemma_lookup_insert(o, "extractions"@, v, "extractions"@);
            lemma_lookup_insert(o, "extractions"@, v, "sheets"@);
            lemma_lookup_insert(o, "extractions"@, v, "skip_sheets"@);
            lemma_lookup_insert(o, "extractions"@, v, "break_if_null"@);
            assert(a.push(rule).drop_last() == a);
            assert(a.push(rule).last() == rule);
            let x = parse_extraction(rule)->Ok_0;
            if let Some(w) = wb {
                if let Ok(names) = resolve_spec(o, views(w.sheet_names@)) {
                    if let Ok(xs) = parse_extractions(a) {
                        lemma_sheets_ignore(w, names, str_field(o, "break_if_null"@), xs, x, acc);
                    }
                }
            }
        }
    }
}

proof fn lemma_details_ignore(path: Seq<char>, wb: Option<Workbook>, ds: Seq<JsonSpec>, i: int, rule: JsonSpec)
    requires
        0 <= i < ds.len(),
        parse_extraction(rule) matches Ok(x) && !known_function(x.function) && x.break_if_null is None,
    ensures
        process_details(path, wb, ds.update(i, with_rule(ds[i], rule))) == process_details(path, wb, ds),
    decreases ds.len(),
{
    let ds2 = ds.update(i, with_rule(ds[i], rule));
    if i == ds.len() - 1 {
        assert(ds2.drop_last() == ds.drop_last());
        assert(ds2.last() == with_rule(ds.last(), rule));
        if let Some(Ok(Some(acc))) = process_details(path, wb, ds.drop_last()) {
            lemma_detail_ignores(wb, ds.last(), rule, acc);
        }
    } else {
        assert(ds2.drop_last() == ds.drop_last().update(i, with_rule(ds.drop_last()[i], rule)));
        assert(ds2.last() == ds.last());
        lemma_details_ignore(path, wb, ds.drop_last(), i, rule);
    }
}

/// A rule of an unknown function is passed over, not an error: adding one (without a
/// "break_if_null" cell) at the end of a sheet group's extractions leaves the file's result
/// as it was.
pub proof fn law_unknown_function_ignored(
    path: Seq<char>,
    wb: Option<Workbook>,
    ds: Seq<JsonSpec>,
    i: int,
    rule: JsonSpec,
)
    requires
        0 <= i < ds.len(),
        parse_extraction(rule) matches Ok(x) && !known_function(x.function) && x.break_if_null is None,
    ensures
        process_file_spec(path, wb, ds.update(i, with_rule(ds[i], rule))) == process_file_spec(path, wb, ds),
{
    lemma_details_ignore(path, wb, ds, i, rule);
}

/// A "break_if_null" cell counts as empty when the sheet has no cell there or the cell is
/// empty, and as filled when it holds a number, a boolean or text.
pub proof fn law_break_cell_emptiness(sheet: Sheet, a: Seq<char>, row: u32, col: u32)
    requires
        address_spec(a) == Ok::<(u32, u32), ErrorSpec>((row, col)),
    ensures
        cell_of(sheet, row, col) is None ==> cell_is_null(sheet, a) == Ok::<bool, ErrorSpec>(true),
        cell_of(sheet, row, col) == Some(CellSpec::Empty) ==> cell_is_null(sheet, a) == Ok::<
            bool,
            ErrorSpec,
        >(true),
        cell_of(sheet, row, col) matches Some(CellSpec::Int(_)) ==> cell_is_null(sheet, a) == Ok::<
            bool,
            ErrorSpec,
        >(false),
        cell_of(sheet, row, col) matches Some(CellSpec::Bool(_)) ==> cell_is_null(sheet, a) == Ok::<
            bool,
            ErrorSpec,
        >(false),
        cell_of(sheet, row, col) matches Some(CellSpec::Str(_)) ==> cell_is_null(sheet, a) == Ok::<
            bool,
            ErrorSpec,
        >(false),
{
}

/// A sheet with no cell at its group's "break_if_null" address (an unfilled form) is
/// skipped: the file results stay as they were.
pub proof fn law_uncovered_break_cell_skips_sheet(
    wb: Workbook,
    name: Seq<char>,
    a: Seq<char>,
    row: u32,
    col: u32,
    xs: Seq<ExtractionSpec>,
    acc: Entries,
)
    requires
        address_spec(a) == Ok::<(u32, u32), ErrorSpec>((row, col)),
        find_sheet(wb.sheets@, name) matches Some(sheet) && cell_of(sheet, row, col) is None,
    ensures
        process_sheet(wb, name, Some(a), xs, acc) == Some(Ok::<Entries, ErrorSpec>(acc)),
{
    let sheet = find_sheet(wb.sheets@, name)->0;
    law_break_cell_emptiness(sheet, a, row, col);
}

} // verus!
