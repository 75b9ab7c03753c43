use vstd::prelude::*;
use crate::folds::lemma_stop_carries;
use indexmap::IndexMap;
use crate::error::{ErrorOf, ExtractError, ErrorSpec};
use crate::json::{JsonMap, JsonValue, JsonSpec, Entries, lookup, as_u64, insert_entry, models, lemma_array_model};
use crate::conversions::{address_spec, address_to_row_col};
use crate::manipulations::{Sheet, cell_json, extract_cell_value};
use crate::index_map::{index_map_entries, index_map_new, index_map_insert};

verus! {

/// The (1-based row, 0-based column) of a cell reference: an address such as "B12", or an
/// object with "row" and "col" numbers.
pub open spec fn cell_ref_spec(r: JsonSpec) -> Result<(u32, u32), ErrorSpec> {
    match r {
        JsonSpec::Str(s) => address_spec(s),
        JsonSpec::Object(e) => {
            let row = match lookup(e, "row"@) {
                Some(v) => as_u64(v),
                None => None,
            };
            let col = match lookup(e, "col"@) {
                Some(v) => as_u64(v),
                None => None,
            };
            match (row, col) {
                (None, _) => Err(ErrorOf::MissingRow),
                (Some(_), None) => Err(ErrorOf::MissingCol),
                (Some(r), Some(c)) => Ok((r as u32, c as u32)),
            }
        },
        _ => Err(ErrorOf::InvalidCellSpec),
    }
}

/// The non-null values of the cells that `refs` point to, in order; the first error if
/// a reference or a cell fails.
pub open spec fn ref_values(sheet: Sheet, refs: Seq<JsonSpec>) -> Result<Seq<JsonSpec>, ErrorSpec>
    decreases refs.len(),
{
    if refs.len() == 0 {
        Ok(Seq::empty())
    } else {
        match ref_values(sheet, refs.drop_last()) {
            Err(e) => Err(e),
            Ok(vals) => match cell_ref_spec(refs.last()) {
                Err(e) => Err(e),
                Ok((row, col)) => match cell_json(sheet, row, col) {
                    Err(e) => Err(e),
                    Ok(Some(v)) => if v != JsonSpec::Null {
                        Ok(vals.push(v))
                    } else {
                        Ok(vals)
                    },
                    Ok(None) => Ok(vals),
                },
            },
        }
    }
}

/// What one instruction gives: an array of the non-null values of a list of cell
/// references, or the value of one cell address (`null` when there is no cell).
pub open spec fn instruction_value(sheet: Sheet, spec: JsonSpec) -> Result<JsonSpec, ErrorSpec> {
    match spec {
        JsonSpec::Array(refs) => match ref_values(sheet, refs) {
            Ok(vals) => Ok(JsonSpec::Array(vals)),
            Err(e) => Err(e),
        },
        JsonSpec::Str(s) => match address_spec(s) {
            Err(e) => Err(e),
            Ok((row, col)) => match cell_json(sheet, row, col) {
                Err(e) => Err(e),
                Ok(Some(v)) => Ok(v),
                Ok(None) => Ok(JsonSpec::Null),
            },
        },
        _ => Err(ErrorOf::InvalidCellSpec),
    }
}

/// The value of each instruction stored under its name, in order; the first error if one
/// fails.
pub open spec fn values_spec(sheet: Sheet, instructions: Entries) -> Result<Entries, ErrorSpec>
    decreases instructions.len(),
{
    if instructions.len() == 0 {
        Ok(Seq::empty())
    } else {
        match values_spec(sheet, instructions.drop_last()) {
            Err(e) => Err(e),
            Ok(acc) => match instruction_value(sheet, instructions.last().1) {
                Err(e) => Err(e),
                Ok(v) => Ok(insert_entry(acc, instructions.last().0, v)),
            },
        }
    }
}

proof fn lemma_ref_values_err(sheet: Sheet, refs: Seq<JsonSpec>, j: int)
    requires
        0 <= j <= refs.len(),
        ref_values(sheet, refs.take(j)) is Err,
    ensures
        ref_values(sheet, refs) == ref_values(sheet, refs.take(j)),
{
    let f = |c: Seq<JsonSpec>| ref_values(sheet, c);
    let stops = |r| r is Err;
    assert forall|k: int| 0 <= k < refs.len() && stops(#[trigger] f(refs.take(k))) implies f(refs.take(k + 1)) == f(
        refs.take(k),
    ) by {
        assert(refs.take(k + 1).drop_last() == refs.take(k));
    }
    lemma_stop_carries(f, stops, refs, j);
}

proof fn lemma_values_err(sheet: Sheet, ins: Entries, j: int)
    requires
        0 <= j <= ins.len(),
        values_spec(sheet, ins.take(j)) is Err,
    ensures
        values_spec(sheet, ins) == values_spec(sheet, ins.take(j)),
{
    let f = |c: Seq<(Seq<char>, JsonSpec)>| values_spec(sheet, c);
    let stops = |r| r is Err;
    assert forall|k: int| 0 <= k < ins.len() && stops(#[trigger] f(ins.take(k))) implies f(ins.take(k + 1)) == f(
        ins.take(k),
    ) by {
        assert(ins.take(k + 1).drop_last() == ins.take(k));
    }
    lemma_stop_carries(f, stops, ins, j);
}

/// The position that a cell reference points to.
fn cell_ref(r: &JsonValue) -> (res: Result<(u32, u32), ExtractError>)
    ensures
        match cell_ref_spec(r.model()) {
            Ok(rc) => res == Ok::<(u32, u32), ExtractError>(rc),
            Err(e) => res matches Err(x) && x.model() == e,
        },
{
    match r {
        JsonValue::Str(s) => address_to_row_col(s.as_str()),
        JsonValue::Object(m) => {
            proof {
                crate::json::lemma_object_model(*m);
            }
            let row = match m.get("row") {
                Some(v) => v.as_u64(),
                None => None,
            };
            let col = match m.get("col") {
                Some(v) => v.as_u64(),
                None => None,
            };
            match (row, col) {
                (None, _) => Err(ErrorOf::MissingRow),
                (Some(_), None) => Err(ErrorOf::MissingCol),
                (Some(r), Some(c)) => Ok((r as u32, c as u32)),
            }
        },
        _ => Err(ErrorOf::InvalidCellSpec),
    }
}

/// The value that one instruction asks for.
fn instruction_value_of(sheet: &Sheet, spec: &JsonValue) -> (res: Result<JsonValue, ExtractError>)
    ensures
        match instruction_value(*sheet, spec.model()) {
            Ok(v) => res matches Ok(x) && x.model() == v,
            Err(e) => res matches Err(x) && x.model() == e,
        },
{
    match spec {
        JsonValue::Array(refs) => {
            proof {
                lemma_array_model(*refs);
            }
            let ghost rs = models(refs@);
            let mut vals: Vec<JsonValue> = Vec::new();
            let n = refs.len();
            assert(models(vals@) =~= Seq::<JsonSpec>::empty());
            assert(rs.take(0) =~= Seq::<JsonSpec>::empty());
            for i in 0..n
                invariant
                    n == refs@.len(),
                    rs == models(refs@),
                    spec.model() == JsonSpec::Array(rs),
                    ref_values(*sheet, rs.take(i as int)) == Ok::<Seq<JsonSpec>, ErrorSpec>(models(vals@)),
            {
                assert(rs.take(i + 1).drop_last() == rs.take(i as int));
                assert(rs.take(i + 1).last() == refs@[i as int].model());
                let (row, col) = match cell_ref(&refs[i]) {
                    Ok(rc) => rc,
                    Err(e) => {
                        proof {
                            lemma_ref_values_err(*sheet, rs, i + 1);
                        }
                        return Err(e);
                    },
                };
                match extract_cell_value(sheet, row, col, false) {
                    Ok((Some(v), _)) => {
                        if !v.is_null() {
                            let ghost old_vals = vals@;
                            let ghost vm = v.model();
                            vals.push(v);
                            assert(models(vals@) =~= models(old_vals).push(vm));
                        }
                    },
                    Ok((None, _)) => {},
                    Err(e) => {
                        proof {
                            lemma_ref_values_err(*sheet, rs, i + 1);
                        }
                        return Err(e);
                    },
                }
            }
            assert(rs.take(n as int) == rs);
            proof {
                lemma_array_model(vals);
            }
            Ok(JsonValue::Array(vals))
        },
        JsonValue::Str(s) => {
            let (row, col) = address_to_row_col(s.as_str())?;
            match extract_cell_value(sheet, row, col, false) {
                Ok((Some(v), _)) => Ok(v),
                Ok((None, _)) => Ok(JsonValue::Null),
                Err(e) => Err(e),
            }
        },
        _ => Err(ErrorOf::InvalidCellSpec),
    }
}

/// The value of each instruction (a name mapped to a cell address, or to a list of cell
/// references) stored under its name, in order.
pub fn extract_values(sheet: &Sheet, instructions: &JsonMap) -> (r: Result<IndexMap<String, JsonValue>, ExtractError>)
    ensures
        match values_spec(*sheet, instructions.model()) {
            Ok(e) => r matches Ok(m) && index_map_entries(m) == e,
            Err(e) => r matches Err(x) && x.model() == e,
        },
{
    let mut results = index_map_new();
    let ghost ins = instructions.model();
    let n = instructions.entries.len();
    for i in 0..n
        invariant
            n == instructions.entries@.len(),
            ins == instructions.model(),
            values_spec(*sheet, ins.take(i as int)) == Ok::<Entries, ErrorSpec>(index_map_entries(results)),
    {
        assert(ins.take(i + 1).drop_last() == ins.take(i as int));
        assert(ins.take(i + 1).last() == (instructions.entries@[i as int].0@, instructions.entries@[i as int].1.model()));
        let v = match instruction_value_of(sheet, &instructions.entries[i].1) {
            Ok(v) => v,
            Err(e) => {
                proof {
                    lemma_values_err(*sheet, ins, i + 1);
                }
                return Err(e);
            },
        };
        let key = instructions.entries[i].0.clone();
        index_map_insert(&mut results, key, v);
    }
    assert(ins.take(n as int) == ins);
    Ok(results)
}

} // verus!
