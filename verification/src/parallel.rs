use vstd::prelude::*;
use crate::json::{JsonMap, JsonValue, JsonSpec, Entries, get_field, has_key, insert_entry};
use crate::helpers::{unique_key, make_unique_key, law_unique_key_is_free};
use crate::conversions::{file_stem, extract_filename};

verus! {

/// The path a file's result records under "filepath", when it records one as text.
pub open spec fn recorded_path(v: JsonSpec) -> Option<Seq<char>> {
    match get_field(v, "filepath"@) {
        Some(JsonSpec::Str(p)) => Some(p),
        _ => None,
    }
}

/// The results of all files after the result `v` of one more file is added: it goes under
/// the file's name (without directories and extension), made unique among the names
/// already there; a result that records no path (a workbook that could not be opened) is
/// left out.
pub open spec fn add_file_result(results: Entries, v: JsonSpec) -> Entries {
    match recorded_path(v) {
        Some(p) => insert_entry(results, unique_key(results, file_stem(p)), v),
        None => results,
    }
}

/// Adds the result of one file to the results of all files (see `add_file_result`).
pub fn insert_file_result(results: &mut JsonMap, value: JsonValue)
    ensures
        final(results).model() == add_file_result(old(results).model(), value.model()),
{
    let name = match value.get("filepath") {
        Some(p) => match p.as_str() {
            Some(s) => Some(extract_filename(s)),
            None => None,
        },
        None => None,
    };
    match name {
        Some(n) => {
            let key = make_unique_key(results, n.as_str());
            results.insert(key, value);
        },
        None => {},
    }
}

/// Adding a file's result never overwrites another: a result that records its path is
/// appended under a key that no earlier result has, and any other leaves the results as
/// they were.
pub proof fn law_file_result_appended(results: Entries, v: JsonSpec)
    ensures
        match recorded_path(v) {
            Some(p) => {
                let k = unique_key(results, file_stem(p));
                &&& !has_key(results, k)
                &&& add_file_result(results, v) == results.push((k, v))
            },
            None => add_file_result(results, v) == results,
        },
{
    match recorded_path(v) {
        Some(p) => {
            law_unique_key_is_free(results, file_stem(p));
        },
        None => {},
    }
}

} // verus!
