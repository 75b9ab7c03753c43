use vstd::prelude::*;
use indexmap::IndexMap;
use crate::json::{JsonValue, JsonSpec, entries_model, has_key, lookup, insert_entry, distinct_keys};

verus! {

#[verifier::external_type_specification]
#[verifier::external_body]
#[verifier::reject_recursive_types(K)]
#[verifier::reject_recursive_types(V)]
#[verifier::reject_recursive_types(S)]
pub struct ExIndexMap<K, V, S>(IndexMap<K, V, S>);

/// The entries of an insertion-ordered map, in their order, each key taken by its view
/// and each value by its model.
pub uninterp spec fn index_map_entries(m: IndexMap<String, JsonValue>) -> Seq<(Seq<char>, JsonSpec)>;

/// `IndexMap::new`: a map with no entries.
#[verifier::external_body]
pub(crate) fn index_map_new() -> (m: IndexMap<String, JsonValue>)
    ensures
        index_map_entries(m) == Seq::<(Seq<char>, JsonSpec)>::empty(),
{
    IndexMap::new()
}

/// `IndexMap::len`: the number of entries.
#[verifier::external_body]
pub(crate) fn index_map_len(m: &IndexMap<String, JsonValue>) -> (n: usize)
    ensures
        n == index_map_entries(*m).len(),
{
    m.len()
}

/// `IndexMap::contains_key`: whether an entry has the key `key`.
#[verifier::external_body]
pub(crate) fn index_map_contains_key(m: &IndexMap<String, JsonValue>, key: &str) -> (r: bool)
    ensures
        r == has_key(index_map_entries(*m), key@),
{
    m.contains_key(key)
}

/// `IndexMap::insert`: an entry with an equal key keeps its place and takes the new
/// value, whose former value comes back; otherwise the new entry goes last. Keys stay
/// distinct.
#[verifier::external_body]
pub(crate) fn index_map_insert(m: &mut IndexMap<String, JsonValue>, key: String, value: JsonValue) -> (r: Option<JsonValue>)
    ensures
        index_map_entries(*final(m)) == insert_entry(index_map_entries(*old(m)), key@, value.model()),
        distinct_keys(index_map_entries(*final(m))),
        match r {
            Some(x) => lookup(index_map_entries(*old(m)), key@) == Some(x.model()),
            None => !has_key(index_map_entries(*old(m)), key@),
        },
{
    m.insert(key, value)
}

/// `IndexMap::into_iter`, collected: the entries in their order.
#[verifier::external_body]
pub(crate) fn index_map_into_entries(m: IndexMap<String, JsonValue>) -> (r: Vec<(String, JsonValue)>)
    ensures
        entries_model(r@) == index_map_entries(m),
{
    m.into_iter().collect()
}

} // verus!
