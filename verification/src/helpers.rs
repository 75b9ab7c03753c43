use vstd::prelude::*;
use vstd::set_lib::{set_int_range, lemma_int_range, lemma_map_size, lemma_len_subset};
use indexmap::IndexMap;
use crate::json::{JsonMap, JsonValue, JsonSpec, Entries, has_key, is_first, first_pos, lemma_first_exists, insert_entry, distinct_keys};
use crate::index_map::{index_map_entries, index_map_contains_key, index_map_len};
use crate::text::{chars_of, string_of, dec, push_decimal, lemma_dec_injective};

verus! {

/// The key `base` followed by `_` and the number `k`.
pub open spec fn candidate(base: Seq<char>, k: nat) -> Seq<char> {
    base + seq!['_'] + dec(k)
}

/// `k` is the least suffix number whose candidate key is free.
pub open spec fn is_least_free(e: Entries, base: Seq<char>, k: nat) -> bool {
    &&& k >= 1
    &&& !has_key(e, candidate(base, k))
    &&& forall|j: nat| 1 <= j < k ==> has_key(e, #[trigger] candidate(base, j))
}

/// The key under which a new entry named `base` is stored without overwriting any: `base`
/// itself when it is free, else `base_1`, `base_2`, ... whichever comes first that is free.
pub open spec fn unique_key(e: Entries, base: Seq<char>) -> Seq<char> {
    if !has_key(e, base) {
        base
    } else {
        candidate(base, choose|k: nat| is_least_free(e, base, k))
    }
}

/// Different suffix numbers give different candidate keys.
pub proof fn lemma_candidate_injective(base: Seq<char>, a: nat, b: nat)
    requires
        candidate(base, a) == candidate(base, b),
    ensures
        a == b,
{
    let n = base.len() as int + 1;
    assert(candidate(base, a).skip(n) =~= dec(a));
    assert(candidate(base, b).skip(n) =~= dec(b));
    lemma_dec_injective(a, b);
}

/// If the candidates `1..k` are all taken, the map has at least `k - 1` entries.
pub proof fn lemma_taken_candidates(e: Entries, base: Seq<char>, k: nat)
    requires
        k >= 1,
        forall|j: nat| 1 <= j < k ==> has_key(e, #[trigger] candidate(base, j)),
    ensures
        k - 1 <= e.len(),
{
    let x = set_int_range(1, k as int);
    let f = |j: int| first_pos(e, candidate(base, j as nat));
    lemma_int_range(1, k as int);
    assert forall|j: int| x.contains(j) implies is_first(e, candidate(base, j as nat), f(j)) by {
        assert(has_key(e, candidate(base, j as nat)));
        lemma_first_exists(e, candidate(base, j as nat));
    }
    assert(vstd::relations::injective_on(f, x)) by {
        assert forall|a: int, b: int| x.contains(a) && x.contains(b) && #[trigger] f(a) == #[trigger] f(b)
            implies a == b by {
            assert(is_first(e, candidate(base, a as nat), f(a)));
            assert(is_first(e, candidate(base, b as nat), f(b)));
            lemma_candidate_injective(base, a as nat, b as nat);
        }
    }
    let y = x.map(f);
    lemma_map_size(x, y, f);
    lemma_int_range(0, e.len() as int);
    assert(y.subset_of(set_int_range(0, e.len() as int))) by {
        assert forall|p: int| y.contains(p) implies set_int_range(0, e.len() as int).contains(p) by {
            let j = choose|j: int| x.contains(j) && f(j) == p;
            assert(is_first(e, candidate(base, j as nat), f(j)));
        }
    }
    lemma_len_subset(y, set_int_range(0, e.len() as int));
}

/// From any `k` whose predecessors are all taken, a least free suffix number exists.
proof fn lemma_least_free_from(e: Entries, base: Seq<char>, k: nat)
    requires
        k >= 1,
        forall|j: nat| 1 <= j < k ==> has_key(e, #[trigger] candidate(base, j)),
    ensures
        exists|m: nat| is_least_free(e, base, m),
    decreases e.len() + 1 - k,
{
    lemma_taken_candidates(e, base, k);
    if !has_key(e, candidate(base, k)) {
        assert(is_least_free(e, base, k));
    } else {
        assert forall|j: nat| 1 <= j < k + 1 implies has_key(e, #[trigger] candidate(base, j)) by {}
        lemma_taken_candidates(e, base, k + 1);
        lemma_least_free_from(e, base, k + 1);
    }
}

/// There is exactly one least free suffix number.
proof fn lemma_least_free_unique(e: Entries, base: Seq<char>, k: nat)
    requires
        is_least_free(e, base, k),
    ensures
        (choose|m: nat| is_least_free(e, base, m)) == k,
{
    let m = choose|m: nat| is_least_free(e, base, m);
    assert(is_least_free(e, base, m));
    if m < k {
        assert(has_key(e, candidate(base, m)));
    } else if k < m {
        assert(has_key(e, candidate(base, k)));
    }
}

/// The key a new entry named `base` gets is free, and is `base` itself when `base` is.
pub proof fn law_unique_key_is_free(e: Entries, base: Seq<char>)
    ensures
        !has_key(e, unique_key(e, base)),
        !has_key(e, base) ==> unique_key(e, base) == base,
        has_key(e, base) ==> exists|k: nat| k >= 1 && unique_key(e, base) == candidate(base, k),
{
    if has_key(e, base) {
        lemma_least_free_from(e, base, 1);
        let k = choose|m: nat| is_least_free(e, base, m);
        assert(is_least_free(e, base, k));
    }
}

/// Storing a value under the key that `unique_key` picks appends a new entry, and keeps
/// the keys distinct when they were.
pub proof fn lemma_unique_insert(acc: Entries, base: Seq<char>, v: JsonSpec)
    ensures
        insert_entry(acc, unique_key(acc, base), v) == acc.push((unique_key(acc, base), v)),
        distinct_keys(acc) ==> distinct_keys(insert_entry(acc, unique_key(acc, base), v)),
{
    law_unique_key_is_free(acc, base);
    let k = unique_key(acc, base);
    let r = acc.push((k, v));
    if distinct_keys(acc) {
        assert forall|i: int, j: int| 0 <= i < r.len() && 0 <= j < r.len() && i != j implies r[i].0
            != r[j].0 by {
            if i == acc.len() {
                assert(r[j] == acc[j]);
            } else if j == acc.len() {
                assert(r[i] == acc[i]);
            } else {
                assert(r[i] == acc[i] && r[j] == acc[j]);
            }
        }
    }
}

/// The candidate key `base_k`.
fn candidate_string(base: &Vec<char>, k: u128) -> (r: String)
    ensures
        r@ == candidate(base@, k as nat),
{
    let mut v = base.clone();
    v.push('_');
    push_decimal(&mut v, k);
    assert(v@ =~= candidate(base@, k as nat));
    string_of(&v)
}

/// Whether `key` is one of the keys.
pub trait KeyLookup {
    spec fn key_entries(&self) -> Entries;

    fn has(&self, key: &str) -> (r: bool)
        ensures
            r == has_key(self.key_entries(), key@);

    /// The number of entries; it bounds the suffix numbers that can be taken.
    fn size(&self) -> (n: usize)
        ensures
            n == self.key_entries().len();
}

impl KeyLookup for JsonMap {
    open spec fn key_entries(&self) -> Entries {
        self.model()
    }

    fn has(&self, key: &str) -> (r: bool) {
        self.contains_key(key)
    }

    fn size(&self) -> (n: usize) {
        self.len()
    }
}

impl KeyLookup for IndexMap<String, JsonValue> {
    open spec fn key_entries(&self) -> Entries {
        index_map_entries(*self)
    }

    fn has(&self, key: &str) -> (r: bool) {
        index_map_contains_key(self, key)
    }

    fn size(&self) -> (n: usize) {
        index_map_len(self)
    }
}

/// The key under which an entry named `base` can be stored in `existing` without
/// overwriting: see `unique_key`.
fn unique_key_in<M: KeyLookup>(existing: &M, base: &str) -> (r: String)
    ensures
        r@ == unique_key(existing.key_entries(), base@),
{
    let ghost e = existing.key_entries();
    if !existing.has(base) {
        return base.to_owned();
    }
    let b = chars_of(base);
    let size = existing.size();
    let mut counter: u128 = 1;
    loop
        invariant
            e == existing.key_entries(),
            size == e.len(),
            b@ == base@,
            has_key(e, base@),
            counter >= 1,
            counter <= e.len() + 1,
            forall|j: nat| 1 <= j < counter ==> has_key(e, #[trigger] candidate(base@, j)),
        decreases e.len() + 1 - counter,
    {
        let candidate_key = candidate_string(&b, counter);
        if !existing.has(candidate_key.as_str()) {
            assert(is_least_free(e, base@, counter as nat));
            proof {
                lemma_least_free_unique(e, base@, counter as nat);
            }
            return candidate_key;
        }
        proof {
            assert forall|j: nat| 1 <= j < counter + 1 implies has_key(e, #[trigger] candidate(base@, j)) by {}
            lemma_taken_candidates(e, base@, (counter + 1) as nat);
        }
        counter = counter + 1;
    }
}

/// The key under which an entry named `base` can be stored in `existing` without
/// overwriting another: `base` when free, else the first free one of `base_1`,
/// `base_2`, ...
pub fn make_unique_key(existing: &JsonMap, base: &str) -> (r: String)
    ensures
        r@ == unique_key(existing.model(), base@),
{
    unique_key_in(existing, base)
}

/// The same as `make_unique_key`, for an insertion-ordered map.
pub fn make_unique_key_indexmap(existing: &IndexMap<String, JsonValue>, base: &str) -> (r: String)
    ensures
        r@ == unique_key(index_map_entries(*existing), base@),
{
    unique_key_in(existing, base)
}

} // verus!
