use vstd::prelude::*;
use crate::text::str_eq;

verus! {

/// A JSON value as the extraction logic reads and builds it.
#[derive(Debug, PartialEq)]
pub enum JsonValue {
    Null,
    Bool(bool),
    Int(i64),
    /// A finite floating-point number, held as its JSON text.
    Float(String),
    Str(String),
    Array(Vec<JsonValue>),
    Object(JsonMap),
}

/// A JSON object: its entries in order.
#[derive(Debug, PartialEq)]
pub struct JsonMap {
    pub entries: Vec<(String, JsonValue)>,
}

/// The mathematical model of a `JsonValue`.
pub enum JsonSpec {
    Null,
    Bool(bool),
    Int(i64),
    Float(Seq<char>),
    Str(Seq<char>),
    Array(Seq<JsonSpec>),
    Object(Seq<(Seq<char>, JsonSpec)>),
}

/// The entries of a JSON object, as the model sees them.
pub type Entries = Seq<(Seq<char>, JsonSpec)>;

impl JsonValue {
    pub open spec fn model(self) -> JsonSpec
        decreases self,
    {
        match self {
            JsonValue::Null => JsonSpec::Null,
            JsonValue::Bool(b) => JsonSpec::Bool(b),
            JsonValue::Int(i) => JsonSpec::Int(i),
            JsonValue::Float(s) => JsonSpec::Float(s@),
            JsonValue::Str(s) => JsonSpec::Str(s@),
            JsonValue::Array(v) => JsonSpec::Array(
                Seq::new(
                    v@.len(),
                    |i: int|
                        if 0 <= i < v@.len() {
                            v@[i].model()
                        } else {
                            JsonSpec::Null
                        },
                ),
            ),
            JsonValue::Object(m) => JsonSpec::Object(
                Seq::new(
                    m.entries@.len(),
                    |i: int|
                        if 0 <= i < m.entries@.len() {
                            (m.entries@[i].0@, m.entries@[i].1.model())
                        } else {
                            (Seq::empty(), JsonSpec::Null)
                        },
                ),
            ),
        }
    }
}

/// The model of a sequence of values.
pub open spec fn models(v: Seq<JsonValue>) -> Seq<JsonSpec> {
    Seq::new(v.len(), |i: int| v[i].model())
}

/// The model of a sequence of entries.
pub open spec fn entries_model(v: Seq<(String, JsonValue)>) -> Entries {
    Seq::new(v.len(), |i: int| (v[i].0@, v[i].1.model()))
}

impl JsonMap {
    pub open spec fn model(self) -> Entries {
        entries_model(self.entries@)
    }
}

/// The model of an array is the model of its elements.
pub proof fn lemma_array_model(v: Vec<JsonValue>)
    ensures
        JsonValue::Array(v).model() == JsonSpec::Array(models(v@)),
{
    let a = JsonValue::Array(v);
    let m = a.model();
    assert(m is Array);
    assert(m->Array_0.len() == v@.len());
    assert forall|i: int| 0 <= i < v@.len() implies m->Array_0[i] == v@[i].model() by {
    }
    assert(m->Array_0 =~= models(v@));
    assert(models(v@) =~= Seq::new(
        v@.len(),
        |i: int|
            if 0 <= i < v@.len() {
                v@[i].model()
            } else {
                JsonSpec::Null
            },
    ));
}

/// The model of an object is the model of its entries.
pub proof fn lemma_object_model(m: JsonMap)
    ensures
        JsonValue::Object(m).model() == JsonSpec::Object(m.model()),
{
    let o = JsonValue::Object(m).model();
    assert(o is Object);
    assert(o->Object_0.len() == m.entries@.len());
    assert forall|i: int| 0 <= i < m.entries@.len() implies o->Object_0[i] == m.model()[i] by {
    }
    assert(o->Object_0 =~= m.model());
    assert(m.model() =~= Seq::new(
        m.entries@.len(),
        |i: int|
            if 0 <= i < m.entries@.len() {
                (m.entries@[i].0@, m.entries@[i].1.model())
            } else {
                (Seq::empty(), JsonSpec::Null)
            },
    ));
}

/// Entry `i` is the first one whose key is `k`.
pub open spec fn is_first(e: Entries, k: Seq<char>, i: int) -> bool {
    &&& 0 <= i < e.len()
    &&& e[i].0 == k
    &&& forall|j: int| 0 <= j < i ==> e[j].0 != k
}

/// Some entry has the key `k`.
pub open spec fn has_key(e: Entries, k: Seq<char>) -> bool {
    exists|i: int| 0 <= i < e.len() && e[i].0 == k
}

/// The position of the first entry whose key is `k` (meaningful when `has_key(e, k)`).
pub open spec fn first_pos(e: Entries, k: Seq<char>) -> int {
    choose|i: int| is_first(e, k, i)
}

/// The value stored under `k`: that of the first entry with this key.
pub open spec fn lookup(e: Entries, k: Seq<char>) -> Option<JsonSpec> {
    if has_key(e, k) {
        Some(e[first_pos(e, k)].1)
    } else {
        None
    }
}

/// The entries after storing `v` under `k`: the first entry with key `k` takes the new
/// value in its place, or a new entry goes at the end.
pub open spec fn insert_entry(e: Entries, k: Seq<char>, v: JsonSpec) -> Entries {
    if has_key(e, k) {
        e.update(first_pos(e, k), (k, v))
    } else {
        e.push((k, v))
    }
}

/// No two entries share a key.
pub open spec fn distinct_keys(e: Entries) -> bool {
    forall|i: int, j: int| 0 <= i < e.len() && 0 <= j < e.len() && i != j ==> e[i].0 != e[j].0
}

/// At most one entry is the first one with a given key.
pub proof fn lemma_first_unique(e: Entries, k: Seq<char>, i: int)
    requires
        is_first(e, k, i),
    ensures
        first_pos(e, k) == i,
        has_key(e, k),
        lookup(e, k) == Some(e[i].1),
{
    assert(is_first(e, k, i));
    let p = first_pos(e, k);
    assert(is_first(e, k, p));
    if p < i {
        assert(e[p].0 != k);
    } else if i < p {
        assert(e[i].0 != k);
    }
}

/// A key that occurs has a first occurrence.
pub proof fn lemma_first_exists(e: Entries, k: Seq<char>)
    requires
        has_key(e, k),
    ensures
        is_first(e, k, first_pos(e, k)),
    decreases e.len(),
{
    let i = choose|i: int| 0 <= i < e.len() && e[i].0 == k;
    if exists|j: int| 0 <= j < i && e[j].0 == k {
        let e2 = e.subrange(0, i);
        assert(has_key(e2, k)) by {
            let j = choose|j: int| 0 <= j < i && e[j].0 == k;
            assert(e2[j].0 == k);
        }
        lemma_first_exists(e2, k);
        let p = first_pos(e2, k);
        assert(is_first(e, k, p)) by {
            assert forall|j: int| 0 <= j < p implies e[j].0 != k by {
                assert(e2[j] == e[j]);
            }
        }
        lemma_first_unique(e, k, p);
    } else {
        assert(is_first(e, k, i));
        lemma_first_unique(e, k, i);
    }
}

/// After storing `v` under `k`, the value under `k` is `v`, and the value under any other
/// key is what it was.
pub proof fn lemma_lookup_insert(e: Entries, k: Seq<char>, v: JsonSpec, k2: Seq<char>)
    ensures
        lookup(insert_entry(e, k, v), k2) == if k2 == k {
            Some(v)
        } else {
            lookup(e, k2)
        },
{
    let r = insert_entry(e, k, v);
    if has_key(e, k) {
        lemma_first_exists(e, k);
        let p = first_pos(e, k);
        assert(forall|i: int| 0 <= i < r.len() ==> #[trigger] r[i].0 == e[i].0);
        if k2 == k {
            lemma_first_unique(r, k, p);
        } else if has_key(e, k2) {
            lemma_first_exists(e, k2);
            let q = first_pos(e, k2);
            assert(is_first(r, k2, q));
            lemma_first_unique(r, k2, q);
        } else {
            assert(!has_key(r, k2)) by {
                if has_key(r, k2) {
                    let i = choose|i: int| 0 <= i < r.len() && r[i].0 == k2;
                    assert(e[i].0 == k2);
                }
            }
        }
    } else {
        let n = e.len() as int;
        assert(forall|i: int| 0 <= i < n ==> #[trigger] r[i] == e[i]);
        if k2 == k {
            assert(is_first(r, k, n)) by {
                assert forall|j: int| 0 <= j < n implies r[j].0 != k by {
                    assert(r[j] == e[j]);
                }
            }
            lemma_first_unique(r, k, n);
        } else if has_key(e, k2) {
            lemma_first_exists(e, k2);
            let q = first_pos(e, k2);
            assert(is_first(r, k2, q));
            lemma_first_unique(r, k2, q);
        } else {
            assert(!has_key(r, k2)) by {
                if has_key(r, k2) {
                    let i = choose|i: int| 0 <= i < r.len() && r[i].0 == k2;
                    if i < n {
                        assert(e[i].0 == k2);
                    }
                }
            }
        }
    }
}

/// Storing a value under a key keeps the keys of an object distinct: the key either
/// replaces the value of the entry that has it, or is new and goes last.
pub proof fn law_insert_keeps_keys_distinct(e: Entries, k: Seq<char>, v: JsonSpec)
    requires
        distinct_keys(e),
    ensures
        distinct_keys(insert_entry(e, k, v)),
{
    let r = insert_entry(e, k, v);
    if has_key(e, k) {
        lemma_first_exists(e, k);
        let p = first_pos(e, k);
        assert forall|i: int, j: int| 0 <= i < r.len() && 0 <= j < r.len() && i != j implies r[i].0
            != r[j].0 by {
            assert(r[i].0 == e[i].0 && r[j].0 == e[j].0);
        }
    } else {
        assert forall|i: int, j: int| 0 <= i < r.len() && 0 <= j < r.len() && i != j implies r[i].0
            != r[j].0 by {
            if i == e.len() {
                assert(r[j] == e[j]);
            } else if j == e.len() {
                assert(r[i] == e[i]);
            } else {
                assert(r[i] == e[i] && r[j] == e[j]);
            }
        }
    }
}

/// The value under `key` in a JSON object; `None` for anything else, as
/// `serde_json::Value::get` answers.
pub open spec fn get_field(j: JsonSpec, key: Seq<char>) -> Option<JsonSpec> {
    match j {
        JsonSpec::Object(e) => lookup(e, key),
        _ => None,
    }
}

/// `Value::as_u64`: a non-negative integer.
pub open spec fn as_u64(j: JsonSpec) -> Option<u64> {
    match j {
        JsonSpec::Int(i) => if i >= 0 {
            Some(i as u64)
        } else {
            None
        },
        _ => None,
    }
}

/// `Value::as_str`.
pub open spec fn as_str(j: JsonSpec) -> Option<Seq<char>> {
    match j {
        JsonSpec::Str(s) => Some(s),
        _ => None,
    }
}

/// `Value::as_array`.
pub open spec fn as_array(j: JsonSpec) -> Option<Seq<JsonSpec>> {
    match j {
        JsonSpec::Array(a) => Some(a),
        _ => None,
    }
}

/// `Value::as_object`.
pub open spec fn as_object(j: JsonSpec) -> Option<Entries> {
    match j {
        JsonSpec::Object(e) => Some(e),
        _ => None,
    }
}

impl JsonMap {
    /// An object with no entries.
    pub fn new() -> (m: JsonMap)
        ensures
            m.model() == Seq::<(Seq<char>, JsonSpec)>::empty(),
            distinct_keys(m.model()),
    {
        let m = JsonMap { entries: Vec::new() };
        assert(m.model() =~= Seq::<(Seq<char>, JsonSpec)>::empty());
        m
    }

    /// The number of entries.
    pub fn len(&self) -> (n: usize)
        ensures
            n == self.model().len(),
    {
        self.entries.len()
    }

    /// The position of the first entry with key `key`.
    pub fn position(&self, key: &str) -> (r: Option<usize>)
        ensures
            match r {
                Some(i) => is_first(self.model(), key@, i as int),
                None => !has_key(self.model(), key@),
            },
    {
        let n = self.entries.len();
        for i in 0..n
            invariant
                n == self.entries@.len(),
                forall|j: int| 0 <= j < i ==> self.model()[j].0 != key@,
        {
            if str_eq(self.entries[i].0.as_str(), key) {
                return Some(i);
            }
        }
        None
    }

    /// Whether some entry has the key `key`.
    pub fn contains_key(&self, key: &str) -> (r: bool)
        ensures
            r == has_key(self.model(), key@),
    {
        self.position(key).is_some()
    }

    /// The value stored under `key`.
    pub fn get(&self, key: &str) -> (r: Option<&JsonValue>)
        ensures
            match r {
                Some(v) => lookup(self.model(), key@) == Some(v.model()),
                None => lookup(self.model(), key@) is None,
            },
    {
        match self.position(key) {
            Some(i) => {
                proof {
                    lemma_first_unique(self.model(), key@, i as int);
                }
                Some(&self.entries[i].1)
            },
            None => None,
        }
    }

    /// Stores `value` under `key`: in place of the first entry with that key, or as a new
    /// entry at the end.
    pub fn insert(&mut self, key: String, value: JsonValue)
        ensures
            final(self).model() == insert_entry(old(self).model(), key@, value.model()),
            distinct_keys(old(self).model()) ==> distinct_keys(final(self).model()),
    {
        proof {
            if distinct_keys(old(self).model()) {
                law_insert_keeps_keys_distinct(old(self).model(), key@, value.model());
            }
        }
        match self.position(key.as_str()) {
            Some(i) => {
                proof {
                    lemma_first_unique(old(self).model(), key@, i as int);
                }
                self.entries.set(i, (key, value));
                assert(self.model() =~= old(self).model().update(i as int, (key@, value.model())));
            },
            None => {
                self.entries.push((key, value));
                assert(self.model() =~= old(self).model().push((key@, value.model())));
            },
        }
    }
}

impl JsonMap {
    /// Puts `v` in place of the value of entry `i`, whose key stays, and gives back the
    /// value it had.
    pub fn replace_value(&mut self, i: usize, v: JsonValue) -> (old_value: JsonValue)
        requires
            i < old(self).entries@.len(),
        ensures
            final(self).model() == old(self).model().update(i as int, (old(self).model()[i as int].0, v.model())),
            old_value.model() == old(self).model()[i as int].1,
            final(self).entries@.len() == old(self).entries@.len(),
    {
        let (k, o) = self.entries.remove(i);
        let ghost vm = v.model();
        self.entries.insert(i, (k, v));
        assert(self.model() =~= old(self).model().update(i as int, (old(self).model()[i as int].0, vm)));
        o
    }
}

impl JsonMap {
    /// A copy of this object.
    pub fn duplicate(&self) -> (r: JsonMap)
        ensures
            r.model() == self.model(),
    {
        let mut out: Vec<(String, JsonValue)> = Vec::new();
        let n = self.entries.len();
        for i in 0..n
            invariant
                n == self.entries@.len(),
                entries_model(out@) == self.model().take(i as int),
        {
            let x = self.entries[i].1.duplicate();
            let k = self.entries[i].0.clone();
            let ghost old_out = out@;
            let ghost xg = (k, x);
            out.push((k, x));
            assert(entries_model(out@) =~= self.model().take(i + 1)) by {
                assert(entries_model(old_out).len() == i);
                assert forall|j: int| 0 <= j < i + 1 implies entries_model(out@)[j] == self.model().take(
                    i + 1,
                )[j] by {
                    assert(out@[j] == if j < i { old_out[j] } else { xg });
                    if j < i {
                        assert(entries_model(old_out)[j] == self.model().take(i as int)[j]);
                    }
                }
            }
        }
        assert(self.model().take(n as int) =~= self.model());
        JsonMap { entries: out }
    }
}

impl JsonValue {
    /// `Value::get`: the value under `key` when this is an object.
    pub fn get(&self, key: &str) -> (r: Option<&JsonValue>)
        ensures
            match r {
                Some(v) => get_field(self.model(), key@) == Some(v.model()),
                None => get_field(self.model(), key@) is None,
            },
    {
        match self {
            JsonValue::Object(m) => {
                proof {
                    lemma_object_model(*m);
                }
                m.get(key)
            },
            _ => None,
        }
    }

    /// `Value::as_u64`.
    pub fn as_u64(&self) -> (r: Option<u64>)
        ensures
            r == as_u64(self.model()),
    {
        match self {
            JsonValue::Int(i) => if *i >= 0 {
                Some(*i as u64)
            } else {
                None
            },
            _ => None,
        }
    }

    /// `Value::as_str`.
    pub fn as_str(&self) -> (r: Option<&str>)
        ensures
            match r {
                Some(s) => as_str(self.model()) == Some(s@),
                None => as_str(self.model()) is None,
            },
    {
        match self {
            JsonValue::Str(s) => Some(s.as_str()),
            _ => None,
        }
    }

    /// `Value::as_array`.
    pub fn as_array(&self) -> (r: Option<&Vec<JsonValue>>)
        ensures
            match r {
                Some(v) => as_array(self.model()) == Some(models(v@)),
                None => as_array(self.model()) is None,
            },
    {
        match self {
            JsonValue::Array(v) => {
                proof {
                    lemma_array_model(*v);
                }
                Some(v)
            },
            _ => None,
        }
    }

    /// `Value::as_object`.
    pub fn as_object(&self) -> (r: Option<&JsonMap>)
        ensures
            match r {
                Some(m) => as_object(self.model()) == Some(m.model()),
                None => as_object(self.model()) is None,
            },
    {
        match self {
            JsonValue::Object(m) => {
                proof {
                    lemma_object_model(*m);
                }
                Some(m)
            },
            _ => None,
        }
    }

    /// `Value::is_null`.
    pub fn is_null(&self) -> (r: bool)
        ensures
            r == (self.model() == JsonSpec::Null),
    {
        match self {
            JsonValue::Null => true,
            _ => false,
        }
    }

    /// A copy of this value.
    pub fn duplicate(&self) -> (r: JsonValue)
        ensures
            r.model() == self.model(),
        decreases self,
    {
        match self {
            JsonValue::Null => JsonValue::Null,
            JsonValue::Bool(b) => JsonValue::Bool(*b),
            JsonValue::Int(i) => JsonValue::Int(*i),
            JsonValue::Float(s) => JsonValue::Float(s.clone()),
            JsonValue::Str(s) => JsonValue::Str(s.clone()),
            JsonValue::Array(v) => {
                let mut out: Vec<JsonValue> = Vec::new();
                let n = v.len();
                for i in 0..n
                    invariant
                        n == v@.len(),
                        *self == JsonValue::Array(*v),
                        models(out@) == models(v@).take(i as int),
                {
                    assert(*self == JsonValue::Array(*v));
                    assert(decreases_to!(*self => (*self)->Array_0));
                    assert(decreases_to!(*v => v@));
                    assert(decreases_to!(v@ => v@[i as int]));
                    assert(decreases_to!(self => v@[i as int]));
                    let x = v[i].duplicate();
                    assert(x.model() == models(v@)[i as int]);
                    let ghost old_out = out@;
                    let ghost xg = x;
                    out.push(x);
                    assert(out@ == old_out.push(xg));
                    assert(models(out@) =~= models(v@).take(i + 1)) by {
                        assert(models(old_out).len() == i);
                        assert(old_out.len() == i);
                        assert(models(out@).len() == i + 1);
                        assert(models(v@).take(i + 1).len() == i + 1);
                        assert forall|j: int| 0 <= j < i + 1 implies models(out@)[j] == models(
                            v@,
                        ).take(i + 1)[j] by {
                            assert(models(old_out).len() == i);
                            assert(old_out.len() == i);
                            assert(out@[j] == if j < i { old_out[j] } else { xg });
                            if j < i {
                                assert(models(old_out)[j] == models(v@).take(i as int)[j]);
                                assert(models(old_out)[j] == old_out[j].model());
                            }
                        }
                    }
                }
                assert(models(v@).take(n as int) =~= models(v@));
                proof {
                    lemma_array_model(*v);
                    lemma_array_model(out);
                }
                JsonValue::Array(out)
            },
            JsonValue::Object(m) => {
                let mut out: Vec<(String, JsonValue)> = Vec::new();
                let n = m.entries.len();
                for i in 0..n
                    invariant
                        n == m.entries@.len(),
                        *self == JsonValue::Object(*m),
                        entries_model(out@) == m.model().take(i as int),
                {
                    assert(decreases_to!(*self => (*self)->Object_0));
                    assert(decreases_to!(*m => m.entries));
                    assert(decreases_to!(m.entries => m.entries@));
                    assert(decreases_to!(m.entries@ => m.entries@[i as int]));
                    assert(decreases_to!(m.entries@[i as int] => m.entries@[i as int].1));
                    assert(decreases_to!(self => m.entries@[i as int].1));
                    let x = m.entries[i].1.duplicate();
                    let k = m.entries[i].0.clone();
                    assert(x.model() == m.model()[i as int].1);
                    assert(k@ == m.model()[i as int].0);
                    let ghost old_out = out@;
                    let ghost xg = (k, x);
                    out.push((k, x));
                    assert(out@ == old_out.push(xg));
                    assert(entries_model(out@) =~= m.model().take(i + 1)) by {
                        assert(entries_model(old_out).len() == i);
                        assert(entries_model(out@).len() == i + 1);
                        assert(m.model().take(i + 1).len() == i + 1);
                        assert forall|j: int| 0 <= j < i + 1 implies entries_model(out@)[j]
                            == m.model().take(i + 1)[j] by {
                            assert(entries_model(old_out).len() == i);
                            assert(old_out.len() == i);
                            assert(out@[j] == if j < i { old_out[j] } else { xg });
                            if j < i {
                                assert(entries_model(old_out)[j] == m.model().take(i as int)[j]);
                                assert(entries_model(old_out)[j] == (old_out[j].0@, old_out[j].1.model()));
                            }
                        }
                    }
                }
                assert(m.model().take(n as int) =~= m.model());
                let r = JsonMap { entries: out };
                proof {
                    lemma_object_model(*m);
                    lemma_object_model(r);
                }
                JsonValue::Object(r)
            },
        }
    }
}

} // verus!
