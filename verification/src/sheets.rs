use vstd::prelude::*;
use crate::folds::lemma_stop_carries;
use crate::error::{ErrorOf, ExtractError, ErrorSpec};
use crate::json::{JsonMap, JsonValue, JsonSpec, Entries, lookup, as_array, models, lemma_array_model};
use crate::text::{chars_of, str_eq};

verus! {

/// The views of a sequence of strings.
pub open spec fn views(v: Seq<String>) -> Seq<Seq<char>> {
    Seq::new(v.len(), |i: int| v[i]@)
}

/// The position of the first `c` in `s`, or -1.
pub open spec fn find_char(s: Seq<char>, c: char) -> int
    decreases s.len(),
{
    if s.len() == 0 {
        -1
    } else if s[0] == c {
        0
    } else {
        let r = find_char(s.drop_first(), c);
        if r < 0 {
            -1
        } else {
            r + 1
        }
    }
}

/// `s` without the `*` characters it starts with.
pub open spec fn strip_stars(s: Seq<char>) -> Seq<char>
    decreases s.len(),
{
    if s.len() > 0 && s[0] == '*' {
        strip_stars(s.drop_first())
    } else {
        s
    }
}

/// The text before the first `*` of a pattern and the text after the `*`s that follow it;
/// both empty when the pattern has no `*`.
pub open spec fn pattern_parts(p: Seq<char>) -> (Seq<char>, Seq<char>) {
    let i = find_char(p, '*');
    if i < 0 {
        (Seq::empty(), Seq::empty())
    } else {
        (p.take(i), strip_stars(p.skip(i)))
    }
}

/// `s` begins with `p`.
pub open spec fn starts_with(s: Seq<char>, p: Seq<char>) -> bool {
    p.len() <= s.len() && s.take(p.len() as int) == p
}

/// `s` ends with `q`.
pub open spec fn ends_with(s: Seq<char>, q: Seq<char>) -> bool {
    q.len() <= s.len() && s.skip(s.len() - q.len()) == q
}

/// A sheet name matches a pattern as a glob does: it begins with the text before the `*`,
/// ends with the text after it, and is long enough to hold both without overlap (the `*`
/// stands for zero or more characters).
pub open spec fn name_matches(name: Seq<char>, pattern: Seq<char>) -> bool {
    let parts = pattern_parts(pattern);
    &&& parts.0.len() + parts.1.len() <= name.len()
    &&& starts_with(name, parts.0)
    &&& ends_with(name, parts.1)
}

/// The names that match `pattern`, in their order.
pub open spec fn matching(names: Seq<Seq<char>>, pattern: Seq<char>) -> Seq<Seq<char>>
    decreases names.len(),
{
    if names.len() == 0 {
        Seq::empty()
    } else {
        let m = matching(names.drop_last(), pattern);
        if name_matches(names.last(), pattern) {
            m.push(names.last())
        } else {
            m
        }
    }
}

proof fn lemma_find_char(s: Seq<char>, c: char)
    ensures
        -1 <= find_char(s, c) < s.len(),
        find_char(s, c) >= 0 ==> s[find_char(s, c)] == c,
        forall|j: int| 0 <= j < s.len() && (find_char(s, c) < 0 || j < find_char(s, c)) ==> s[j] != c,
    decreases s.len(),
{
    if s.len() > 0 && s[0] != c {
        lemma_find_char(s.drop_first(), c);
        assert forall|j: int| 0 <= j < s.len() && (find_char(s, c) < 0 || j < find_char(s, c)) implies s[j] != c by {
            if j > 0 {
                assert(s[j] == s.drop_first()[j - 1]);
            }
        }
    }
}

/// The position of the first `*` in `s`.
fn find_star(s: &[char]) -> (r: Option<usize>)
    ensures
        match r {
            Some(i) => find_char(s@, '*') == i,
            None => find_char(s@, '*') == -1,
        },
{
    let n = s.len();
    proof {
        lemma_find_char(s@, '*');
    }
    for i in 0..n
        invariant
            n == s@.len(),
            -1 <= find_char(s@, '*') < n,
            find_char(s@, '*') >= 0 ==> s@[find_char(s@, '*')] == '*',
            forall|j: int| 0 <= j < n && (find_char(s@, '*') < 0 || j < find_char(s@, '*')) ==> s@[j] != '*',
            forall|j: int| 0 <= j < i ==> s@[j] != '*',
    {
        if s[i] == '*' {
            return Some(i);
        }
    }
    None
}

/// Whether `s[from..]` begins with `p`... as a prefix test of `s` against `p`.
fn has_prefix(s: &[char], p: &[char]) -> (r: bool)
    ensures
        r == starts_with(s@, p@),
{
    if p.len() > s.len() {
        return false;
    }
    let n = p.len();
    for i in 0..n
        invariant
            n == p@.len() <= s@.len(),
            forall|j: int| 0 <= j < i ==> s@[j] == p@[j],
    {
        if s[i] != p[i] {
            assert(s@.take(n as int)[i as int] != p@[i as int]);
            return false;
        }
    }
    assert(s@.take(n as int) =~= p@);
    true
}

/// Whether `s` ends with `q`.
fn has_suffix(s: &[char], q: &[char]) -> (r: bool)
    ensures
        r == ends_with(s@, q@),
{
    if q.len() > s.len() {
        return false;
    }
    let n = q.len();
    let off = s.len() - n;
    for i in 0..n
        invariant
            n == q@.len(),
            off + n == s.len(),
            forall|j: int| 0 <= j < i ==> s@[off + j] == q@[j],
    {
        if s[off + i] != q[i] {
            assert(s@.skip(off as int)[i as int] != q@[i as int]);
            return false;
        }
    }
    assert(s@.skip(off as int) =~= q@);
    true
}

/// The pattern's text before its first `*` and after the `*`s that follow it.
fn split_pattern(p: &[char]) -> (r: (Vec<char>, Vec<char>))
    ensures
        (r.0@, r.1@) == pattern_parts(p@),
{
    match find_star(p) {
        None => (Vec::new(), Vec::new()),
        Some(i) => {
            proof {
                lemma_find_char(p@, '*');
            }
            let mut start: Vec<char> = Vec::new();
            for k in 0..i
                invariant
                    i < p@.len(),
                    start@ == p@.take(k as int),
            {
                start.push(p[k]);
                assert(p@.take(k + 1) == p@.take(k as int).push(p@[k as int]));
            }
            let n = p.len();
            let mut j = i;
            assert(p@.skip(i as int) == p@.skip(j as int));
            while j < n && p[j] == '*'
                invariant
                    i <= j <= n == p@.len(),
                    strip_stars(p@.skip(i as int)) == strip_stars(p@.skip(j as int)),
                decreases n - j,
            {
                assert(p@.skip(j as int).drop_first() == p@.skip(j + 1));
                j = j + 1;
            }
            let mut end: Vec<char> = Vec::new();
            for k in j..n
                invariant
                    j <= n == p@.len(),
                    end@ == p@.subrange(j as int, k as int),
            {
                end.push(p[k]);
                assert(p@.subrange(j as int, k + 1) == p@.subrange(j as int, k as int).push(p@[k as int]));
            }
            assert(end@ == p@.skip(j as int));
            (start, end)
        },
    }
}

/// The sheet names that match `pattern` as a glob: those that begin with its text before
/// the first `*`, end with its text after the `*`s, and hold both without overlap; every
/// name when it has no `*`.
pub fn match_sheet_names(sheet_names: &[String], pattern: &str) -> (r: Vec<String>)
    ensures
        views(r@) == matching(views(sheet_names@), pattern@),
{
    let pc = chars_of(pattern);
    let (start, end) = split_pattern(&pc);
    let mut out: Vec<String> = Vec::new();
    let n = sheet_names.len();
    for i in 0..n
        invariant
            n == sheet_names@.len(),
            pc@ == pattern@,
            (start@, end@) == pattern_parts(pattern@),
            views(out@) == matching(views(sheet_names@).take(i as int), pattern@),
    {
        let name = chars_of(sheet_names[i].as_str());
        let ghost names = views(sheet_names@).take(i + 1);
        assert(names.drop_last() == views(sheet_names@).take(i as int));
        assert(names.last() == sheet_names@[i as int]@);
        if start.len() <= name.len() && end.len() <= name.len() - start.len() && has_prefix(&name, &start)
            && has_suffix(&name, &end) {
            let ghost old_out = out@;
            out.push(sheet_names[i].clone());
            assert(views(out@) =~= views(old_out).push(sheet_names@[i as int]@));
        }
    }
    assert(views(sheet_names@).take(n as int) == views(sheet_names@));
    out
}

/// Adds `value` at the end of `vec` unless an equal string is already there.
pub fn extend_unique(vec: &mut Vec<String>, value: String)
    ensures
        if views(old(vec)@).contains(value@) {
            final(vec)@ == old(vec)@
        } else {
            final(vec)@ == old(vec)@.push(value)
        },
{
    let n = vec.len();
    for i in 0..n
        invariant
            n == vec@.len(),
            vec@ == old(vec)@,
            forall|j: int| 0 <= j < i ==> vec@[j]@ != value@,
    {
        if vec[i] == value {
            assert(views(old(vec)@)[i as int] == value@);
            return;
        }
    }
    assert(!views(old(vec)@).contains(value@)) by {
        if views(old(vec)@).contains(value@) {
            let j = choose|j: int| 0 <= j < views(old(vec)@).len() && views(old(vec)@)[j] == value@;
            assert(vec@[j]@ == value@);
        }
    }
    vec.push(value);
}

/// No two elements are equal.
pub open spec fn all_distinct(s: Seq<Seq<char>>) -> bool {
    forall|i: int, j: int| 0 <= i < s.len() && 0 <= j < s.len() && i != j ==> s[i] != s[j]
}

/// `extend_unique` keeps a list free of repeats, and the value is in the list afterwards.
pub proof fn law_extend_unique_keeps_distinct(before: Seq<String>, after: Seq<String>, value: String)
    requires
        all_distinct(views(before)),
        if views(before).contains(value@) {
            after == before
        } else {
            after == before.push(value)
        },
    ensures
        all_distinct(views(after)),
        views(after).contains(value@),
{
    if !views(before).contains(value@) {
        assert(views(after) =~= views(before).push(value@));
        assert(views(after)[before.len() as int] == value@);
    }
}


/// The list of sheets to skip holds the text `name`.
pub open spec fn in_skip(skip: Seq<JsonSpec>, name: Seq<char>) -> bool {
    exists|i: int| 0 <= i < skip.len() && skip[i] == JsonSpec::Str(name)
}

/// `acc` with `n` added at the end unless it is there.
pub open spec fn add_unique(acc: Seq<Seq<char>>, n: Seq<char>) -> Seq<Seq<char>> {
    if acc.contains(n) {
        acc
    } else {
        acc.push(n)
    }
}

/// `acc` with each of `names` added in turn, unless skipped or already there.
pub open spec fn add_names(acc: Seq<Seq<char>>, names: Seq<Seq<char>>, skip: Seq<JsonSpec>) -> Seq<Seq<char>>
    decreases names.len(),
{
    if names.len() == 0 {
        acc
    } else {
        let a = add_names(acc, names.drop_last(), skip);
        if in_skip(skip, names.last()) {
            a
        } else {
            add_unique(a, names.last())
        }
    }
}

/// The sheet names that the entries of "sheets" give, in order: a name with a `*` stands
/// for the workbook's sheets that match it; the first error if an entry is not text.
pub open spec fn resolve_from(sheets: Seq<JsonSpec>, skip: Seq<JsonSpec>, wb: Seq<Seq<char>>) -> Result<Seq<Seq<char>>, ErrorSpec>
    decreases sheets.len(),
{
    if sheets.len() == 0 {
        Ok(Seq::empty())
    } else {
        match resolve_from(sheets.drop_last(), skip, wb) {
            Err(e) => Err(e),
            Ok(acc) => match sheets.last() {
                JsonSpec::Str(s) => Ok(add_names(
                    acc,
                    if find_char(s, '*') >= 0 {
                        matching(wb, s)
                    } else {
                        seq![s]
                    },
                    skip,
                )),
                _ => Err(ErrorOf::InvalidSheetName),
            },
        }
    }
}

/// The sheets to skip: the array under "skip_sheets", if there is one.
pub open spec fn skip_list(d: Entries) -> Seq<JsonSpec> {
    match lookup(d, "skip_sheets"@) {
        Some(JsonSpec::Array(a)) => a,
        _ => Seq::empty(),
    }
}

/// The sheets that a sheet group names, without the skipped ones and without repeats.
pub open spec fn resolve_spec(d: Entries, wb: Seq<Seq<char>>) -> Result<Seq<Seq<char>>, ErrorSpec> {
    match lookup(d, "sheets"@) {
        None => Err(ErrorOf::MissingSheets),
        Some(v) => match as_array(v) {
            None => Err(ErrorOf::InvalidSheets),
            Some(a) => resolve_from(a, skip_list(d), wb),
        },
    }
}

proof fn lemma_resolve_err(sheets: Seq<JsonSpec>, skip: Seq<JsonSpec>, wb: Seq<Seq<char>>, j: int)
    requires
        0 <= j <= sheets.len(),
        resolve_from(sheets.take(j), skip, wb) is Err,
    ensures
        resolve_from(sheets, skip, wb) == resolve_from(sheets.take(j), skip, wb),
{
    let f = |c: Seq<JsonSpec>| resolve_from(c, skip, wb);
    let stops = |r| r is Err;
    assert forall|k: int| 0 <= k < sheets.len() && stops(#[trigger] f(sheets.take(k))) implies f(sheets.take(k + 1)) == f(
        sheets.take(k),
    ) by {
        assert(sheets.take(k + 1).drop_last() == sheets.take(k));
    }
    lemma_stop_carries(f, stops, sheets, j);
}

/// Whether `name` is among the sheets to skip.
fn is_skipped(skip: &Vec<JsonValue>, name: &str) -> (r: bool)
    ensures
        r == in_skip(models(skip@), name@),
{
    let n = skip.len();
    for i in 0..n
        invariant
            n == skip@.len(),
            forall|k: int| 0 <= k < i ==> models(skip@)[k] != JsonSpec::Str(name@),
    {
        match &skip[i] {
            JsonValue::Str(s) => {
                if str_eq(s.as_str(), name) {
                    assert(models(skip@)[i as int] == JsonSpec::Str(name@));
                    return true;
                }
            },
            _ => {},
        }
    }
    false
}

/// Adds each of `names` to `out` unless skipped or already there.
fn add_sheet_names(out: &mut Vec<String>, names: Vec<String>, skip: &Vec<JsonValue>)
    ensures
        views(final(out)@) == add_names(views(old(out)@), views(names@), models(skip@)),
{
    let n = names.len();
    assert(views(names@).take(0) =~= Seq::<Seq<char>>::empty());
    for i in 0..n
        invariant
            n == names@.len(),
            views(out@) == add_names(views(old(out)@), views(names@).take(i as int), models(skip@)),
    {
        assert(views(names@).take(i + 1).drop_last() == views(names@).take(i as int));
        assert(views(names@).take(i + 1).last() == names@[i as int]@);
        let name = names[i].clone();
        if !is_skipped(skip, name.as_str()) {
            let ghost before = out@;
            extend_unique(out, name);
            proof {
                if views(before).contains(name@) {
                } else {
                    assert(views(out@) =~= views(before).push(name@));
                }
            }
        }
    }
    assert(views(names@).take(n as int) == views(names@));
}

/// The sheets that a sheet group names: its "sheets" entries, each name with a `*`
/// standing for the workbook's sheets that match it, without the "skip_sheets" ones and
/// without repeats.
pub fn resolve_sheet_names(detail: &JsonMap, workbook_sheets: &Vec<String>) -> (r: Result<Vec<String>, ExtractError>)
    ensures
        match resolve_spec(detail.model(), views(workbook_sheets@)) {
            Ok(names) => r matches Ok(v) && views(v@) == names,
            Err(e) => r matches Err(x) && x.model() == e,
        },
{
    let sheets = match detail.get("sheets") {
        None => {
            return Err(ErrorOf::MissingSheets);
        },
        Some(v) => v,
    };
    let sheets_array = match sheets.as_array() {
        None => {
            return Err(ErrorOf::InvalidSheets);
        },
        Some(a) => a,
    };
    let empty: Vec<JsonValue> = Vec::new();
    let skip: &Vec<JsonValue> = match detail.get("skip_sheets") {
        Some(JsonValue::Array(a)) => {
            proof {
                lemma_array_model(*a);
            }
            a
        },
        _ => &empty,
    };
    assert(models(skip@) == skip_list(detail.model())) by {
        assert(models(empty@) =~= Seq::<JsonSpec>::empty());
    }
    let ghost ss = models(sheets_array@);
    let ghost wb = views(workbook_sheets@);
    let mut sheet_names: Vec<String> = Vec::new();
    let n = sheets_array.len();
    assert(ss.take(0) =~= Seq::<JsonSpec>::empty());
    assert(views(sheet_names@) =~= Seq::<Seq<char>>::empty());
    for i in 0..n
        invariant
            n == sheets_array@.len(),
            ss == models(sheets_array@),
            wb == views(workbook_sheets@),
            models(skip@) == skip_list(detail.model()),
            resolve_spec(detail.model(), wb) == resolve_from(ss, skip_list(detail.model()), wb),
            resolve_from(ss.take(i as int), skip_list(detail.model()), wb) == Ok::<Seq<Seq<char>>, ErrorSpec>(views(sheet_names@)),
    {
        assert(ss.take(i + 1).drop_last() == ss.take(i as int));
        assert(ss.take(i + 1).last() == sheets_array@[i as int].model());
        match &sheets_array[i] {
            JsonValue::Str(sheet_str) => {
                let pc = chars_of(sheet_str.as_str());
                let names: Vec<String> = match find_star(&pc) {
                    Some(_) => match_sheet_names(workbook_sheets.as_slice(), sheet_str.as_str()),
                    None => {
                        let mut one: Vec<String> = Vec::new();
                        one.push(sheet_str.clone());
                        assert(views(one@) =~= seq![sheet_str@]);
                        one
                    },
                };
                add_sheet_names(&mut sheet_names, names, skip);
            },
            _ => {
                proof {
                    lemma_resolve_err(ss, skip_list(detail.model()), wb, i + 1);
                }
                return Err(ErrorOf::InvalidSheetName);
            },
        }
    }
    assert(ss.take(n as int) == ss);
    Ok(sheet_names)
}

proof fn lemma_add_names(acc: Seq<Seq<char>>, names: Seq<Seq<char>>, skip: Seq<JsonSpec>)
    requires
        all_distinct(acc),
        forall|i: int| 0 <= i < acc.len() ==> !in_skip(skip, #[trigger] acc[i]),
    ensures
        all_distinct(add_names(acc, names, skip)),
        forall|i: int|
            0 <= i < add_names(acc, names, skip).len() ==> !in_skip(skip, #[trigger] add_names(acc, names, skip)[i]),
    decreases names.len(),
{
    if names.len() > 0 {
        lemma_add_names(acc, names.drop_last(), skip);
        let a = add_names(acc, names.drop_last(), skip);
        let n = names.last();
        if !in_skip(skip, n) && !a.contains(n) {
            let b = a.push(n);
            assert forall|i: int, j: int| 0 <= i < b.len() && 0 <= j < b.len() && i != j implies b[i] != b[j] by {
                if i == a.len() as int {
                    assert(!a.contains(n));
                    assert(b[j] == a[j]);
                } else if j == a.len() as int {
                    assert(b[i] == a[i]);
                }
            }
            assert forall|i: int| 0 <= i < b.len() implies !in_skip(skip, #[trigger] b[i]) by {
                if i < a.len() {
                    assert(b[i] == a[i]);
                }
            }
        }
    }
}

proof fn lemma_resolve_from(sheets: Seq<JsonSpec>, skip: Seq<JsonSpec>, wb: Seq<Seq<char>>)
    ensures
        resolve_from(sheets, skip, wb) matches Ok(names) ==> all_distinct(names) && forall|i: int|
            0 <= i < names.len() ==> !in_skip(skip, #[trigger] names[i]),
    decreases sheets.len(),
{
    if sheets.len() > 0 {
        lemma_resolve_from(sheets.drop_last(), skip, wb);
        match resolve_from(sheets.drop_last(), skip, wb) {
            Ok(acc) => match sheets.last() {
                JsonSpec::Str(s) => {
                    lemma_add_names(acc, if find_char(s, '*') >= 0 {
                        matching(wb, s)
                    } else {
                        seq![s]
                    }, skip);
                },
                _ => {},
            },
            Err(_) => {},
        }
    }
}

/// The sheets a group resolves to never repeat, and none of them is one of its
/// "skip_sheets".
pub proof fn law_resolved_sheets_distinct_and_not_skipped(d: Entries, wb: Seq<Seq<char>>)
    ensures
        resolve_spec(d, wb) matches Ok(names) ==> all_distinct(names) && forall|i: int|
            0 <= i < names.len() ==> !in_skip(skip_list(d), #[trigger] names[i]),
{
    match lookup(d, "sheets"@) {
        Some(v) => match as_array(v) {
            Some(a) => lemma_resolve_from(a, skip_list(d), wb),
            None => {},
        },
        None => {},
    }
}

/// No entry of a group's "skip_sheets" array names a sheet that the group resolves to.
pub proof fn law_skipped_sheets_never_resolved(d: Entries, wb: Seq<Seq<char>>)
    ensures
        resolve_spec(d, wb) matches Ok(names) ==> (lookup(d, "skip_sheets"@) matches Some(
            JsonSpec::Array(a),
        ) ==> forall|i: int, j: int|
            #![trigger names[i], a[j]]
            0 <= i < names.len() && 0 <= j < a.len() ==> a[j] != JsonSpec::Str(names[i])),
{
    law_resolved_sheets_distinct_and_not_skipped(d, wb);
    if let Ok(names) = resolve_spec(d, wb) {
        if let Some(JsonSpec::Array(a)) = lookup(d, "skip_sheets"@) {
            assert(skip_list(d) == a);
            assert forall|i: int, j: int| 0 <= i < names.len() && 0 <= j < a.len() implies a[j]
                != JsonSpec::Str(names[i]) by {
                assert(!in_skip(skip_list(d), names[i]));
            }
        }
    }
}

} // verus!
