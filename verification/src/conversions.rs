use vstd::prelude::*;
use crate::error::{ErrorOf, ExtractError, ErrorSpec};
use crate::text::{chars_of, string_of};

verus! {

/// An ASCII letter.
pub open spec fn is_letter(c: char) -> bool {
    ('A' <= c && c <= 'Z') || ('a' <= c && c <= 'z')
}

/// An ASCII decimal digit.
pub open spec fn is_digit(c: char) -> bool {
    '0' <= c && c <= '9'
}

/// The position of a letter in the alphabet, counting from 1, whatever its case.
pub open spec fn letter_val(c: char) -> int {
    if 'A' <= c && c <= 'Z' {
        c as int - 'A' as int + 1
    } else {
        c as int - 'a' as int + 1
    }
}

/// The bijective base-26 number that a column name spells ("A" is 1, "Z" 26, "AA" 27).
pub open spec fn letters_val(s: Seq<char>) -> int
    decreases s.len(),
{
    if s.len() == 0 {
        0
    } else {
        letters_val(s.drop_last()) * 26 + letter_val(s.last())
    }
}

/// The number that a string of decimal digits spells.
pub open spec fn digits_val(s: Seq<char>) -> int
    decreases s.len(),
{
    if s.len() == 0 {
        0
    } else {
        digits_val(s.drop_last()) * 10 + (s.last() as int - '0' as int)
    }
}

/// Every character is a letter.
pub open spec fn all_letters(s: Seq<char>) -> bool {
    forall|i: int| 0 <= i < s.len() ==> is_letter(#[trigger] s[i])
}

/// Every character is a digit.
pub open spec fn all_digits(s: Seq<char>) -> bool {
    forall|i: int| 0 <= i < s.len() ==> is_digit(#[trigger] s[i])
}

/// The 0-based index of the column that `s` names: "A" is 0, "Z" 25, "AA" 26; letters
/// may be of either case.
pub open spec fn column_index_spec(s: Seq<char>) -> Result<u32, ErrorSpec> {
    if s.len() > 0 && all_letters(s) && letters_val(s) <= 0x1_0000_0000 {
        Ok((letters_val(s) - 1) as u32)
    } else {
        Err(ErrorOf::InvalidColumnName(s))
    }
}

/// The number of letters that `s` starts with.
pub open spec fn lead_letters(s: Seq<char>) -> nat
    decreases s.len(),
{
    if s.len() > 0 && is_letter(s[0]) {
        1 + lead_letters(s.drop_first())
    } else {
        0
    }
}

/// The (1-based row, 0-based column) that a cell address such as "B12" names: one or more
/// letters, then one or more digits; letters may be of either case.
pub open spec fn address_spec(s: Seq<char>) -> Result<(u32, u32), ErrorSpec> {
    let k = lead_letters(s) as int;
    let letters = s.take(k);
    let digits = s.skip(k);
    if k > 0 && digits.len() > 0 && all_digits(digits) && letters_val(letters) <= 0x1_0000_0000
        && digits_val(digits) <= u32::MAX {
        Ok((digits_val(digits) as u32, (letters_val(letters) - 1) as u32))
    } else {
        Err(ErrorOf::InvalidCellAddress(s))
    }
}

proof fn lemma_letters_val_nonneg(s: Seq<char>)
    requires
        all_letters(s),
    ensures
        letters_val(s) >= 0,
        s.len() > 0 ==> letters_val(s) >= 1,
    decreases s.len(),
{
    if s.len() > 0 {
        assert(all_letters(s.drop_last())) by {
            assert forall|i: int| 0 <= i < s.drop_last().len() implies is_letter(
                #[trigger] s.drop_last()[i],
            ) by {
                assert(s.drop_last()[i] == s[i]);
            }
        }
        lemma_letters_val_nonneg(s.drop_last());
        assert(is_letter(s[s.len() - 1]));
    }
}

proof fn lemma_digits_val_nonneg(s: Seq<char>)
    requires
        all_digits(s),
    ensures
        digits_val(s) >= 0,
    decreases s.len(),
{
    if s.len() > 0 {
        assert(all_digits(s.drop_last())) by {
            assert forall|i: int| 0 <= i < s.drop_last().len() implies is_digit(
                #[trigger] s.drop_last()[i],
            ) by {
                assert(s.drop_last()[i] == s[i]);
            }
        }
        lemma_digits_val_nonneg(s.drop_last());
        assert(is_digit(s[s.len() - 1]));
    }
}

/// The alphabet position of an ASCII letter.
fn letter_value(c: char) -> (v: u64)
    requires
        is_letter(c),
    ensures
        v == letter_val(c),
        1 <= v <= 26,
{
    if 'A' <= c && c <= 'Z' {
        (c as u32 - 'A' as u32 + 1) as u64
    } else {
        (c as u32 - 'a' as u32 + 1) as u64
    }
}

/// Whether `c` is an ASCII letter.
pub fn is_ascii_letter(c: char) -> (r: bool)
    ensures
        r == is_letter(c),
{
    ('A' <= c && c <= 'Z') || ('a' <= c && c <= 'z')
}

/// Whether `c` is an ASCII digit.
pub fn is_ascii_digit(c: char) -> (r: bool)
    ensures
        r == is_digit(c),
{
    '0' <= c && c <= '9'
}

const CAP: u64 = 0x1_0000_0001;

/// The column value of `s[from..to]`, capped at `CAP`, or `None` when a character is
/// not a letter.
fn capped_letters_val(s: &[char], from: usize, to: usize) -> (r: Option<u64>)
    requires
        from <= to <= s@.len(),
    ensures
        match r {
            Some(v) => all_letters(s@.subrange(from as int, to as int)) && v as int == if letters_val(
                s@.subrange(from as int, to as int),
            ) < CAP {
                letters_val(s@.subrange(from as int, to as int))
            } else {
                CAP as int
            },
            None => !all_letters(s@.subrange(from as int, to as int)),
        },
{
    let mut acc: u64 = 0;
    let mut i = from;
    while i < to
        invariant
            from <= i <= to <= s@.len(),
            all_letters(s@.subrange(from as int, i as int)),
            acc as int == if letters_val(s@.subrange(from as int, i as int)) < CAP {
                letters_val(s@.subrange(from as int, i as int))
            } else {
                CAP as int
            },
        decreases to - i,
    {
        let c = s[i];
        let ghost pre = s@.subrange(from as int, i as int);
        let ghost next = s@.subrange(from as int, i + 1);
        assert(next.drop_last() == pre);
        assert(next.last() == c);
        if !is_ascii_letter(c) {
            assert(!all_letters(s@.subrange(from as int, to as int))) by {
                assert(s@.subrange(from as int, to as int)[i - from] == c);
            }
            return None;
        }
        proof {
            lemma_letters_val_nonneg(pre);
        }
        let v = letter_value(c);
        let t = acc * 26 + v;
        acc = if t < CAP {
            t
        } else {
            CAP
        };
        assert(all_letters(next)) by {
            assert forall|j: int| 0 <= j < next.len() implies is_letter(#[trigger] next[j]) by {
                if j < pre.len() {
                    assert(next[j] == pre[j]);
                }
            }
        }
        i = i + 1;
    }
    Some(acc)
}

/// The number spelt by the digits `s[from..to]`, capped at `CAP`, or `None` when a
/// character is not a digit.
fn capped_digits_val(s: &[char], from: usize, to: usize) -> (r: Option<u64>)
    requires
        from <= to <= s@.len(),
    ensures
        match r {
            Some(v) => all_digits(s@.subrange(from as int, to as int)) && v as int == if digits_val(
                s@.subrange(from as int, to as int),
            ) < CAP {
                digits_val(s@.subrange(from as int, to as int))
            } else {
                CAP as int
            },
            None => !all_digits(s@.subrange(from as int, to as int)),
        },
{
    let mut acc: u64 = 0;
    let mut i = from;
    while i < to
        invariant
            from <= i <= to <= s@.len(),
            all_digits(s@.subrange(from as int, i as int)),
            acc as int == if digits_val(s@.subrange(from as int, i as int)) < CAP {
                digits_val(s@.subrange(from as int, i as int))
            } else {
                CAP as int
            },
        decreases to - i,
    {
        let c = s[i];
        let ghost pre = s@.subrange(from as int, i as int);
        let ghost next = s@.subrange(from as int, i + 1);
        assert(next.drop_last() == pre);
        assert(next.last() == c);
        if !is_ascii_digit(c) {
            assert(!all_digits(s@.subrange(from as int, to as int))) by {
                assert(s@.subrange(from as int, to as int)[i - from] == c);
            }
            return None;
        }
        proof {
            lemma_digits_val_nonneg(pre);
        }
        let v = (c as u32 - '0' as u32) as u64;
        let t = acc * 10 + v;
        acc = if t < CAP {
            t
        } else {
            CAP
        };
        assert(all_digits(next)) by {
            assert forall|j: int| 0 <= j < next.len() implies is_digit(#[trigger] next[j]) by {
                if j < pre.len() {
                    assert(next[j] == pre[j]);
                }
            }
        }
        i = i + 1;
    }
    Some(acc)
}

/// The 0-based index of the column named `name`.
pub fn column_name_to_index(name: &str) -> (r: Result<u32, ExtractError>)
    ensures
        match r {
            Ok(i) => column_index_spec(name@) == Ok::<u32, ErrorSpec>(i),
            Err(e) => column_index_spec(name@) == Err::<u32, ErrorSpec>(e.model()),
        },
{
    let cs = chars_of(name);
    let n = cs.len();
    assert(cs@.subrange(0, n as int) == name@);
    if n > 0 {
        match capped_letters_val(&cs, 0, n) {
            Some(v) => {
                proof {
                    lemma_letters_val_nonneg(cs@);
                }
                if v <= 0x1_0000_0000 {
                    return Ok((v - 1) as u32);
                }
            },
            None => {},
        }
    }
    Err(ErrorOf::InvalidColumnName(string_of(&cs)))
}

/// The number of letters at the start of `s`.
fn count_lead_letters(s: &[char]) -> (k: usize)
    ensures
        k == lead_letters(s@),
        k <= s@.len(),
        all_letters(s@.take(k as int)),
{
    let n = s.len();
    let mut i: usize = 0;
    assert(s@.skip(0) == s@);
    while i < n && is_ascii_letter(s[i])
        invariant
            n == s@.len(),
            i <= n,
            lead_letters(s@) == i + lead_letters(s@.skip(i as int)),
            all_letters(s@.take(i as int)),
        decreases n - i,
    {
        assert(s@.skip(i as int).drop_first() == s@.skip(i + 1));
        assert(all_letters(s@.take(i + 1))) by {
            assert forall|j: int| 0 <= j < i + 1 implies is_letter(#[trigger] s@.take(i + 1)[j]) by {
                if j < i {
                    assert(s@.take(i + 1)[j] == s@.take(i as int)[j]);
                }
            }
        }
        i = i + 1;
    }
    i
}

/// The (1-based row, 0-based column) named by a cell address such as "B12".
pub fn address_to_row_col(address: &str) -> (r: Result<(u32, u32), ExtractError>)
    ensures
        match r {
            Ok(rc) => address_spec(address@) == Ok::<(u32, u32), ErrorSpec>(rc),
            Err(e) => address_spec(address@) == Err::<(u32, u32), ErrorSpec>(e.model()),
        },
{
    let cs = chars_of(address);
    let n = cs.len();
    let k = count_lead_letters(&cs);
    assert(cs@.subrange(0, k as int) == cs@.take(k as int));
    assert(cs@.subrange(k as int, n as int) == cs@.skip(k as int));
    if k > 0 && k < n {
        let lv = capped_letters_val(&cs, 0, k);
        let dv = capped_digits_val(&cs, k, n);
        match (lv, dv) {
            (Some(l), Some(d)) => {
                proof {
                    lemma_letters_val_nonneg(cs@.take(k as int));
                }
                if l <= 0x1_0000_0000 && d <= 0xFFFF_FFFF {
                    return Ok((d as u32, (l - 1) as u32));
                }
            },
            _ => {},
        }
    }
    Err(ErrorOf::InvalidCellAddress(string_of(&cs)))
}

/// A path separator.
pub open spec fn is_sep(c: char) -> bool {
    c == '/' || c == '\\'
}

/// The position of the last path separator in `s`, or -1.
pub open spec fn last_sep(s: Seq<char>) -> int
    decreases s.len(),
{
    if s.len() == 0 {
        -1
    } else if is_sep(s.last()) {
        s.len() - 1
    } else {
        last_sep(s.drop_last())
    }
}

/// The position of the last `.` in `s`, or -1.
pub open spec fn last_dot(s: Seq<char>) -> int
    decreases s.len(),
{
    if s.len() == 0 {
        -1
    } else if s.last() == '.' {
        s.len() - 1
    } else {
        last_dot(s.drop_last())
    }
}

/// The file name of a path without its directories and without its extension: the text
/// after the last `/` or `\`, cut before its last `.` unless that `.` begins the name.
pub open spec fn file_stem(path: Seq<char>) -> Seq<char> {
    let name = path.skip(last_sep(path) + 1);
    let dot = last_dot(name);
    if dot > 0 {
        name.take(dot)
    } else {
        name
    }
}

proof fn lemma_last_sep(s: Seq<char>)
    ensures
        -1 <= last_sep(s) < s.len(),
    decreases s.len(),
{
    if s.len() > 0 && !is_sep(s.last()) {
        lemma_last_sep(s.drop_last());
    }
}

proof fn lemma_last_dot(s: Seq<char>)
    ensures
        -1 <= last_dot(s) < s.len(),
    decreases s.len(),
{
    if s.len() > 0 && s.last() != '.' {
        lemma_last_dot(s.drop_last());
    }
}

/// One past the position of the last separator (`sep`) or dot (`!sep`) in `s`; 0 when there
/// is none.
fn after_last(s: &[char], sep: bool) -> (r: usize)
    ensures
        r == (if sep { last_sep(s@) } else { last_dot(s@) }) + 1,
{
    let n = s.len();
    let mut j = n;
    assert(s@.take(n as int) == s@);
    while j > 0
        invariant
            j <= n == s@.len(),
            (if sep { last_sep(s@) } else { last_dot(s@) }) == (if sep {
                last_sep(s@.take(j as int))
            } else {
                last_dot(s@.take(j as int))
            }),
        decreases j,
    {
        let c = s[j - 1];
        assert(s@.take(j as int).last() == c);
        assert(s@.take(j as int).drop_last() == s@.take(j - 1));
        if sep {
            if c == '/' || c == '\\' {
                return j;
            }
        } else {
            if c == '.' {
                return j;
            }
        }
        j = j - 1;
    }
    0
}

/// The name of the file at `path`, without directories and extension.
pub fn extract_filename(path: &str) -> (r: String)
    ensures
        r@ == file_stem(path@),
{
    let cs = chars_of(path);
    let n = cs.len();
    let start = after_last(&cs, true);
    proof {
        lemma_last_sep(cs@);
    }
    let mut name: Vec<char> = Vec::new();
    for i in start..n
        invariant
            start <= n == cs@.len(),
            name@ == cs@.subrange(start as int, i as int),
    {
        name.push(cs[i]);
        assert(cs@.subrange(start as int, i + 1) == cs@.subrange(start as int, i as int).push(
            cs@[i as int],
        ));
    }
    assert(name@ == path@.skip(start as int));
    let m = name.len();
    let dot1 = after_last(&name, false);
    proof {
        lemma_last_dot(name@);
    }
    if dot1 > 1 {
        let d = dot1 - 1;
        let mut stem: Vec<char> = Vec::new();
        for i in 0..d
            invariant
                d <= m == name@.len(),
                stem@ == name@.take(i as int),
        {
            stem.push(name[i]);
            assert(name@.take(i + 1) == name@.take(i as int).push(name@[i as int]));
        }
        string_of(&stem)
    } else {
        string_of(&name)
    }
}


/// The upper-case form of an ASCII letter; any other character unchanged.
pub open spec fn to_upper(c: char) -> char {
    if 'a' <= c && c <= 'z' {
        ((c as int) - 32) as char
    } else {
        c
    }
}

/// `s` with its ASCII letters in upper case.
pub open spec fn upper(s: Seq<char>) -> Seq<char> {
    s.map_values(|c: char| to_upper(c))
}

proof fn lemma_upper_char(c: char)
    ensures
        is_letter(to_upper(c)) == is_letter(c),
        is_digit(to_upper(c)) == is_digit(c),
        is_letter(c) ==> letter_val(to_upper(c)) == letter_val(c),
        is_digit(c) ==> to_upper(c) == c,
{
    if 'a' <= c && c <= 'z' {
        assert(((c as int) - 32) as char as int == (c as int) - 32);
    }
}

proof fn lemma_upper_letters(s: Seq<char>)
    ensures
        all_letters(upper(s)) == all_letters(s),
        all_letters(s) ==> letters_val(upper(s)) == letters_val(s),
    decreases s.len(),
{
    assert(upper(s).len() == s.len());
    assert forall|i: int| 0 <= i < s.len() implies #[trigger] upper(s)[i] == to_upper(s[i]) by {}
    assert forall|i: int| 0 <= i < s.len() implies is_letter(#[trigger] upper(s)[i]) == is_letter(s[i]) by {
        lemma_upper_char(s[i]);
    }
    if all_letters(s) {
        assert forall|i: int| 0 <= i < upper(s).len() implies is_letter(#[trigger] upper(s)[i]) by {
            lemma_upper_char(s[i]);
        }
    }
    if all_letters(upper(s)) {
        assert forall|i: int| 0 <= i < s.len() implies is_letter(#[trigger] s[i]) by {
            lemma_upper_char(s[i]);
            assert(is_letter(upper(s)[i]));
        }
    }
    if s.len() > 0 {
        assert(upper(s).drop_last() == upper(s.drop_last()));
        lemma_upper_letters(s.drop_last());
        if all_letters(s) {
            assert(all_letters(s.drop_last())) by {
                assert forall|i: int| 0 <= i < s.drop_last().len() implies is_letter(#[trigger] s.drop_last()[i]) by {
                    assert(s.drop_last()[i] == s[i]);
                }
            }
            lemma_upper_char(s.last());
        }
    }
}

proof fn lemma_upper_lead(s: Seq<char>)
    ensures
        lead_letters(upper(s)) == lead_letters(s),
    decreases s.len(),
{
    if s.len() > 0 {
        lemma_upper_char(s[0]);
        assert(upper(s)[0] == to_upper(s[0]));
        assert(upper(s).drop_first() == upper(s.drop_first()));
        lemma_upper_lead(s.drop_first());
    }
}

proof fn lemma_lead(s: Seq<char>)
    ensures
        lead_letters(s) <= s.len(),
        all_letters(s.take(lead_letters(s) as int)),
    decreases s.len(),
{
    if s.len() > 0 && is_letter(s[0]) {
        lemma_lead(s.drop_first());
        let k = lead_letters(s) as int;
        assert forall|i: int| 0 <= i < k implies is_letter(#[trigger] s.take(k)[i]) by {
            if i > 0 {
                assert(s.take(k)[i] == s.drop_first().take(k - 1)[i - 1]);
            }
        }
    }
}

/// Column names do not depend on the case of their letters: a name and its upper-case
/// form are both valid or both invalid, and name the same column.
pub proof fn law_column_name_ignores_case(s: Seq<char>)
    ensures
        column_index_spec(s) is Ok <==> column_index_spec(upper(s)) is Ok,
        column_index_spec(s) is Ok ==> column_index_spec(s) == column_index_spec(upper(s)),
{
    lemma_upper_letters(s);
}

/// Cell addresses do not depend on the case of their letters: "b12" and "B12" are both
/// valid or both invalid, and name the same cell.
pub proof fn law_address_ignores_case(s: Seq<char>)
    ensures
        address_spec(s) is Ok <==> address_spec(upper(s)) is Ok,
        address_spec(s) is Ok ==> address_spec(s) == address_spec(upper(s)),
{
    lemma_upper_lead(s);
    lemma_lead(s);
    let k = lead_letters(s) as int;
    let u = upper(s);
    if k <= s.len() {
        assert(u.take(k) == upper(s.take(k)));
        let d = s.skip(k);
        let du = u.skip(k);
        assert(du.len() == d.len());
        assert forall|i: int| 0 <= i < d.len() implies is_digit(#[trigger] du[i]) == is_digit(d[i])
            && (is_digit(d[i]) ==> du[i] == d[i]) by {
            assert(du[i] == u[k + i]);
            assert(d[i] == s[k + i]);
            assert(u[k + i] == to_upper(s[k + i]));
            lemma_upper_char(s[k + i]);
        }
        if all_digits(d) {
            assert(du =~= d);
        }
        if all_digits(du) {
            assert forall|i: int| 0 <= i < d.len() implies is_digit(#[trigger] d[i]) by {
                assert(is_digit(du[i]));
            }
            assert(du =~= d);
        }
        lemma_upper_letters(s.take(k));
    }
}

} // verus!
