use vstd::prelude::*;

verus! {

/// `String::push`: appends one character at the end of the string.
#[verifier::external_body]
fn push_char(s: &mut String, c: char)
    ensures
        final(s)@ == old(s)@.push(c),
{
    s.push(c)
}

/// The characters of `s`, in order.
pub fn chars_of(s: &str) -> (v: Vec<char>)
    ensures
        v@ == s@,
{
    let mut v: Vec<char> = Vec::new();
    for c in it: s.chars()
        invariant
            v@ == it.seq().take(it.index() as int),
            it.seq() == s@,
    {
        v.push(c);
    }
    v
}

/// A string holding the characters of `v`.
pub fn string_of(v: &[char]) -> (s: String)
    ensures
        s@ == v@,
{
    let mut s = String::new();
    let n = v.len();
    for i in 0..n
        invariant
            n == v@.len(),
            s@ == v@.take(i as int),
    {
        push_char(&mut s, v[i]);
        assert(v@.take(i + 1) == v@.take(i as int).push(v@[i as int]));
    }
    assert(v@.take(n as int) == v@);
    s
}

/// Whether two strings hold the same characters.
pub fn str_eq(a: &str, b: &str) -> (r: bool)
    ensures
        r == (a@ == b@),
{
    let va = chars_of(a);
    let vb = chars_of(b);
    chars_eq(&va, &vb)
}

/// Whether two character sequences are equal.
pub fn chars_eq(a: &[char], b: &[char]) -> (r: bool)
    ensures
        r == (a@ == b@),
{
    if a.len() != b.len() {
        return false;
    }
    let n = a.len();
    for i in 0..n
        invariant
            n == a@.len(),
            n == b@.len(),
            forall|j: int| 0 <= j < i ==> a@[j] == b@[j],
    {
        if a[i] != b[i] {
            return false;
        }
    }
    assert(a@ =~= b@);
    true
}

/// The Unicode `White_Space` property, as `char::is_whitespace` decides it.
pub open spec fn is_ws(c: char) -> bool {
    let u = c as u32;
    ||| 0x09 <= u <= 0x0D
    ||| u == 0x20
    ||| u == 0x85
    ||| u == 0xA0
    ||| u == 0x1680
    ||| 0x2000 <= u <= 0x200A
    ||| u == 0x2028
    ||| u == 0x2029
    ||| u == 0x202F
    ||| u == 0x205F
    ||| u == 0x3000
}

/// Whether `c` is white space.
pub fn is_whitespace(c: char) -> (r: bool)
    ensures
        r == is_ws(c),
{
    let u = c as u32;
    (0x09 <= u && u <= 0x0D) || u == 0x20 || u == 0x85 || u == 0xA0 || u == 0x1680 || (0x2000
        <= u && u <= 0x200A) || u == 0x2028 || u == 0x2029 || u == 0x202F || u == 0x205F || u
        == 0x3000
}

/// `s` without its leading white space.
pub open spec fn trim_start(s: Seq<char>) -> Seq<char>
    decreases s.len(),
{
    if s.len() > 0 && is_ws(s[0]) {
        trim_start(s.drop_first())
    } else {
        s
    }
}

/// `s` without its trailing white space.
pub open spec fn trim_end(s: Seq<char>) -> Seq<char>
    decreases s.len(),
{
    if s.len() > 0 && is_ws(s.last()) {
        trim_end(s.drop_last())
    } else {
        s
    }
}

/// `s` without leading and trailing white space, as `str::trim` gives it.
pub open spec fn trim(s: Seq<char>) -> Seq<char> {
    trim_end(trim_start(s))
}

/// An ASCII white-space character: tab, line feed, vertical tab, form feed, carriage
/// return or space.
pub open spec fn ascii_space(c: char) -> bool {
    (9 <= c as u32 && c as u32 <= 13) || c as u32 == 32
}

/// White space includes the ASCII white-space characters, and no ASCII letter or digit
/// is white space.
pub proof fn law_white_space_chars(c: char)
    ensures
        ascii_space(c) ==> is_ws(c),
        ('a' <= c <= 'z' || 'A' <= c <= 'Z' || '0' <= c <= '9') ==> !is_ws(c),
{
}

/// Adding white space at the end of a text that has leading white space removed adds it
/// at the end of what is left, unless nothing is left.
proof fn lemma_trim_start_push(s: Seq<char>, c: char)
    requires
        is_ws(c),
    ensures
        trim_start(s.push(c)) == if trim_start(s).len() == 0 {
            Seq::<char>::empty()
        } else {
            trim_start(s).push(c)
        },
    decreases s.len(),
{
    if s.len() == 0 {
        let one = s.push(c);
        assert(one.len() == 1 && one[0] == c);
        assert(one.drop_first() =~= Seq::<char>::empty());
        assert(trim_start(Seq::<char>::empty()) =~= Seq::<char>::empty());
        assert(trim_start(one) == trim_start(one.drop_first()));
    } else if is_ws(s[0]) {
        assert(s.push(c).drop_first() =~= s.drop_first().push(c));
        lemma_trim_start_push(s.drop_first(), c);
    } else {
        assert(s.push(c)[0] == s[0]);
    }
}

/// What is left after trimming keeps no white space at its ends.
proof fn lemma_trim_ends(s: Seq<char>)
    ensures
        trim_start(s).len() > 0 ==> !is_ws(trim_start(s)[0]),
        trim_start(s).len() <= s.len(),
        trim_end(s).len() <= s.len(),
        trim_end(s) == s.take(trim_end(s).len() as int),
        trim_end(s).len() > 0 ==> !is_ws(trim_end(s).last()),
    decreases s.len(),
{
    if s.len() > 0 {
        lemma_trim_ends(s.drop_first());
        lemma_trim_ends(s.drop_last());
        if is_ws(s.last()) {
            let t = trim_end(s.drop_last());
            assert(s.drop_last().take(t.len() as int) =~= s.take(t.len() as int));
        } else {
            assert(s.take(s.len() as int) =~= s);
        }
    } else {
        assert(s.take(0) =~= s);
    }
}

/// Trimming twice is trimming once.
pub proof fn lemma_trim_twice(s: Seq<char>)
    ensures
        trim(trim(s)) == trim(s),
{
    let u = trim_start(s);
    let w = trim_end(u);
    lemma_trim_ends(s);
    lemma_trim_ends(u);
    if w.len() > 0 {
        assert(w[0] == u[0]);
        assert(trim_start(w) == w);
        lemma_trim_ends(w);
        assert(trim_end(w) == w);
    } else {
        assert(trim_start(w) == w);
    }
}

/// Trimming removes ASCII white space at either end: a text with such a character added
/// in front or at the back trims to the same text.
pub proof fn law_trim_drops_ascii_space(s: Seq<char>, c: char)
    requires
        ascii_space(c),
    ensures
        trim(s.push(c)) == trim(s),
        trim(seq![c] + s) == trim(s),
{
    assert(is_ws(c));
    lemma_trim_start_push(s, c);
    let t = trim_start(s);
    if t.len() > 0 {
        assert(t.push(c).drop_last() =~= t);
        assert(t.push(c).last() == c);
    }
    assert((seq![c] + s)[0] == c);
    assert((seq![c] + s).drop_first() =~= s);
}

/// `s` with white space removed at both ends.
pub fn trim_chars(s: &[char]) -> (r: Vec<char>)
    ensures
        r@ == trim(s@),
{
    let n = s.len();
    let mut i: usize = 0;
    assert(s@.subrange(0, n as int) == s@);
    while i < n && is_whitespace(s[i])
        invariant
            n == s@.len(),
            i <= n,
            trim_start(s@) == trim_start(s@.subrange(i as int, n as int)),
        decreases n - i,
    {
        assert(s@.subrange(i as int, n as int).drop_first() == s@.subrange(i + 1, n as int));
        i = i + 1;
    }
    let mut j: usize = n;
    while j > i && is_whitespace(s[j - 1])
        invariant
            n == s@.len(),
            i <= j <= n,
            trim_end(s@.subrange(i as int, n as int)) == trim_end(s@.subrange(i as int, j as int)),
        decreases j,
    {
        assert(s@.subrange(i as int, j as int).drop_last() == s@.subrange(i as int, j - 1));
        j = j - 1;
    }
    assert(trim_start(s@.subrange(i as int, n as int)) == s@.subrange(i as int, n as int));
    let mut r: Vec<char> = Vec::new();
    for k in i..j
        invariant
            n == s@.len(),
            i <= j <= n,
            r@ == s@.subrange(i as int, k as int),
    {
        r.push(s[k]);
        assert(s@.subrange(i as int, k + 1) == s@.subrange(i as int, k as int).push(s@[k as int]));
    }
    assert(trim_end(s@.subrange(i as int, j as int)) == s@.subrange(i as int, j as int));
    r
}

/// `s` with white space removed at both ends, as a new string.
pub fn trim_str(s: &str) -> (r: String)
    ensures
        r@ == trim(s@),
{
    let v = chars_of(s);
    let t = trim_chars(&v);
    string_of(&t)
}


/// The decimal digit character for `d` (`0 <= d < 10`).
pub open spec fn digit_char(d: int) -> char {
    (48 + d) as char
}

/// The decimal text of a natural number, without leading zeros.
pub open spec fn dec(n: nat) -> Seq<char>
    decreases n,
{
    if n < 10 {
        seq![digit_char(n as int)]
    } else {
        dec(n / 10).push(digit_char((n % 10) as int))
    }
}

/// The decimal text of a signed integer, as `i64`'s `Display` writes it.
pub open spec fn dec_i64(n: i64) -> Seq<char> {
    if n < 0 {
        seq!['-'] + dec((-n) as nat)
    } else {
        dec(n as nat)
    }
}

/// Decimal texts are never empty, and a single digit stands for a number below ten.
pub proof fn lemma_dec_len(n: nat)
    ensures
        dec(n).len() >= 1,
        (dec(n).len() == 1) == (n < 10),
        forall|i: int| 0 <= i < dec(n).len() ==> '0' <= #[trigger] dec(n)[i] <= '9',
    decreases n,
{
    if n >= 10 {
        lemma_dec_len(n / 10);
    }
}

/// Digit characters stand for their digits.
proof fn lemma_digit_char(d: int)
    requires
        0 <= d < 10,
    ensures
        digit_char(d) as u32 == 48 + d,
{
}

/// Different numbers have different decimal texts.
pub proof fn lemma_dec_injective(a: nat, b: nat)
    requires
        dec(a) == dec(b),
    ensures
        a == b,
    decreases a,
{
    lemma_dec_len(a);
    lemma_dec_len(b);
    if a >= 10 && b >= 10 {
        assert(dec(a).drop_last() == dec(a / 10));
        assert(dec(b).drop_last() == dec(b / 10));
        lemma_dec_injective(a / 10, b / 10);
        assert(dec(a).last() == dec(b).last());
        assert(dec(a).last() == digit_char((a % 10) as int));
        assert(dec(b).last() == digit_char((b % 10) as int));
        lemma_digit_char(a as int % 10);
        lemma_digit_char(b as int % 10);
        assert(a % 10 == b % 10);
        assert(a == 10 * (a / 10) + a % 10);
        assert(b == 10 * (b / 10) + b % 10);
    } else if a < 10 && b < 10 {
        assert(dec(a)[0] == digit_char(a as int));
        assert(dec(b)[0] == digit_char(b as int));
        lemma_digit_char(a as int);
        lemma_digit_char(b as int);
    } else {
        assert(dec(a).len() != dec(b).len());
    }
}

/// The digit character for `d`.
fn digit(d: u128) -> (c: char)
    requires
        d < 10,
    ensures
        c == digit_char(d as int),
{
    let b: u8 = 48u8 + d as u8;
    b as char
}

/// Appends the decimal text of `n` to `out`.
pub fn push_decimal(out: &mut Vec<char>, n: u128)
    ensures
        final(out)@ == old(out)@ + dec(n as nat),
    decreases n,
{
    if n >= 10 {
        push_decimal(out, n / 10);
    }
    out.push(digit(n % 10));
    proof {
        if n >= 10 {
            assert(dec(n as nat) == dec((n / 10) as nat).push(digit_char((n % 10) as int)));
        }
    }
}

/// The decimal text of `n`, as `Display` writes an `i64`.
pub fn i64_text(n: i64) -> (r: Vec<char>)
    ensures
        r@ == dec_i64(n),
{
    let mut out: Vec<char> = Vec::new();
    if n < 0 {
        out.push('-');
        let m: i128 = -(n as i128);
        push_decimal(&mut out, m as u128);
    } else {
        push_decimal(&mut out, n as u128);
    }
    out
}

} // verus!
