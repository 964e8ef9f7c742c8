//! Text primitives over the character sequence of a string.
//!
//! A `String` or `&str` is modelled by its view, a `Seq<char>`.  The spec
//! functions here say what the usual string operations (trim, contains,
//! prefix, suffix, comparison) mean on that model; the exec functions compute
//! them and are proved against those definitions.
use vstd::prelude::*;

verus! {

/// `char::is_whitespace`: the Unicode `White_Space` property.
pub open spec fn is_ws(c: char) -> bool {
    ||| ('\u{9}' <= c && c <= '\u{d}')
    ||| c == ' '
    ||| c == '\u{85}'
    ||| c == '\u{a0}'
    ||| c == '\u{1680}'
    ||| ('\u{2000}' <= c && c <= '\u{200a}')
    ||| c == '\u{2028}'
    ||| c == '\u{2029}'
    ||| c == '\u{202f}'
    ||| c == '\u{205f}'
    ||| c == '\u{3000}'
}

pub fn is_whitespace(c: char) -> (r: bool)
    ensures
        r == is_ws(c),
{
    ('\u{9}' <= c && c <= '\u{d}') || c == ' ' || c == '\u{85}' || c == '\u{a0}' || c
        == '\u{1680}' || ('\u{2000}' <= c && c <= '\u{200a}') || c == '\u{2028}' || c
        == '\u{2029}' || c == '\u{202f}' || c == '\u{205f}' || c == '\u{3000}'
}

/// `char::is_ascii_digit`.
pub open spec fn is_digit(c: char) -> bool {
    '0' <= c && c <= '9'
}

/// `char::is_ascii_alphanumeric`.
pub open spec fn is_ascii_alnum(c: char) -> bool {
    ||| is_digit(c)
    ||| ('a' <= c && c <= 'z')
    ||| ('A' <= c && c <= 'Z')
}

pub fn is_alnum(c: char) -> (r: bool)
    ensures
        r == is_ascii_alnum(c),
{
    ('0' <= c && c <= '9') || ('a' <= c && c <= 'z') || ('A' <= c && c <= 'Z')
}

/// `char::to_ascii_lowercase`.
pub open spec fn ascii_lower(c: char) -> char {
    if 'A' <= c && c <= 'Z' {
        ((c as u32) + 32) as char
    } else {
        c
    }
}

pub fn to_ascii_lower(c: char) -> (r: char)
    ensures
        r == ascii_lower(c),
{
    if 'A' <= c && c <= 'Z' {
        let u: u32 = (c as u32) + 32;
        assert(('a' as u32) <= u <= ('z' as u32));
        char_from_ascii_code(u)
    } else {
        c
    }
}

/// The character with the given code, for codes of ASCII letters.
fn char_from_ascii_code(u: u32) -> (r: char)
    requires
        ('a' as u32) <= u <= ('z' as u32),
    ensures
        r == u as char,
{
    let b: u8 = u as u8;
    b as char
}

/// `s` with every ASCII capital letter made small.
pub open spec fn lower_seq(s: Seq<char>) -> Seq<char> {
    s.map_values(|c: char| ascii_lower(c))
}

/// `s` without its leading whitespace.
pub open spec fn trim_start(s: Seq<char>) -> Seq<char>
    decreases s.len(),
{
    if s.len() > 0 && is_ws(s[0]) {
        trim_start(s.drop_first())
    } else {
        s
    }
}

/// `s` without its trailing whitespace.
pub open spec fn trim_end(s: Seq<char>) -> Seq<char>
    decreases s.len(),
{
    if s.len() > 0 && is_ws(s.last()) {
        trim_end(s.drop_last())
    } else {
        s
    }
}

/// `str::trim`.
pub open spec fn trim(s: Seq<char>) -> Seq<char> {
    trim_end(trim_start(s))
}

/// `s` without its leading characters `c`.
pub open spec fn trim_start_char(s: Seq<char>, c: char) -> Seq<char>
    decreases s.len(),
{
    if s.len() > 0 && s[0] == c {
        trim_start_char(s.drop_first(), c)
    } else {
        s
    }
}

/// `s` without its trailing characters `c`.
pub open spec fn trim_end_char(s: Seq<char>, c: char) -> Seq<char>
    decreases s.len(),
{
    if s.len() > 0 && s.last() == c {
        trim_end_char(s.drop_last(), c)
    } else {
        s
    }
}

/// `str::trim_matches(c)`: `s` without its leading and trailing
/// characters `c`.
pub open spec fn trim_char(s: Seq<char>, c: char) -> Seq<char> {
    trim_end_char(trim_start_char(s, c), c)
}

/// `pat` occurs in `s` at index `i`.
pub open spec fn has_at(s: Seq<char>, pat: Seq<char>, i: int) -> bool {
    0 <= i && i + pat.len() <= s.len() && s.subrange(i, i + pat.len()) == pat
}

/// `str::find` from index `j` on: the least index at or after `j` where `pat`
/// occurs in `s`.
pub open spec fn find_seq(s: Seq<char>, pat: Seq<char>, j: int) -> Option<int>
    decreases s.len() - j,
{
    if j < 0 || j + pat.len() > s.len() {
        None
    } else if has_at(s, pat, j) {
        Some(j)
    } else {
        proof {
            if pat.len() == 0 {
                assert(s.subrange(j, j) =~= pat);
            }
        }
        find_seq(s, pat, j + 1)
    }
}

/// Where `find_seq` finds `pat`, it occurs, at or after `j`, and nowhere
/// between `j` and there.
pub proof fn lemma_find_seq(s: Seq<char>, pat: Seq<char>, j: int)
    ensures
        find_seq(s, pat, j) matches Some(k) ==> j <= k && k + pat.len() <= s.len() && has_at(
            s,
            pat,
            k,
        ),
    decreases s.len() - j,
{
    if !(j < 0 || j + pat.len() > s.len()) && !has_at(s, pat, j) {
        if pat.len() == 0 {
            assert(s.subrange(j, j) =~= pat);
        }
        lemma_find_seq(s, pat, j + 1);
    }
}

/// The lines of `s[j..]` as `str::lines` gives them: split at each `\n`, a
/// `\r` just before it dropped, and no line after a final `\n`.
pub open spec fn lines_from(s: Seq<char>, j: int) -> Seq<Seq<char>>
    decreases s.len() - j,
{
    if j < 0 || j >= s.len() {
        Seq::empty()
    } else {
        match find_seq(s, seq!['\n'], j) {
            None => seq![s.subrange(j, s.len() as int)],
            Some(k) => {
                proof {
                    lemma_find_seq(s, seq!['\n'], j);
                }
                seq![strip_cr(s.subrange(j, k))] + lines_from(s, k + 1)
            },
        }
    }
}

/// `str::lines`.
pub open spec fn lines(s: Seq<char>) -> Seq<Seq<char>> {
    lines_from(s, 0)
}

/// `t` without one final `\r`.
pub open spec fn strip_cr(t: Seq<char>) -> Seq<char> {
    if t.len() > 0 && t.last() == '\r' {
        t.drop_last()
    } else {
        t
    }
}

/// The pieces of `s[j..]` between the separator `c`, as `str::split` gives
/// them (always at least one piece).
pub open spec fn split_from(s: Seq<char>, c: char, j: int) -> Seq<Seq<char>>
    decreases s.len() - j,
{
    if j < 0 || j > s.len() {
        Seq::empty()
    } else {
        match find_seq(s, seq![c], j) {
            None => seq![s.subrange(j, s.len() as int)],
            Some(k) => {
                proof {
                    lemma_find_seq(s, seq![c], j);
                }
                seq![s.subrange(j, k)] + split_from(s, c, k + 1)
            },
        }
    }
}

/// The pieces of `s[j..]` as `str::splitn(n, pat)` gives them: split at the
/// first `n - 1` occurrences of `pat`, the last piece holding the rest.
pub open spec fn splitn_from(s: Seq<char>, pat: Seq<char>, n: nat, j: int) -> Seq<Seq<char>>
    decreases n,
{
    if n == 0 || j < 0 || j > s.len() {
        Seq::empty()
    } else if n == 1 {
        seq![s.subrange(j, s.len() as int)]
    } else {
        match find_seq(s, pat, j) {
            None => seq![s.subrange(j, s.len() as int)],
            Some(k) => seq![s.subrange(j, k)] + splitn_from(s, pat, (n - 1) as nat, k + pat.len()),
        }
    }
}

/// The number of characters at the start of `s` before the first whitespace.
pub open spec fn token_len(s: Seq<char>) -> nat
    decreases s.len(),
{
    if s.len() > 0 && !is_ws(s[0]) {
        1 + token_len(s.drop_first())
    } else {
        0
    }
}

/// The number of bytes of `c` in UTF-8 (`char::len_utf8`).
pub open spec fn utf8_width(c: char) -> nat {
    if (c as u32) < 0x80 {
        1
    } else if (c as u32) < 0x800 {
        2
    } else if (c as u32) < 0x10000 {
        3
    } else {
        4
    }
}

/// The number of characters of `s` whose UTF-8 encoding is `n` bytes long,
/// when `n` falls on a character boundary within `s`.
pub open spec fn chars_in_bytes(s: Seq<char>, n: int) -> Option<int>
    decreases s.len(),
{
    if n == 0 {
        Some(0)
    } else if n < 0 || s.len() == 0 || utf8_width(s[0]) > n {
        None
    } else {
        match chars_in_bytes(s.drop_first(), n - utf8_width(s[0])) {
            Some(k) => Some(k + 1),
            None => None,
        }
    }
}

/// `&s[..n]` for a byte count `n` on a character boundary.
pub open spec fn byte_prefix(s: Seq<char>, n: int) -> Seq<char> {
    match chars_in_bytes(s, n) {
        Some(k) => s.take(k),
        None => Seq::empty(),
    }
}

/// `str::contains` with a string pattern.
pub open spec fn contains_seq(s: Seq<char>, pat: Seq<char>) -> bool {
    exists|i: int| has_at(s, pat, i)
}

/// `str::starts_with`.
pub open spec fn starts_with(s: Seq<char>, pat: Seq<char>) -> bool {
    has_at(s, pat, 0)
}

/// `str::ends_with`.
pub open spec fn ends_with(s: Seq<char>, pat: Seq<char>) -> bool {
    has_at(s, pat, s.len() - pat.len())
}

/// `a < b` for strings: lexicographic order of the characters by code point,
/// which is the order of their UTF-8 bytes.
pub open spec fn lex_lt(a: Seq<char>, b: Seq<char>) -> bool
    decreases a.len(),
{
    if a.len() == 0 {
        b.len() > 0
    } else if b.len() == 0 {
        false
    } else if a[0] != b[0] {
        a[0] < b[0]
    } else {
        lex_lt(a.drop_first(), b.drop_first())
    }
}

/// `lex_lt` is transitive.
pub proof fn lemma_lex_lt_transitive(a: Seq<char>, b: Seq<char>, c: Seq<char>)
    requires
        lex_lt(a, b),
        lex_lt(b, c),
    ensures
        lex_lt(a, c),
    decreases a.len(),
{
    if a.len() > 0 && b.len() > 0 && c.len() > 0 && a[0] == b[0] && b[0] == c[0] {
        lemma_lex_lt_transitive(a.drop_first(), b.drop_first(), c.drop_first());
    }
}

/// `lex_lt` is asymmetric.
pub proof fn lemma_lex_lt_asymmetric(a: Seq<char>, b: Seq<char>)
    requires
        lex_lt(a, b),
    ensures
        !lex_lt(b, a),
    decreases a.len(),
{
    if a.len() > 0 && b.len() > 0 && a[0] == b[0] {
        lemma_lex_lt_asymmetric(a.drop_first(), b.drop_first());
    }
}

/// The characters of `s`, in order.
pub fn chars_of(s: &str) -> (v: Vec<char>)
    ensures
        v@ == s@,
{
    let mut v: Vec<char> = Vec::new();
    for c in it: s.chars()
        invariant
            v@ == it.seq().take(it.index() as int),
            it.seq() == s@,
    {
        v.push(c);
    }
    v
}

/// `String::push`: appends one character.
#[verifier::external_body]
pub fn push_char(s: &mut String, c: char)
    ensures
        final(s)@ == old(s)@.push(c),
{
    s.push(c);
}

/// `String::push_str`: appends the characters of `s`.
pub fn push_str(out: &mut String, s: &str)
    ensures
        final(out)@ == old(out)@ + s@,
{
    let v = chars_of(s);
    let mut i: usize = 0;
    let ghost start = out@;
    while i < v.len()
        invariant
            i <= v@.len(),
            v@ == s@,
            out@ == start + v@.take(i as int),
        decreases v@.len() - i,
    {
        push_char(out, v[i]);
        assert(v@.take(i + 1) == v@.take(i as int).push(v@[i as int]));
        i = i + 1;
    }
    assert(v@.take(v@.len() as int) == v@);
}

/// The view of an optional string slice.
pub open spec fn opt_view(s: Option<&str>) -> Option<Seq<char>> {
    match s {
        Some(x) => Some(x@),
        None => None,
    }
}

/// The views of some strings.
pub open spec fn strings_view(v: Seq<String>) -> Seq<Seq<char>> {
    v.map_values(|s: String| s@)
}

/// A string holding the characters of `v[start..end]`.
pub fn string_of_range(v: &[char], start: usize, end: usize) -> (s: String)
    requires
        start <= end <= v@.len(),
    ensures
        s@ == v@.subrange(start as int, end as int),
{
    let mut s = String::new();
    let mut i = start;
    while i < end
        invariant
            start <= i <= end <= v@.len(),
            s@ == v@.subrange(start as int, i as int),
        decreases end - i,
    {
        push_char(&mut s, v[i]);
        assert(v@.subrange(start as int, i + 1) == v@.subrange(start as int, i as int).push(v@[i as int]));
        i = i + 1;
    }
    s
}

/// A string holding the characters of `v`.
pub fn string_of(v: &[char]) -> (s: String)
    ensures
        s@ == v@,
{
    let s = string_of_range(v, 0, v.len());
    assert(v@.subrange(0, v@.len() as int) == v@);
    s
}

/// Whether `pat` occurs in `s` at index `i`.
pub fn is_at(s: &[char], pat: &[char], i: usize) -> (r: bool)
    ensures
        r == has_at(s@, pat@, i as int),
{
    let n = s.len();
    if i > n || pat.len() > n - i {
        return false;
    }
    let mut k: usize = 0;
    while k < pat.len()
        invariant
            n == s@.len(),
            i + pat@.len() <= n,
            k <= pat@.len(),
            forall|j: int| 0 <= j < k ==> s@[i + j] == pat@[j],
        decreases pat@.len() - k,
    {
        assert(i + k < s@.len());
        if s[i + k] != pat[k] {
            assert(s@.subrange(i as int, i + pat@.len())[k as int] != pat@[k as int]);
            return false;
        }
        k = k + 1;
    }
    assert(s@.subrange(i as int, i + pat@.len()) =~= pat@);
    true
}

/// The least index at or after `from` where `pat` occurs in `s`.
pub fn find_from(s: &[char], pat: &[char], from: usize) -> (r: Option<usize>)
    ensures
        match r {
            Some(i) => find_seq(s@, pat@, from as int) == Some(i as int) && from <= i && has_at(s@, pat@, i as int) && forall|j: int|
                from <= j < i ==> !has_at(s@, pat@, j),
            None => find_seq(s@, pat@, from as int) is None && forall|j: int|
                from <= j ==> !has_at(s@, pat@, j),
        },
{
    if pat.len() > s.len() {
        return None;
    }
    let last = s.len() - pat.len();
    let mut i = from;
    if i > last {
        return None;
    }
    loop
        invariant
            last == s@.len() - pat@.len(),
            from <= i <= last,
            forall|j: int| from <= j < i ==> !has_at(s@, pat@, j),
            find_seq(s@, pat@, from as int) == find_seq(s@, pat@, i as int),
        decreases last - i,
    {
        if is_at(s, pat, i) {
            return Some(i);
        }
        if i == last {
            assert(find_seq(s@, pat@, i + 1) == None::<int>);
            return None;
        }
        i = i + 1;
    }
}

/// Whether `pat` occurs anywhere in `s`.
pub fn contains(s: &[char], pat: &[char]) -> (r: bool)
    ensures
        r == contains_seq(s@, pat@),
{
    match find_from(s, pat, 0) {
        Some(i) => true,
        None => {
            assert forall|j: int| !has_at(s@, pat@, j) by {
                if j >= 0 {
                }
            }
            false
        },
    }
}

/// Whether `s` begins with `pat`.
pub fn has_prefix(s: &[char], pat: &[char]) -> (r: bool)
    ensures
        r == starts_with(s@, pat@),
{
    is_at(s, pat, 0)
}

/// Whether `s` ends with `pat`.
pub fn has_suffix(s: &[char], pat: &[char]) -> (r: bool)
    ensures
        r == ends_with(s@, pat@),
{
    if pat.len() > s.len() {
        return false;
    }
    is_at(s, pat, s.len() - pat.len())
}

/// Whether two character sequences are equal.
pub fn same_chars(a: &[char], b: &[char]) -> (r: bool)
    ensures
        r == (a@ == b@),
{
    if a.len() != b.len() {
        return false;
    }
    assert(a@.subrange(0, b@.len() as int) == a@);
    is_at(a, b, 0)
}

/// Whether two strings are equal.
pub fn str_eq(a: &str, b: &str) -> (r: bool)
    ensures
        r == (a@ == b@),
{
    let va = chars_of(a);
    let vb = chars_of(b);
    same_chars(va.as_slice(), vb.as_slice())
}

/// The bounds of `s` without its leading and trailing whitespace.
pub fn trim_bounds(s: &[char]) -> (r: (usize, usize))
    ensures
        r.0 <= r.1 <= s@.len(),
        s@.subrange(r.0 as int, r.1 as int) == trim(s@),
{
    let mut a: usize = 0;
    assert(s@.subrange(0, s@.len() as int) == s@);
    while a < s.len() && is_whitespace(s[a])
        invariant
            a <= s@.len(),
            trim_start(s@) == trim_start(s@.subrange(a as int, s@.len() as int)),
        decreases s@.len() - a,
    {
        assert(s@.subrange(a + 1, s@.len() as int) == s@.subrange(a as int, s@.len() as int).drop_first());
        a = a + 1;
    }
    assert(trim_start(s@) == s@.subrange(a as int, s@.len() as int));
    let mut b: usize = s.len();
    while b > a && is_whitespace(s[b - 1])
        invariant
            a <= b <= s@.len(),
            trim(s@) == trim_end(s@.subrange(a as int, b as int)),
        decreases b,
    {
        assert(s@.subrange(a as int, b - 1) == s@.subrange(a as int, b as int).drop_last());
        b = b - 1;
    }
    (a, b)
}

/// Whether `a < b` in the order of `str`.
pub fn is_less(a: &[char], b: &[char]) -> (r: bool)
    ensures
        r == lex_lt(a@, b@),
{
    let mut i: usize = 0;
    assert(a@.skip(0) == a@);
    assert(b@.skip(0) == b@);
    while i < a.len() && i < b.len()
        invariant
            i <= a@.len(),
            i <= b@.len(),
            a@.take(i as int) == b@.take(i as int),
            lex_lt(a@, b@) == lex_lt(a@.skip(i as int), b@.skip(i as int)),
        decreases a@.len() - i,
    {
        if a[i] != b[i] {
            return a[i] < b[i];
        }
        assert(a@.skip(i + 1) == a@.skip(i as int).drop_first());
        assert(b@.skip(i + 1) == b@.skip(i as int).drop_first());
        assert(a@.take(i + 1) == a@.take(i as int).push(a@[i as int]));
        assert(b@.take(i + 1) == b@.take(i as int).push(b@[i as int]));
        i = i + 1;
    }
    i == a.len() && i < b.len()
}

/// Whether `a < b` in the order of `str`.
pub fn str_less(a: &str, b: &str) -> (r: bool)
    ensures
        r == lex_lt(a@, b@),
{
    let va = chars_of(a);
    let vb = chars_of(b);
    is_less(va.as_slice(), vb.as_slice())
}

/// `char::len_utf8`.
pub fn width_utf8(c: char) -> (w: usize)
    ensures
        w == utf8_width(c),
{
    let u = c as u32;
    if u < 0x80 {
        1
    } else if u < 0x800 {
        2
    } else if u < 0x10000 {
        3
    } else {
        4
    }
}

/// The number of characters of `v` whose UTF-8 encoding is `n` bytes long,
/// when `n` falls on a character boundary within `v`.
pub fn chars_for_bytes(v: &[char], n: usize) -> (r: Option<usize>)
    ensures
        match r {
            Some(k) => chars_in_bytes(v@, n as int) == Some(k as int) && k <= v@.len(),
            None => chars_in_bytes(v@, n as int) is None,
        },
{
    let mut k: usize = 0;
    let mut left: usize = n;
    assert(v@.skip(0) == v@);
    while left > 0
        invariant
            k <= v@.len(),
            left <= n,
            chars_in_bytes(v@, n as int) == match chars_in_bytes(v@.skip(k as int), left as int) {
                Some(j) => Some(j + k),
                None => None::<int>,
            },
        decreases left,
    {
        if k == v.len() {
            return None;
        }
        let w = width_utf8(v[k]);
        if w > left {
            return None;
        }
        assert(v@.skip(k as int).drop_first() == v@.skip(k + 1));
        assert(v@.skip(k as int)[0] == v@[k as int]);
        k = k + 1;
        left = left - w;
    }
    Some(k)
}

/// The number of characters of `v[start..end]` before its first whitespace.
pub fn token_length(v: &[char], start: usize, end: usize) -> (r: usize)
    requires
        start <= end <= v@.len(),
    ensures
        r == token_len(v@.subrange(start as int, end as int)),
        r <= end - start,
{
    let mut i = start;
    let ghost t = v@.subrange(start as int, end as int);
    assert(t.skip(0) == t);
    while i < end && !is_whitespace(v[i])
        invariant
            start <= i <= end <= v@.len(),
            t == v@.subrange(start as int, end as int),
            token_len(t) == (i - start) + token_len(t.skip(i - start)),
        decreases end - i,
    {
        assert(t.skip(i - start).drop_first() == t.skip(i - start + 1));
        assert(t.skip(i - start)[0] == v@[i as int]);
        i = i + 1;
    }
    proof {
        if i < end {
            assert(t.skip(i - start)[0] == v@[i as int]);
        }
    }
    i - start
}

/// The characters `v[a..b]`.
pub fn sub_chars(v: &[char], a: usize, b: usize) -> (r: Vec<char>)
    requires
        a <= b <= v@.len(),
    ensures
        r@ == v@.subrange(a as int, b as int),
{
    let mut r: Vec<char> = Vec::new();
    let mut i = a;
    while i < b
        invariant
            a <= i <= b <= v@.len(),
            r@ == v@.subrange(a as int, i as int),
        decreases b - i,
    {
        r.push(v[i]);
        assert(v@.subrange(a as int, i + 1) == v@.subrange(a as int, i as int).push(v@[i as int]));
        i = i + 1;
    }
    r
}

/// The characters of `v` without leading and trailing whitespace.
pub fn trimmed(v: &[char]) -> (r: Vec<char>)
    ensures
        r@ == trim(v@),
{
    let (a, b) = trim_bounds(v);
    sub_chars(v, a, b)
}


/// The pieces of `v` as `str::splitn(n, pat)` gives them.
pub fn splitn_chars(v: &[char], pat: &[char], n: usize) -> (r: Vec<Vec<char>>)
    ensures
        r@.len() == splitn_from(v@, pat@, n as nat, 0).len(),
        forall|i: int| 0 <= i < r@.len() ==> #[trigger] r@[i]@ == splitn_from(v@, pat@, n as nat, 0)[i],
{
    let mut r: Vec<Vec<char>> = Vec::new();
    let ghost mut done: Seq<Seq<char>> = Seq::empty();
    let mut j: usize = 0;
    let mut left: usize = n;
    while left > 0
        invariant
            j <= v@.len(),
            r@.len() == done.len(),
            forall|i: int| 0 <= i < r@.len() ==> #[trigger] r@[i]@ == done[i],
            splitn_from(v@, pat@, n as nat, 0) == done + splitn_from(v@, pat@, left as nat, j as int),
        decreases left,
    {
        let found = if left == 1 {
            None
        } else {
            find_from(v, pat, j)
        };
        match found {
            None => {
                let piece = sub_chars(v, j, v.len());
                proof {
                    done = done.push(piece@);
                }
                r.push(piece);
                assert(splitn_from(v@, pat@, 0, j as int) =~= Seq::<Seq<char>>::empty());
                left = 0;
            },
            Some(k) => {
                let piece = sub_chars(v, j, k);
                proof {
                    assert(splitn_from(v@, pat@, left as nat, j as int) == seq![piece@] + splitn_from(
                        v@,
                        pat@,
                        (left - 1) as nat,
                        k + pat@.len(),
                    ));
                    assert(done + (seq![piece@] + splitn_from(v@, pat@, (left - 1) as nat, k + pat@.len()))
                        =~= done.push(piece@) + splitn_from(v@, pat@, (left - 1) as nat, k + pat@.len()));
                    done = done.push(piece@);
                }
                r.push(piece);
                let vlen = v.len();
                assert(k + pat@.len() <= vlen);
                j = k + pat.len();
                left = left - 1;
            },
        }
    }
    assert(done + splitn_from(v@, pat@, 0, j as int) =~= done);
    r
}

/// The characters of `v` without its leading and trailing characters `c`.
pub fn trimmed_char(v: &[char], c: char) -> (r: Vec<char>)
    ensures
        r@ == trim_char(v@, c),
{
    let n = v.len();
    let mut a: usize = 0;
    assert(v@.subrange(0, n as int) == v@);
    while a < n && v[a] == c
        invariant
            a <= n == v@.len(),
            trim_start_char(v@, c) == trim_start_char(v@.subrange(a as int, n as int), c),
        decreases n - a,
    {
        assert(v@.subrange(a + 1, n as int) == v@.subrange(a as int, n as int).drop_first());
        a = a + 1;
    }
    let mut b: usize = n;
    while b > a && v[b - 1] == c
        invariant
            a <= b <= n == v@.len(),
            trim_char(v@, c) == trim_end_char(v@.subrange(a as int, b as int), c),
        decreases b,
    {
        assert(v@.subrange(a as int, b - 1) == v@.subrange(a as int, b as int).drop_last());
        b = b - 1;
    }
    sub_chars(v, a, b)
}

/// The line of `v` that starts at `p`, as `str::lines` gives it, and where
/// the next line starts.
pub fn next_line(v: &[char], p: usize) -> (r: (Vec<char>, usize))
    requires
        p < v@.len(),
    ensures
        p < r.1 <= v@.len(),
        lines_from(v@, p as int).len() > 0,
        lines_from(v@, p as int)[0] == r.0@,
        lines_from(v@, p as int).drop_first() == lines_from(v@, r.1 as int),
{
    proof {
        lemma_find_seq(v@, seq!['\n'], p as int);
    }
    let nl = ['\n'];
    assert(nl@ == seq!['\n']);
    match find_from(v, nl.as_slice(), p) {
        Some(k) => {
            let vlen = v.len();
            assert(k + 1 <= vlen);
            let line = sub_chars(v, p, k);
            let n = line.len();
            if n > 0 && line[n - 1] == '\r' {
                let t = sub_chars(line.as_slice(), 0, n - 1);
                assert(t@ =~= line@.drop_last());
                (t, k + 1)
            } else {
                (line, k + 1)
            }
        },
        None => (sub_chars(v, p, v.len()), v.len()),
    }
}

/// Trimming leading whitespace leaves a text that starts with no whitespace.
pub proof fn lemma_trim_start_shape(s: Seq<char>)
    ensures
        trim_start(s).len() > 0 ==> !is_ws(trim_start(s)[0]),
    decreases s.len(),
{
    if s.len() > 0 && is_ws(s[0]) {
        lemma_trim_start_shape(s.drop_first());
    }
}
/// Trimming trailing whitespace leaves a prefix that ends with no whitespace.
pub proof fn lemma_trim_end_shape(s: Seq<char>)
    ensures
        trim_end(s).len() <= s.len(),
        trim_end(s) == s.take(trim_end(s).len() as int),
        trim_end(s).len() > 0 ==> !is_ws(trim_end(s).last()),
    decreases s.len(),
{
    if s.len() > 0 && is_ws(s.last()) {
        lemma_trim_end_shape(s.drop_last());
        assert(s.drop_last().take(trim_end(s).len() as int) == s.take(trim_end(s).len() as int));
    } else {
        assert(s.take(s.len() as int) == s);
    }
}
/// Trimming leading `c` leaves a suffix that does not start with `c`.
pub proof fn lemma_trim_start_char_shape(s: Seq<char>, c: char)
    ensures
        exists|a: int| 0 <= a <= s.len() && trim_start_char(s, c) == s.skip(a),
        trim_start_char(s, c).len() > 0 ==> trim_start_char(s, c)[0] != c,
    decreases s.len(),
{
    if s.len() > 0 && s[0] == c {
        lemma_trim_start_char_shape(s.drop_first(), c);
        let a = choose|a: int| 0 <= a <= s.drop_first().len() && trim_start_char(s.drop_first(), c)
            == s.drop_first().skip(a);
        assert(s.drop_first().skip(a) == s.skip(a + 1));
    } else {
        assert(s.skip(0) == s);
    }
}
/// Trimming trailing `c` leaves a prefix that does not end with `c`.
pub proof fn lemma_trim_end_char_shape(s: Seq<char>, c: char)
    ensures
        exists|b: int| 0 <= b <= s.len() && trim_end_char(s, c) == s.take(b),
        trim_end_char(s, c).len() > 0 ==> trim_end_char(s, c).last() != c,
    decreases s.len(),
{
    if s.len() > 0 && s.last() == c {
        lemma_trim_end_char_shape(s.drop_last(), c);
        let b = choose|b: int| 0 <= b <= s.drop_last().len() && trim_end_char(s.drop_last(), c)
            == s.drop_last().take(b);
        assert(s.drop_last().take(b) == s.take(b));
    } else {
        assert(s.take(s.len() as int) == s);
    }
}

} // verus!
