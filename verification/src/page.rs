//! The report page: escaping for HTML and for a script block, the page
//! assembled from its template, and the command-line values read into the
//! settings.
use vstd::prelude::*;
use crate::commit::lowercase_of;
use crate::text::{lemma_trim_end_shape, lemma_trim_start_shape};
use crate::number::{parse_usize, parse_usize_result, IntErrorKind};
use crate::text::{
    ascii_lower, chars_of, find_from, find_seq, is_ws, lemma_find_seq, lower_seq, push_char,
    push_str, split_from, string_of, string_of_range, strings_view, sub_chars, trim, trim_end,
    trim_start, trimmed,
};

verus! {

/// What `c` becomes in HTML text: `&`, `<`, `>` and `"` as entities.
pub open spec fn html_char(c: char) -> Seq<char> {
    if c == '&' {
        "&amp;"@
    } else if c == '<' {
        "&lt;"@
    } else if c == '>' {
        "&gt;"@
    } else if c == '"' {
        "&quot;"@
    } else {
        seq![c]
    }
}

/// What `c` becomes in JSON placed inside a `<script>` block: `<`, `>`, `&`
/// and the line and paragraph separators as `\uXXXX` escapes.
pub open spec fn script_char(c: char) -> Seq<char> {
    if c == '<' {
        "\\u003c"@
    } else if c == '>' {
        "\\u003e"@
    } else if c == '&' {
        "\\u0026"@
    } else if c == '\u{2028}' {
        "\\u2028"@
    } else if c == '\u{2029}' {
        "\\u2029"@
    } else {
        seq![c]
    }
}

/// `s` with each character replaced as [`html_char`] says.
pub open spec fn spec_escape_html(s: Seq<char>) -> Seq<char>
    decreases s.len(),
{
    if s.len() == 0 {
        Seq::empty()
    } else {
        spec_escape_html(s.drop_last()) + html_char(s.last())
    }
}

/// `s` with each character replaced as [`script_char`] says.
pub open spec fn spec_escape_script(s: Seq<char>) -> Seq<char>
    decreases s.len(),
{
    if s.len() == 0 {
        Seq::empty()
    } else {
        spec_escape_script(s.drop_last()) + script_char(s.last())
    }
}

/// No character of `s` is `c`.
pub open spec fn free_of(s: Seq<char>, c: char) -> bool {
    forall|i: int| 0 <= i < s.len() ==> s[i] != c
}

/// The escaped text holds no `<`, `>` or `"`: it can neither open nor
/// close a tag, nor end an attribute value.
pub proof fn lemma_escape_html_safe(s: Seq<char>)
    ensures
        free_of(spec_escape_html(s), '<'),
        free_of(spec_escape_html(s), '>'),
        free_of(spec_escape_html(s), '"'),
    decreases s.len(),
{
    reveal_strlit("&amp;");
    reveal_strlit("&lt;");
    reveal_strlit("&gt;");
    reveal_strlit("&quot;");
    if s.len() > 0 {
        lemma_escape_html_safe(s.drop_last());
        let a = spec_escape_html(s.drop_last());
        let b = html_char(s.last());
        assert forall|i: int| 0 <= i < a.len() + b.len() implies (a + b)[i] != '<' && (a + b)[i] != '>'
            && (a + b)[i] != '"' by {
            if i >= a.len() {
                assert((a + b)[i] == b[i - a.len()]);
            }
        }
    }
}

/// The escaped JSON holds no `<`, `>`, `&`, U+2028 or U+2029: it can
/// neither close the script block nor break a JavaScript line.
pub proof fn lemma_escape_script_safe(s: Seq<char>)
    ensures
        free_of(spec_escape_script(s), '<'),
        free_of(spec_escape_script(s), '>'),
        free_of(spec_escape_script(s), '&'),
        free_of(spec_escape_script(s), '\u{2028}'),
        free_of(spec_escape_script(s), '\u{2029}'),
    decreases s.len(),
{
    reveal_strlit("\\u003c");
    reveal_strlit("\\u003e");
    reveal_strlit("\\u0026");
    reveal_strlit("\\u2028");
    reveal_strlit("\\u2029");
    if s.len() > 0 {
        lemma_escape_script_safe(s.drop_last());
        let a = spec_escape_script(s.drop_last());
        let b = script_char(s.last());
        assert forall|i: int| 0 <= i < a.len() + b.len() implies (a + b)[i] != '<' && (a + b)[i] != '>'
            && (a + b)[i] != '&' && (a + b)[i] != '\u{2028}' && (a + b)[i] != '\u{2029}' by {
            if i >= a.len() {
                assert((a + b)[i] == b[i - a.len()]);
            }
        }
    }
}

/// Escapes text for HTML: `&` as `&amp;`, `<` as `&lt;`, `>` as `&gt;` and
/// `"` as `&quot;`, the rest unchanged.
pub fn escape_html(text: &str) -> (r: String)
    ensures
        r@ == spec_escape_html(text@),
{
    let v = chars_of(text);
    let mut r = String::new();
    let mut i: usize = 0;
    while i < v.len()
        invariant
            i <= v@.len(),
            r@ == spec_escape_html(v@.take(i as int)),
        decreases v@.len() - i,
    {
        let c = v[i];
        assert(v@.take(i + 1).drop_last() == v@.take(i as int));
        if c == '&' {
            push_str(&mut r, "&amp;");
        } else if c == '<' {
            push_str(&mut r, "&lt;");
        } else if c == '>' {
            push_str(&mut r, "&gt;");
        } else if c == '"' {
            push_str(&mut r, "&quot;");
        } else {
            push_char(&mut r, c);
        }
        i = i + 1;
    }
    assert(v@.take(v@.len() as int) == v@);
    r
}

/// Escapes JSON for a `<script>` block: `<`, `>` and `&` as `\u003c`,
/// `\u003e` and `\u0026`, and U+2028 and U+2029 as `\u2028` and `\u2029`,
/// so that the text can neither close the block nor end a JavaScript line.
pub fn escape_json_for_html_script(json: &str) -> (r: String)
    ensures
        r@ == spec_escape_script(json@),
{
    let v = chars_of(json);
    let mut r = String::new();
    let mut i: usize = 0;
    while i < v.len()
        invariant
            i <= v@.len(),
            r@ == spec_escape_script(v@.take(i as int)),
        decreases v@.len() - i,
    {
        let c = v[i];
        assert(v@.take(i + 1).drop_last() == v@.take(i as int));
        if c == '<' {
            push_str(&mut r, "\\u003c");
        } else if c == '>' {
            push_str(&mut r, "\\u003e");
        } else if c == '&' {
            push_str(&mut r, "\\u0026");
        } else if c == '\u{2028}' {
            push_str(&mut r, "\\u2028");
        } else if c == '\u{2029}' {
            push_str(&mut r, "\\u2029");
        } else {
            push_char(&mut r, c);
        }
        i = i + 1;
    }
    assert(v@.take(v@.len() as int) == v@);
    r
}

/// `s[j..]` with every occurrence of the non-empty `pat` replaced by `to`,
/// left to right, as `str::replace` does.
pub open spec fn replace_from(s: Seq<char>, pat: Seq<char>, to: Seq<char>, j: int) -> Seq<char>
    decreases s.len() - j,
{
    if j < 0 || j > s.len() || pat.len() == 0 {
        Seq::empty()
    } else {
        match find_seq(s, pat, j) {
            None => s.subrange(j, s.len() as int),
            Some(k) => {
                proof {
                    lemma_find_seq(s, pat, j);
                }
                s.subrange(j, k) + to + replace_from(s, pat, to, k + pat.len())
            },
        }
    }
}

/// `str::replace` with a non-empty pattern.
pub open spec fn replace_all(s: Seq<char>, pat: Seq<char>, to: Seq<char>) -> Seq<char> {
    replace_from(s, pat, to, 0)
}

/// `s` with every occurrence of `pat` replaced by `to`.
pub fn replace_text(s: &str, pat: &str, to: &str) -> (r: String)
    requires
        pat@.len() > 0,
    ensures
        r@ == replace_all(s@, pat@, to@),
{
    let v = chars_of(s);
    let pv = chars_of(pat);
    let n = v.len();
    let mut r = String::new();
    let mut j: usize = 0;
    let ghost want = replace_all(s@, pat@, to@);
    loop
        invariant
            n == v@.len(),
            v@ == s@,
            pv@ == pat@,
            pat@.len() > 0,
            j <= n,
            want == replace_all(s@, pat@, to@),
            want == r@ + replace_from(v@, pv@, to@, j as int),
        decreases n - j,
    {
        proof {
            lemma_find_seq(v@, pv@, j as int);
        }
        match find_from(v.as_slice(), pv.as_slice(), j) {
            None => {
                let rest = string_of_range(v.as_slice(), j, n);
                push_str(&mut r, rest.as_str());
                assert(want == r@);
                return r;
            },
            Some(k) => {
                let piece = string_of_range(v.as_slice(), j, k);
                let ghost before = r@;
                push_str(&mut r, piece.as_str());
                push_str(&mut r, to);
                assert(k + pv@.len() <= n);
                assert(before + (v@.subrange(j as int, k as int) + to@ + replace_from(
                    v@,
                    pv@,
                    to@,
                    k + pv@.len(),
                )) =~= r@ + replace_from(v@, pv@, to@, k + pv@.len()));
                j = k + pv.len();
            },
        }
    }
}

/// The page: the template with `__PAGE_TITLE__` replaced by the escaped
/// title and `"__SHOWCASE_DATA__"` (with its quotes) replaced by the JSON
/// escaped for a script block.
pub open spec fn spec_render_page(template: Seq<char>, title: Seq<char>, json: Seq<char>) -> Seq<char> {
    replace_all(
        replace_all(template, "__PAGE_TITLE__"@, spec_escape_html(title)),
        "\"__SHOWCASE_DATA__\""@,
        spec_escape_script(json),
    )
}

/// Fills the page template with the report's title and data.
pub fn render_page(template: &str, title: &str, json: &str) -> (r: String)
    ensures
        r@ == spec_render_page(template@, title@, json@),
{
    let marker = "__PAGE_TITLE__";
    let data_marker = "\"__SHOWCASE_DATA__\"";
    proof {
        reveal_strlit("__PAGE_TITLE__");
        reveal_strlit("\"__SHOWCASE_DATA__\"");
    }
    let t = escape_html(title);
    let page = replace_text(template, marker, t.as_str());
    let data = escape_json_for_html_script(json);
    replace_text(page.as_str(), data_marker, data.as_str())
}

/// One item of a comma-separated list: trimmed, and made lower case where
/// asked.
pub open spec fn csv_item(p: Seq<char>, lowercase: bool) -> Seq<char> {
    if lowercase {
        lower_seq(trim(p))
    } else {
        trim(p)
    }
}

/// The non-empty items of the pieces, in order.
pub open spec fn csv_items(parts: Seq<Seq<char>>, lowercase: bool) -> Seq<Seq<char>>
    decreases parts.len(),
{
    if parts.len() == 0 {
        Seq::empty()
    } else {
        let x = csv_item(parts[0], lowercase);
        (if x.len() > 0 {
            seq![x]
        } else {
            Seq::empty()
        }) + csv_items(parts.drop_first(), lowercase)
    }
}

/// The items of a comma-separated list: split at commas, each trimmed and
/// (where asked) made lower case, the empty ones dropped.
pub open spec fn spec_csv_list(input: Seq<char>, lowercase: bool) -> Seq<Seq<char>> {
    csv_items(split_from(input, ',', 0), lowercase)
}

/// An item as the list gives it: not empty, with no whitespace at either
/// end, and with no capital ASCII letter where lower case was asked.
pub open spec fn clean_item(x: Seq<char>, lowercase: bool) -> bool {
    &&& x.len() > 0
    &&& !is_ws(x[0])
    &&& !is_ws(x.last())
    &&& lowercase ==> forall|j: int| 0 <= j < x.len() ==> !('A' <= #[trigger] x[j] && x[j] <= 'Z')
}



proof fn lemma_csv_item_clean(p: Seq<char>, lowercase: bool)
    ensures
        csv_item(p, lowercase).len() > 0 ==> clean_item(csv_item(p, lowercase), lowercase),
{
    let q = trim_start(p);
    lemma_trim_start_shape(p);
    lemma_trim_end_shape(q);
    let t = trim(p);
    if t.len() > 0 {
        assert(t[0] == q[0]);
        if lowercase {
            let x = lower_seq(t);
            assert(x[0] == ascii_lower(t[0]));
            assert(x.last() == ascii_lower(t.last()));
            assert forall|j: int| 0 <= j < x.len() implies !('A' <= #[trigger] x[j] && x[j] <= 'Z') by {
                let c = t[j];
                if 'A' <= c && c <= 'Z' {
                    assert(('a' as u32) <= (c as u32) + 32 <= ('z' as u32));
                }
            }
        }
    }
}

proof fn lemma_csv_items_clean(parts: Seq<Seq<char>>, lowercase: bool)
    ensures
        forall|i: int|
            0 <= i < csv_items(parts, lowercase).len() ==> clean_item(
                #[trigger] csv_items(parts, lowercase)[i],
                lowercase,
            ),
    decreases parts.len(),
{
    if parts.len() > 0 {
        lemma_csv_items_clean(parts.drop_first(), lowercase);
        lemma_csv_item_clean(parts[0], lowercase);
        let x = csv_item(parts[0], lowercase);
        let head: Seq<Seq<char>> = if x.len() > 0 {
            seq![x]
        } else {
            Seq::empty()
        };
        let tail = csv_items(parts.drop_first(), lowercase);
        assert forall|i: int| 0 <= i < (head + tail).len() implies clean_item(
            #[trigger] (head + tail)[i],
            lowercase,
        ) by {
            if i >= head.len() {
                assert((head + tail)[i] == tail[i - head.len()]);
            }
        }
    }
}

/// Every item of a comma-separated list is non-empty, has no whitespace
/// at either end, and holds no capital ASCII letter where lower case was
/// asked.
pub proof fn lemma_csv_list_clean(input: Seq<char>, lowercase: bool)
    ensures
        forall|i: int|
            0 <= i < spec_csv_list(input, lowercase).len() ==> clean_item(
                #[trigger] spec_csv_list(input, lowercase)[i],
                lowercase,
            ),
{
    lemma_csv_items_clean(split_from(input, ',', 0), lowercase);
}

/// Reads a comma-separated list into its trimmed, non-empty items, made
/// lower case where asked.
pub fn parse_csv_list(input: &str, lowercase: bool) -> (r: Vec<String>)
    ensures
        strings_view(r@) == spec_csv_list(input@, lowercase),
{
    let v = chars_of(input);
    let n = v.len();
    let comma = [','];
    assert(comma@ == seq![',']);
    let mut r: Vec<String> = Vec::new();
    let mut p: usize = 0;
    let ghost want = spec_csv_list(input@, lowercase);
    assert(strings_view(r@) =~= Seq::<Seq<char>>::empty());
    loop
        invariant
            n == v@.len(),
            v@ == input@,
            p <= n,
            comma@ == seq![','],
            want == spec_csv_list(input@, lowercase),
            want == strings_view(r@) + csv_items(split_from(v@, ',', p as int), lowercase),
        decreases n - p,
    {
        proof {
            lemma_find_seq(v@, seq![','], p as int);
        }
        let found = find_from(v.as_slice(), comma.as_slice(), p);
        let end = match found {
            Some(k) => k,
            None => n,
        };
        let piece = sub_chars(v.as_slice(), p, end);
        let t = trimmed(piece.as_slice());
        let item = if lowercase {
            lowercase_of(t.as_slice(), t.len())
        } else {
            string_of(t.as_slice())
        };
        assert(t@.take(t@.len() as int) == t@);
        let ghost parts = split_from(v@, ',', p as int);
        assert(parts[0] == piece@);
        assert(item@ == csv_item(parts[0], lowercase));
        let ghost before = strings_view(r@);
        if t.len() > 0 {
            r.push(item);
            assert(strings_view(r@) =~= before.push(item@));
        }
        assert(strings_view(r@) + csv_items(parts.drop_first(), lowercase) =~= before + csv_items(
            parts,
            lowercase,
        ));
        match found {
            Some(k) => {
                assert(parts.drop_first() == split_from(v@, ',', k + 1));
                p = k + 1;
            },
            None => {
                assert(parts.drop_first() =~= Seq::<Seq<char>>::empty());
                assert(strings_view(r@) + csv_items(parts.drop_first(), lowercase) =~= strings_view(r@));
                return r;
            },
        }
    }
}

/// The message `std::num::ParseIntError` shows for each kind of error.
pub open spec fn int_error_message(k: IntErrorKind) -> Seq<char> {
    match k {
        IntErrorKind::Empty => "cannot parse integer from empty string"@,
        IntErrorKind::InvalidDigit => "invalid digit found in string"@,
        IntErrorKind::PosOverflow => "number too large to fit in target type"@,
    }
}

/// Reads a count of at least one, as the `--timeline-max-buckets` option
/// takes it: the parse error's message, or `value must be ≥ 1` for zero.
pub fn parse_positive_usize(s: &str) -> (r: Result<usize, String>)
    ensures
        match parse_usize_result(s@) {
            Ok(v) => if v >= 1 {
                r == Ok::<usize, String>(v as usize)
            } else {
                r matches Err(m) && m@ == "value must be ≥ 1"@
            },
            Err(k) => r matches Err(m) && m@ == int_error_message(k),
        },
{
    let v = chars_of(s);
    match parse_usize(v.as_slice()) {
        Ok(x) => if x < 1 {
            Err("value must be ≥ 1".to_string())
        } else {
            Ok(x)
        },
        Err(k) => Err(
            match k {
                IntErrorKind::Empty => "cannot parse integer from empty string".to_string(),
                IntErrorKind::InvalidDigit => "invalid digit found in string".to_string(),
                IntErrorKind::PosOverflow => "number too large to fit in target type".to_string(),
            },
        ),
    }
}

} // verus!
