//! Reading `git log`: the command line that asks for the commits, and the
//! commits read back from its output.
use vstd::prelude::*;
use crate::commit::{commit_kind, spec_commit_kind};
use crate::model::{CommitEntry, CommitRecord};
use crate::number::{decimal, lemma_decimal_reads_back, parse_usize_range, spec_parse_usize};
use crate::text::{
    byte_prefix, chars_for_bytes, chars_in_bytes, chars_of, contains, contains_seq, ends_with,
    find_from, has_prefix, lemma_find_seq, lines, lines_from, next_line, opt_view, push_str,
    split_from, splitn_chars, splitn_from, starts_with, string_of, string_of_range, strings_view,
    find_seq, has_at, is_digit, is_ws, sub_chars, token_len, token_length, trim, trim_end,
    trim_start, trimmed,
};

verus! {

/// The number a `--shortstat` part starts with, as `str::parse::<usize>`
/// reads it; 0 where it reads none.
pub open spec fn stat_value(p: Seq<char>) -> nat {
    match spec_parse_usize(p.take(token_len(p) as int)) {
        Some(v) => v,
        None => 0,
    }
}

/// One trimmed part of a `--shortstat` line, read into the insertions and
/// deletions so far: a part that mentions `insertion` sets the insertions,
/// one that mentions `deletion` the deletions.
pub open spec fn apply_stat_part(p: Seq<char>, acc: (nat, nat)) -> (nat, nat) {
    if contains_seq(p, "insertion"@) {
        if p.len() > 0 {
            (stat_value(p), acc.1)
        } else {
            acc
        }
    } else if contains_seq(p, "deletion"@) && p.len() > 0 {
        (acc.0, stat_value(p))
    } else {
        acc
    }
}

/// The parts, each trimmed, read in order.
pub open spec fn stat_fold(parts: Seq<Seq<char>>, acc: (nat, nat)) -> (nat, nat)
    decreases parts.len(),
{
    if parts.len() == 0 {
        acc
    } else {
        stat_fold(parts.drop_first(), apply_stat_part(trim(parts[0]), acc))
    }
}

/// The insertions and deletions of a `--shortstat` line such as
/// `2 files changed, 10 insertions(+), 3 deletions(-)`: the line is trimmed,
/// split at commas, and each part read; (0, 0) for a blank line.
pub open spec fn spec_parse_shortstat(line: Seq<char>) -> (nat, nat) {
    let t = trim(line);
    if t.len() == 0 {
        (0, 0)
    } else {
        stat_fold(split_from(t, ',', 0), (0, 0))
    }
}

/// The number a trimmed part starts with, or 0.
fn part_value(p: &Vec<char>) -> (r: usize)
    ensures
        r == stat_value(p@),
{
    let n = token_length(p.as_slice(), 0, p.len());
    assert(p@.subrange(0, p@.len() as int) == p@);
    assert(p@.subrange(0, n as int) == p@.take(n as int));
    match parse_usize_range(p.as_slice(), 0, n) {
        Ok(v) => v,
        Err(_) => 0,
    }
}

/// The insertions and deletions of a `--shortstat` line.
pub fn parse_shortstat(line: &str) -> (r: (usize, usize))
    ensures
        (r.0 as nat, r.1 as nat) == spec_parse_shortstat(line@),
{
    let v = chars_of(line);
    let t = trimmed(v.as_slice());
    if t.len() == 0 {
        return (0, 0);
    }
    let insertion = chars_of("insertion");
    let deletion = chars_of("deletion");
    let comma = [','];
    assert(comma@ == seq![',']);
    let ghost want = stat_fold(split_from(t@, ',', 0), (0, 0));
    let mut ins: usize = 0;
    let mut del: usize = 0;
    let mut p: usize = 0;
    let n = t.len();
    loop
        invariant
            n == t@.len(),
            t@ == trim(line@),
            t@.len() > 0,
            want == spec_parse_shortstat(line@),
            p <= t@.len(),
            insertion@ == "insertion"@,
            deletion@ == "deletion"@,
            comma@ == seq![','],
            want == stat_fold(split_from(t@, ',', p as int), (ins as nat, del as nat)),
        decreases t@.len() - p,
    {
        proof {
            lemma_find_seq(t@, seq![','], p as int);
        }
        let found = find_from(t.as_slice(), comma.as_slice(), p);
        let end = match found {
            Some(k) => k,
            None => t.len(),
        };
        let piece = sub_chars(t.as_slice(), p, end);
        let part = trimmed(piece.as_slice());
        let ghost parts = split_from(t@, ',', p as int);
        assert(parts[0] == piece@);
        assert(parts.len() > 0);
        assert(stat_fold(parts, (ins as nat, del as nat)) == stat_fold(
            parts.drop_first(),
            apply_stat_part(part@, (ins as nat, del as nat)),
        ));
        let ghost acc = apply_stat_part(part@, (ins as nat, del as nat));
        if contains(part.as_slice(), insertion.as_slice()) {
            if part.len() > 0 {
                ins = part_value(&part);
            }
        } else if contains(part.as_slice(), deletion.as_slice()) && part.len() > 0 {
            del = part_value(&part);
        }
        assert(acc == (ins as nat, del as nat));
        match found {
            Some(k) => {
                assert(parts.drop_first() == split_from(t@, ',', k + 1));
                p = k + 1;
            },
            None => {
                assert(parts.drop_first() =~= Seq::<Seq<char>>::empty());
                assert(stat_fold(parts.drop_first(), acc) == acc);
                return (ins, del);
            },
        }
    }
}


/// A `--shortstat` line as git writes it for changed lines both ways.
pub open spec fn stat_line(files: nat, ins: nat, del: nat) -> Seq<char> {
    decimal(files) + " files changed, "@ + decimal(ins) + " insertions(+), "@ + decimal(del)
        + " deletions(-)"@
}

/// A `--shortstat` line for inserted lines only.
pub open spec fn stat_line_insertions(files: nat, ins: nat) -> Seq<char> {
    decimal(files) + " files changed, "@ + decimal(ins) + " insertions(+)"@
}

/// A `--shortstat` line for one file with deleted lines only.
pub open spec fn stat_line_deletions(files: nat, del: nat) -> Seq<char> {
    decimal(files) + " file changed, "@ + decimal(del) + " deletions(-)"@
}

proof fn lemma_find_char_at(s: Seq<char>, c: char, j: int, k: int)
    requires
        0 <= j <= k < s.len(),
        s[k] == c,
        forall|i: int| j <= i < k ==> s[i] != c,
    ensures
        find_seq(s, seq![c], j) == Some(k),
    decreases k - j,
{
    if s[j] == c {
        assert(s.subrange(j, j + 1) =~= seq![c]);
    } else {
        assert(s.subrange(j, j + 1)[0] == s[j]);
        lemma_find_char_at(s, c, j + 1, k);
    }
}

proof fn lemma_find_char_none(s: Seq<char>, c: char, j: int)
    requires
        0 <= j <= s.len(),
        forall|i: int| j <= i < s.len() ==> s[i] != c,
    ensures
        find_seq(s, seq![c], j) is None,
    decreases s.len() - j,
{
    if j < s.len() {
        assert(s.subrange(j, j + 1)[0] == s[j]);
        lemma_find_char_none(s, c, j + 1);
    }
}

/// `x` holds no `,`.
spec fn comma_free(x: Seq<char>) -> bool {
    forall|i: int| 0 <= i < x.len() ==> #[trigger] x[i] != ','
}

/// Splitting `a , rest` at commas gives `a`, then the pieces of `rest`.
proof fn lemma_split_first(s: Seq<char>, j: int, a: Seq<char>)
    requires
        0 <= j,
        j + a.len() < s.len(),
        s.subrange(j, j + a.len()) == a,
        comma_free(a),
        s[j + a.len()] == ',',
    ensures
        split_from(s, ',', j) == seq![a] + split_from(s, ',', j + a.len() + 1),
{
    assert forall|i: int| j <= i < j + a.len() implies s[i] != ',' by {
        assert(s[i] == a[i - j]);
    }
    lemma_find_char_at(s, ',', j, j + a.len());
}

/// Splitting a last piece with no comma gives it alone.
proof fn lemma_split_last(s: Seq<char>, j: int)
    requires
        0 <= j <= s.len(),
        comma_free(s.subrange(j, s.len() as int)),
    ensures
        split_from(s, ',', j) == seq![s.subrange(j, s.len() as int)],
{
    assert forall|i: int| j <= i < s.len() implies s[i] != ',' by {
        assert(s[i] == s.subrange(j, s.len() as int)[i - j]);
    }
    lemma_find_char_none(s, ',', j);
}

/// `x` followed by `lit`, with `x` digits only and not empty, as far as
/// trimming, reading the leading number and searching go.
proof fn lemma_number_then_text(n: nat, lit: Seq<char>, pat: Seq<char>)
    requires
        lit.len() > 0,
        is_ws(lit[0]),
        !is_ws(lit.last()),
        pat.len() > 0,
        !is_digit(pat[0]),
        !contains_seq(lit, pat),
    ensures
        trim(decimal(n) + lit) == decimal(n) + lit,
        trim(seq![' '] + decimal(n) + lit) == decimal(n) + lit,
        n <= usize::MAX ==> stat_value(decimal(n) + lit) == n,
        !contains_seq(decimal(n) + lit, pat),
        comma_free(decimal(n)),
{
    lemma_decimal_reads_back(n);
    let x = decimal(n);
    let t = x + lit;
    assert(!is_ws(t[0]));
    assert(t.last() == lit.last());
    assert(trim_start(t) == t);
    assert(trim_end(t) == t);
    let u = seq![' '] + x + lit;
    assert(u.drop_first() == t);
    assert(trim_start(u) == trim_start(t));
    assert forall|i: int| 0 <= i < x.len() implies #[trigger] x[i] != ',' by {
        assert(is_digit(x[i]));
    }
    lemma_token_len(x, lit);
    assert(t.take(x.len() as int) == x);
    assert forall|i: int| !has_at(t, pat, i) by {
        if has_at(t, pat, i) {
            if i < x.len() {
                assert(t.subrange(i, i + pat.len())[0] == t[i]);
                assert(is_digit(x[i]));
            } else {
                let o = i - x.len();
                assert(lit.subrange(o, o + pat.len()) =~= t.subrange(i, i + pat.len()));
                assert(has_at(lit, pat, o));
            }
        }
    }
}

proof fn lemma_token_len(x: Seq<char>, y: Seq<char>)
    requires
        forall|i: int| 0 <= i < x.len() ==> !is_ws(#[trigger] x[i]),
        y.len() > 0,
        is_ws(y[0]),
    ensures
        token_len(x + y) == x.len(),
    decreases x.len(),
{
    if x.len() > 0 {
        assert((x + y).drop_first() == x.drop_first() + y);
        assert forall|i: int| 0 <= i < x.drop_first().len() implies !is_ws(#[trigger] x.drop_first()[i]) by {
            assert(x.drop_first()[i] == x[i + 1]);
        }
        lemma_token_len(x.drop_first(), y);
        assert((x + y)[0] == x[0]);
    } else {
        assert(x + y == y);
    }
}

/// `pat` does not occur in `lit`: for a text whose every occurrence of
/// `pat[0]` is followed by something other than `pat[1]`.
proof fn lemma_no_pair(lit: Seq<char>, pat: Seq<char>)
    requires
        pat.len() >= 2,
        forall|i: int| 0 <= i && i + 1 < lit.len() ==> !(#[trigger] lit[i] == pat[0] && lit[i + 1] == pat[1]),
    ensures
        !contains_seq(lit, pat),
{
    assert forall|i: int| !has_at(lit, pat, i) by {
        if has_at(lit, pat, i) {
            assert(lit.subrange(i, i + pat.len())[0] == lit[i]);
            assert(lit.subrange(i, i + pat.len())[1] == lit[i + 1]);
        }
    }
}

/// Reading a part `n` followed by `lit` (which starts with a space) into
/// the counts, where `lit` mentions `insertion`, or `deletion` and not
/// `insertion`, or neither.
proof fn lemma_stat_part(n: nat, lit: Seq<char>, acc: (nat, nat))
    requires
        lit.len() > 1,
        lit[0] == ' ',
        !is_ws(lit[1]),
        !is_ws(lit.last()),
    ensures
        n <= usize::MAX && contains_seq(lit, "insertion"@) ==> apply_stat_part(decimal(n) + lit, acc)
            == (n, acc.1),
        n <= usize::MAX && !contains_seq(lit, "insertion"@) && contains_seq(lit, "deletion"@)
            ==> apply_stat_part(
            decimal(n) + lit,
            acc,
        ) == (acc.0, n),
        !contains_seq(lit, "insertion"@) && !contains_seq(lit, "deletion"@) ==> apply_stat_part(
            decimal(n) + lit,
            acc,
        ) == acc,
{
    reveal_strlit("insertion");
    reveal_strlit("deletion");
    lemma_decimal_reads_back(n);
    let x = decimal(n);
    let t = x + lit;
    if contains_seq(lit, "insertion"@) {
        let o = choose|o: int| has_at(lit, "insertion"@, o);
        assert(t.subrange(x.len() + o, x.len() + o + 9) =~= lit.subrange(o, o + 9));
        assert(has_at(t, "insertion"@, x.len() + o));
    }
    if contains_seq(lit, "deletion"@) {
        let o = choose|o: int| has_at(lit, "deletion"@, o);
        assert(t.subrange(x.len() + o, x.len() + o + 8) =~= lit.subrange(o, o + 8));
        assert(has_at(t, "deletion"@, x.len() + o));
    }
    if !contains_seq(lit, "insertion"@) {
        lemma_number_then_text(n, lit, "insertion"@);
    }
    if !contains_seq(lit, "deletion"@) {
        lemma_number_then_text(n, lit, "deletion"@);
    }
    if n <= usize::MAX {
        lemma_token_len_digits(n, lit);
    }
}

proof fn lemma_token_len_digits(n: nat, lit: Seq<char>)
    requires
        n <= usize::MAX,
        lit.len() > 0,
        is_ws(lit[0]),
    ensures
        stat_value(decimal(n) + lit) == n,
{
    lemma_decimal_reads_back(n);
    let x = decimal(n);
    assert forall|i: int| 0 <= i < x.len() implies !is_ws(#[trigger] x[i]) by {
        assert(is_digit(x[i]));
    }
    lemma_token_len(x, lit);
    assert((x + lit).take(x.len() as int) == x);
}

/// `lit` is free of commas, and free of the pair `pat[0] pat[1]`.
proof fn lemma_literal_facts(lit: Seq<char>, pat: Seq<char>)
    requires
        pat.len() >= 2,
        forall|i: int| 0 <= i < lit.len() ==> #[trigger] lit[i] != ',',
        forall|i: int| 0 <= i && i + 1 < lit.len() ==> !(#[trigger] lit[i] == pat[0] && lit[i + 1] == pat[1]),
    ensures
        comma_free(lit),
        !contains_seq(lit, pat),
{
    lemma_no_pair(lit, pat);
}

/// `a`, a comma, `b`, as one text whose first piece is `a`.
proof fn lemma_pieces(a: Seq<char>, b: Seq<char>)
    requires
        comma_free(a),
    ensures
        split_from(a + seq![','] + b, ',', 0) == seq![a] + split_from(a + seq![','] + b, ',', a.len() + 1 as int),
{
    let s = a + seq![','] + b;
    assert(s.subrange(0, a.len() as int) =~= a);
    lemma_split_first(s, 0, a);
}

/// A text that starts and ends with no whitespace is its own trim.
proof fn lemma_trim_same(t: Seq<char>)
    requires
        t.len() > 0,
        !is_ws(t[0]),
        !is_ws(t.last()),
    ensures
        trim(t) == t,
{
    assert(trim_start(t) == t);
    assert(trim_end(t) == t);
}

/// The number `n` and the text `lit`, as one comma-free piece.
proof fn lemma_piece_comma_free(n: nat, lit: Seq<char>)
    requires
        comma_free(lit),
    ensures
        comma_free(decimal(n) + lit),
        comma_free(seq![' '] + decimal(n) + lit),
{
    lemma_decimal_reads_back(n);
    let x = decimal(n);
    let t = x + lit;
    assert forall|i: int| 0 <= i < t.len() implies #[trigger] t[i] != ',' by {
        if i < x.len() {
            assert(t[i] == x[i] && is_digit(x[i]));
        } else {
            assert(t[i] == lit[i - x.len()]);
        }
    }
    let u = seq![' '] + x + lit;
    assert(u =~= seq![' '] + t);
    assert forall|i: int| 0 <= i < u.len() implies #[trigger] u[i] != ',' by {
        if i > 0 {
            assert(u[i] == t[i - 1]);
        }
    }
}

/// The texts of a `--shortstat` line after each number.
proof fn lemma_stat_literals()
    ensures
        comma_free(" files changed"@),
        comma_free(" file changed"@),
        comma_free(" insertions(+)"@),
        comma_free(" deletions(-)"@),
        !contains_seq(" files changed"@, "insertion"@),
        !contains_seq(" files changed"@, "deletion"@),
        !contains_seq(" file changed"@, "insertion"@),
        !contains_seq(" file changed"@, "deletion"@),
        !contains_seq(" insertions(+)"@, "deletion"@),
        contains_seq(" insertions(+)"@, "insertion"@),
        !contains_seq(" deletions(-)"@, "insertion"@),
        contains_seq(" deletions(-)"@, "deletion"@),
{
    reveal_strlit(" files changed");
    reveal_strlit(" file changed");
    reveal_strlit(" insertions(+)");
    reveal_strlit(" deletions(-)");
    reveal_strlit("insertion");
    reveal_strlit("deletion");
    lemma_literal_facts(" files changed"@, "insertion"@);
    lemma_literal_facts(" files changed"@, "deletion"@);
    lemma_literal_facts(" file changed"@, "insertion"@);
    lemma_literal_facts(" file changed"@, "deletion"@);
    lemma_literal_facts(" insertions(+)"@, "deletion"@);
    lemma_literal_facts(" deletions(-)"@, "insertion"@);
    assert(" insertions(+)"@.subrange(1, 10) =~= "insertion"@);
    assert(has_at(" insertions(+)"@, "insertion"@, 1));
    assert(" deletions(-)"@.subrange(1, 9) =~= "deletion"@);
    assert(has_at(" deletions(-)"@, "deletion"@, 1));
}

#[verifier::spinoff_prover]
proof fn lemma_round_both(files: nat, ins: nat, del: nat)
    requires
        ins <= usize::MAX,
        del <= usize::MAX,
    ensures
        spec_parse_shortstat(stat_line(files, ins, del)) == (ins, del),
{
    reveal_strlit(" files changed, ");
    reveal_strlit(" insertions(+), ");
    reveal_strlit(" files changed");
    reveal_strlit(" insertions(+)");
    reveal_strlit(" deletions(-)");
    reveal_strlit("insertion");
    reveal_strlit("deletion");
    lemma_stat_literals();
    let many = " files changed"@;
    let insl = " insertions(+)"@;
    let dell = " deletions(-)"@;
    let a = decimal(files) + many;
    let b = seq![' '] + decimal(ins) + insl;
    let c = seq![' '] + decimal(del) + dell;
    lemma_piece_comma_free(files, many);
    lemma_piece_comma_free(ins, insl);
    lemma_piece_comma_free(del, dell);
    lemma_number_then_text(files, many, "insertion"@);
    lemma_number_then_text(ins, insl, "deletion"@);
    lemma_number_then_text(del, dell, "insertion"@);
    lemma_stat_part(files, many, (0, 0));
    lemma_stat_part(ins, insl, (0, 0));
    lemma_stat_part(del, dell, (ins, 0));
    let s1 = a + seq![','] + b + seq![','] + c;
    assert(s1 =~= stat_line(files, ins, del));
    lemma_decimal_reads_back(files);
    assert(s1[0] == decimal(files)[0]);
    assert(s1.last() == dell.last());
    lemma_trim_same(s1);
    lemma_pieces(a, b + seq![','] + c);
    assert(a + seq![','] + (b + seq![','] + c) == s1);
    let j: int = a.len() + 1int;
    assert(s1.subrange(j, j + b.len()) =~= b);
    lemma_split_first(s1, j, b);
    let j2: int = j + b.len() + 1;
    assert(s1.subrange(j2, s1.len() as int) =~= c);
    lemma_split_last(s1, j2);
    let parts = split_from(s1, ',', 0);
    assert(parts =~= seq![a, b, c]);
    assert(parts.drop_first() =~= seq![b, c]);
    assert(seq![b, c].drop_first() =~= seq![c]);
    assert(seq![c].drop_first() =~= Seq::<Seq<char>>::empty());
    let bt = decimal(ins) + insl;
    let ct = decimal(del) + dell;
    assert(trim(a) == a);
    assert(trim(b) == bt);
    assert(trim(c) == ct);
    assert(apply_stat_part(a, (0, 0)) == (0nat, 0nat));
    assert(apply_stat_part(bt, (0, 0)) == (ins, 0nat));
    assert(apply_stat_part(ct, (ins, 0)) == (ins, del));
    assert(stat_fold(seq![c], (ins, 0)) == stat_fold(Seq::<Seq<char>>::empty(), (ins, del)));
    assert(stat_fold(seq![b, c], (0, 0)) == stat_fold(seq![c], (ins, 0)));
    assert(stat_fold(parts, (0, 0)) == stat_fold(seq![b, c], (0, 0)));
}

proof fn lemma_round_insertions(files: nat, ins: nat)
    requires
        ins <= usize::MAX,
    ensures
        spec_parse_shortstat(stat_line_insertions(files, ins)) == (ins, 0nat),
{
    reveal_strlit(" files changed, ");
    reveal_strlit(" files changed");
    reveal_strlit(" insertions(+)");
    reveal_strlit("insertion");
    reveal_strlit("deletion");
    lemma_stat_literals();
    let many = " files changed"@;
    let insl = " insertions(+)"@;
    let a = decimal(files) + many;
    let b = seq![' '] + decimal(ins) + insl;
    lemma_piece_comma_free(files, many);
    lemma_piece_comma_free(ins, insl);
    lemma_number_then_text(files, many, "insertion"@);
    lemma_number_then_text(ins, insl, "deletion"@);
    lemma_stat_part(files, many, (0, 0));
    lemma_stat_part(ins, insl, (0, 0));
    let s2 = a + seq![','] + b;
    assert(s2 =~= stat_line_insertions(files, ins));
    lemma_decimal_reads_back(files);
    assert(s2[0] == decimal(files)[0]);
    assert(s2.last() == insl.last());
    lemma_trim_same(s2);
    lemma_pieces(a, b);
    let j: int = a.len() + 1int;
    assert(s2.subrange(j, s2.len() as int) =~= b);
    lemma_split_last(s2, j);
    let parts = split_from(s2, ',', 0);
    assert(parts =~= seq![a, b]);
    assert(parts.drop_first() =~= seq![b]);
    assert(seq![b].drop_first() =~= Seq::<Seq<char>>::empty());
    let bt = decimal(ins) + insl;
    assert(trim(a) == a);
    assert(trim(b) == bt);
    assert(apply_stat_part(a, (0, 0)) == (0nat, 0nat));
    assert(apply_stat_part(bt, (0, 0)) == (ins, 0nat));
    assert(stat_fold(seq![b], (0, 0)) == stat_fold(Seq::<Seq<char>>::empty(), (ins, 0)));
    assert(stat_fold(parts, (0, 0)) == stat_fold(seq![b], (0, 0)));
}

proof fn lemma_round_deletions(files: nat, del: nat)
    requires
        del <= usize::MAX,
    ensures
        spec_parse_shortstat(stat_line_deletions(files, del)) == (0nat, del),
{
    reveal_strlit(" file changed, ");
    reveal_strlit(" file changed");
    reveal_strlit(" deletions(-)");
    reveal_strlit("insertion");
    reveal_strlit("deletion");
    lemma_stat_literals();
    let one = " file changed"@;
    let dell = " deletions(-)"@;
    let a = decimal(files) + one;
    let c = seq![' '] + decimal(del) + dell;
    lemma_piece_comma_free(files, one);
    lemma_piece_comma_free(del, dell);
    lemma_number_then_text(files, one, "insertion"@);
    lemma_number_then_text(del, dell, "insertion"@);
    lemma_stat_part(files, one, (0, 0));
    lemma_stat_part(del, dell, (0, 0));
    let s3 = a + seq![','] + c;
    assert(s3 =~= stat_line_deletions(files, del));
    lemma_decimal_reads_back(files);
    assert(s3[0] == decimal(files)[0]);
    assert(s3.last() == dell.last());
    lemma_trim_same(s3);
    lemma_pieces(a, c);
    let j: int = a.len() + 1int;
    assert(s3.subrange(j, s3.len() as int) =~= c);
    lemma_split_last(s3, j);
    let parts = split_from(s3, ',', 0);
    assert(parts =~= seq![a, c]);
    assert(parts.drop_first() =~= seq![c]);
    assert(seq![c].drop_first() =~= Seq::<Seq<char>>::empty());
    let ct = decimal(del) + dell;
    assert(trim(a) == a);
    assert(trim(c) == ct);
    assert(apply_stat_part(a, (0, 0)) == (0nat, 0nat));
    assert(apply_stat_part(ct, (0, 0)) == (0nat, del));
    assert(stat_fold(seq![c], (0, 0)) == stat_fold(Seq::<Seq<char>>::empty(), (0, del)));
    assert(stat_fold(parts, (0, 0)) == stat_fold(seq![c], (0, 0)));
}

/// The counts of a `--shortstat` line read back exactly what git wrote:
/// insertions and deletions, insertions alone, or deletions alone; and a
/// blank line reads as none.
pub proof fn lemma_shortstat_round_trip(files: nat, ins: nat, del: nat, blank: Seq<char>)
    requires
        ins <= usize::MAX,
        del <= usize::MAX,
        forall|i: int| 0 <= i < blank.len() ==> is_ws(#[trigger] blank[i]),
    ensures
        spec_parse_shortstat(stat_line(files, ins, del)) == (ins, del),
        spec_parse_shortstat(stat_line_insertions(files, ins)) == (ins, 0nat),
        spec_parse_shortstat(stat_line_deletions(files, del)) == (0nat, del),
        spec_parse_shortstat(blank) == (0nat, 0nat),
{
    lemma_round_both(files, ins, del);
    lemma_round_insertions(files, ins);
    lemma_round_deletions(files, del);
    lemma_trim_blank(blank);
}

proof fn lemma_trim_blank(s: Seq<char>)
    requires
        forall|i: int| 0 <= i < s.len() ==> is_ws(#[trigger] s[i]),
    ensures
        trim(s).len() == 0,
    decreases s.len(),
{
    if s.len() > 0 {
        assert forall|i: int| 0 <= i < s.drop_first().len() implies is_ws(#[trigger] s.drop_first()[i]) by {
            assert(s.drop_first()[i] == s[i + 1]);
        }
        lemma_trim_blank(s.drop_first());
        assert(is_ws(s[0]));
    }
}

/// The header fields of a commit line after its marker: hash, author,
/// author date and subject, split at the first three `|||`.
pub open spec fn header_fields(line: Seq<char>) -> Seq<Seq<char>> {
    splitn_from(line.skip("COMMIT_DELIM"@.len() as int), "|||"@, 4, 0)
}

/// Whether a line of the log starts a commit.
pub open spec fn is_header(line: Seq<char>) -> bool {
    starts_with(line, "COMMIT_DELIM"@)
}

/// Whether the author date of a header line has a first ten bytes to cut
/// the day from: true of every date that git writes with `%aI`.
pub open spec fn header_dated(line: Seq<char>) -> bool {
    is_header(line) && header_fields(line).len() == 4 ==> chars_in_bytes(
        header_fields(line)[2],
        10,
    ) is Some
}

/// Whether every header line of the log has such a date.
pub open spec fn log_well_formed(out: Seq<char>) -> bool {
    forall|i: int| 0 <= i < lines(out).len() ==> #[trigger] header_dated(lines(out)[i])
}

/// The commit a header line opens, for the named project: `None` where the
/// line does not hold four fields.
pub open spec fn header_commit(line: Seq<char>, project: Seq<char>) -> Option<CommitRecord> {
    let f = header_fields(line);
    if f.len() == 4 {
        let (t, scope) = spec_commit_kind(project, f[3]);
        Some(
            CommitRecord {
                hash: f[0],
                date: byte_prefix(f[2], 10),
                commit_type: t,
                scope: scope,
                subject: f[3],
                project: project,
                insertions: 0,
                deletions: 0,
            },
        )
    } else {
        None
    }
}

/// One line of the log read into the commits so far and the commit being
/// read: a header line closes the commit being read and opens the next; a
/// non-blank line under a commit sets its insertions and deletions.
pub open spec fn log_step(
    st: (Seq<CommitRecord>, Option<CommitRecord>),
    line: Seq<char>,
    project: Seq<char>,
) -> (Seq<CommitRecord>, Option<CommitRecord>) {
    if is_header(line) {
        let done = match st.1 {
            Some(c) => st.0.push(c),
            None => st.0,
        };
        (done, header_commit(line, project))
    } else {
        match st.1 {
            Some(c) => if trim(line).len() > 0 {
                let (ins, del) = spec_parse_shortstat(trim(line));
                (st.0, Some(CommitRecord { insertions: ins, deletions: del, ..c }))
            } else {
                st
            },
            None => st,
        }
    }
}

/// The lines read in order.
pub open spec fn log_fold(
    ls: Seq<Seq<char>>,
    project: Seq<char>,
    st: (Seq<CommitRecord>, Option<CommitRecord>),
) -> (Seq<CommitRecord>, Option<CommitRecord>)
    decreases ls.len(),
{
    if ls.len() == 0 {
        st
    } else {
        log_fold(ls.drop_first(), project, log_step(st, ls[0], project))
    }
}

/// The commits read, the last one included.
pub open spec fn log_finish(st: (Seq<CommitRecord>, Option<CommitRecord>)) -> Seq<CommitRecord> {
    match st.1 {
        Some(c) => st.0.push(c),
        None => st.0,
    }
}

/// The commits of `git log --format=COMMIT_DELIM%H|||%aN|||%aI|||%s
/// --shortstat` output, in the order of the log.
pub open spec fn spec_parse_git_log(out: Seq<char>, project: Seq<char>) -> Seq<CommitRecord> {
    log_finish(log_fold(lines(out), project, (Seq::empty(), None)))
}

/// Every record belongs to the project, and has the type `docs` where the
/// project's name ends in `.wiki`.
pub open spec fn records_of_project(rs: Seq<CommitRecord>, project: Seq<char>) -> bool {
    forall|i: int|
        0 <= i < rs.len() ==> (#[trigger] rs[i]).project == project && (ends_with(project, ".wiki"@)
            ==> rs[i].commit_type == "docs"@)
}

/// The log state holds only records of the project.
pub open spec fn state_of_project(st: (Seq<CommitRecord>, Option<CommitRecord>), project: Seq<char>) -> bool {
    &&& records_of_project(st.0, project)
    &&& match st.1 {
        Some(c) => c.project == project && (ends_with(project, ".wiki"@) ==> c.commit_type == "docs"@),
        None => true,
    }
}

proof fn lemma_log_fold_of_project(
    ls: Seq<Seq<char>>,
    project: Seq<char>,
    st: (Seq<CommitRecord>, Option<CommitRecord>),
)
    requires
        state_of_project(st, project),
    ensures
        state_of_project(log_fold(ls, project, st), project),
    decreases ls.len(),
{
    if ls.len() > 0 {
        let next = log_step(st, ls[0], project);
        if is_header(ls[0]) {
            match st.1 {
                Some(c) => {
                    assert forall|i: int| 0 <= i < st.0.push(c).len() implies (#[trigger] st.0.push(c)[i]).project
                        == project && (ends_with(project, ".wiki"@) ==> st.0.push(c)[i].commit_type
                        == "docs"@) by {
                        if i < st.0.len() {
                            assert(st.0.push(c)[i] == st.0[i]);
                        }
                    }
                },
                None => {},
            }
        }
        assert(state_of_project(next, project));
        lemma_log_fold_of_project(ls.drop_first(), project, next);
    }
}

/// Every commit read from the log belongs to the project it was read for,
/// and every commit of a project whose name ends in `.wiki` has the type
/// `docs`, whatever its subject says.
pub proof fn lemma_log_commits_of_project(out: Seq<char>, project: Seq<char>)
    ensures
        records_of_project(spec_parse_git_log(out, project), project),
{
    let st0: (Seq<CommitRecord>, Option<CommitRecord>) = (Seq::empty(), None);
    lemma_log_fold_of_project(lines(out), project, st0);
    let st = log_fold(lines(out), project, st0);
    match st.1 {
        Some(c) => {
            assert forall|i: int| 0 <= i < st.0.push(c).len() implies (#[trigger] st.0.push(c)[i]).project
                == project && (ends_with(project, ".wiki"@) ==> st.0.push(c)[i].commit_type == "docs"@) by {
                if i < st.0.len() {
                    assert(st.0.push(c)[i] == st.0[i]);
                }
            }
        },
        None => {},
    }
}

/// The number of lines that open a commit: header lines holding all four
/// fields.
pub open spec fn opened_commits(ls: Seq<Seq<char>>) -> nat
    decreases ls.len(),
{
    if ls.len() == 0 {
        0
    } else {
        (if is_header(ls[0]) && header_fields(ls[0]).len() == 4 {
            1nat
        } else {
            0nat
        }) + opened_commits(ls.drop_first())
    }
}

/// Reading some lines and then more is reading them all.
proof fn lemma_log_fold_append(
    a: Seq<Seq<char>>,
    b: Seq<Seq<char>>,
    project: Seq<char>,
    st: (Seq<CommitRecord>, Option<CommitRecord>),
)
    ensures
        log_fold(a + b, project, st) == log_fold(b, project, log_fold(a, project, st)),
    decreases a.len(),
{
    if a.len() > 0 {
        assert((a + b).drop_first() == a.drop_first() + b);
        assert((a + b)[0] == a[0]);
        lemma_log_fold_append(a.drop_first(), b, project, log_step(st, a[0], project));
    } else {
        assert(a + b == b);
    }
}

/// Reading lines keeps the commits already read, in front, and adds one
/// commit, read or being read, for each line that opens one.
proof fn lemma_log_fold_grows(
    ls: Seq<Seq<char>>,
    project: Seq<char>,
    st: (Seq<CommitRecord>, Option<CommitRecord>),
)
    ensures
        ({
            let r = log_fold(ls, project, st);
            &&& st.0.len() <= r.0.len()
            &&& r.0.subrange(0, st.0.len() as int) == st.0
            &&& r.0.len() + (if r.1 is Some {
                1int
            } else {
                0int
            }) == st.0.len() + (if st.1 is Some {
                1int
            } else {
                0int
            }) + opened_commits(ls)
        }),
    decreases ls.len(),
{
    if ls.len() > 0 {
        let next = log_step(st, ls[0], project);
        lemma_log_fold_grows(ls.drop_first(), project, next);
        let r = log_fold(ls, project, st);
        assert(next.0.subrange(0, st.0.len() as int) =~= st.0);
        assert(r.0.subrange(0, next.0.len() as int) == next.0);
        assert(r.0.subrange(0, st.0.len() as int) =~= next.0.subrange(0, st.0.len() as int));
    } else {
        assert(st.0.subrange(0, st.0.len() as int) =~= st.0);
    }
}

/// Blank lines change nothing.
proof fn lemma_log_fold_blanks(
    ls: Seq<Seq<char>>,
    project: Seq<char>,
    st: (Seq<CommitRecord>, Option<CommitRecord>),
)
    requires
        forall|i: int| 0 <= i < ls.len() ==> trim(#[trigger] ls[i]).len() == 0,
    ensures
        log_fold(ls, project, st) == st,
    decreases ls.len(),
{
    if ls.len() > 0 {
        assert(trim(ls[0]).len() == 0);
        assert(!is_header(ls[0])) by {
            if is_header(ls[0]) {
                reveal_strlit("COMMIT_DELIM");
                assert(ls[0].subrange(0, 12) == "COMMIT_DELIM"@);
                assert(ls[0][0] == ls[0].subrange(0, 12)[0]);
                assert(ls[0][0] == 'C');
                crate::text::lemma_trim_start_shape(ls[0]);
                lemma_trim_nonblank(ls[0]);
            }
        }
        assert forall|i: int| 0 <= i < ls.drop_first().len() implies trim(#[trigger] ls.drop_first()[i]).len()
            == 0 by {
            assert(ls.drop_first()[i] == ls[i + 1]);
        }
        lemma_log_fold_blanks(ls.drop_first(), project, st);
    }
}

/// A line that starts with a character that is no whitespace is not blank.
proof fn lemma_trim_nonblank(t: Seq<char>)
    requires
        t.len() > 0,
        !is_ws(t[0]),
    ensures
        trim(t).len() > 0,
{
    assert(trim_start(t) == t);
    lemma_trim_end_keeps(t);
}

/// Trimming the end of a text keeps its first character.
proof fn lemma_trim_end_keeps(t: Seq<char>)
    requires
        t.len() > 0,
        !is_ws(t[0]),
    ensures
        trim_end(t).len() > 0,
    decreases t.len(),
{
    if t.len() > 1 && is_ws(t.last()) {
        assert(t.drop_last()[0] == t[0]);
        lemma_trim_end_keeps(t.drop_last());
    }
}

/// A commit of the log with no stat line under its header has no
/// insertions and no deletions, whatever the commits before it hold: where
/// the lines of the log are any lines `pre`, then a header line `h` with its
/// four fields, then only blank lines, then nothing or the next header, the
/// commit read from `h` (the one after those that `pre` opens) has the hash,
/// subject and project of `h`, and zero insertions and deletions.
pub proof fn lemma_commit_without_stat(
    out: Seq<char>,
    project: Seq<char>,
    pre: Seq<Seq<char>>,
    h: Seq<char>,
    blanks: Seq<Seq<char>>,
    post: Seq<Seq<char>>,
)
    requires
        lines(out) == pre + seq![h] + blanks + post,
        is_header(h),
        header_fields(h).len() == 4,
        forall|i: int| 0 <= i < blanks.len() ==> trim(#[trigger] blanks[i]).len() == 0,
        post.len() == 0 || is_header(post[0]),
    ensures
        ({
            let r = spec_parse_git_log(out, project);
            let n = opened_commits(pre) as int;
            &&& n < r.len()
            &&& r[n].insertions == 0
            &&& r[n].deletions == 0
            &&& r[n].hash == header_fields(h)[0]
            &&& r[n].subject == header_fields(h)[3]
            &&& r[n].project == project
        }),
{
    let st0: (Seq<CommitRecord>, Option<CommitRecord>) = (Seq::empty(), None);
    let n = opened_commits(pre) as int;
    lemma_log_fold_append(pre + seq![h] + blanks, post, project, st0);
    lemma_log_fold_append(pre + seq![h], blanks, project, st0);
    lemma_log_fold_append(pre, seq![h], project, st0);
    let st1 = log_fold(pre, project, st0);
    lemma_log_fold_grows(pre, project, st0);
    let st2 = log_fold(seq![h], project, st1);
    assert(seq![h].drop_first() =~= Seq::<Seq<char>>::empty());
    assert(seq![h][0] == h);
    assert(log_fold(Seq::<Seq<char>>::empty(), project, log_step(st1, h, project)) == log_step(
        st1,
        h,
        project,
    ));
    assert(st2 == log_fold(seq![h].drop_first(), project, log_step(st1, seq![h][0], project)));
    assert(st2 == log_step(st1, h, project));
    let rec = header_commit(h, project)->0;
    assert(st2.1 == Some(rec));
    assert(st2.0.len() == n);
    lemma_log_fold_blanks(blanks, project, st2);
    let st3 = log_fold(blanks, project, st2);
    assert(st3 == st2);
    let fin = log_fold(post, project, st3);
    assert(spec_parse_git_log(out, project) == log_finish(fin));
    if post.len() == 0 {
        assert(fin == st3);
        assert(log_finish(fin)[n] == rec);
    } else {
        let st4 = log_step(st3, post[0], project);
        assert(st4.0 == st2.0.push(rec));
        assert(fin == log_fold(post.drop_first(), project, st4));
        lemma_log_fold_grows(post.drop_first(), project, st4);
        assert(fin.0.subrange(0, st4.0.len() as int) == st4.0);
        assert(fin.0[n] == fin.0.subrange(0, st4.0.len() as int)[n]);
        assert(fin.0[n] == rec);
        match fin.1 {
            Some(c) => {
                assert(log_finish(fin)[n] == fin.0[n]);
            },
            None => {},
        }
    }
}

/// A commit of the log with one stat line under its header has the
/// insertions and deletions that `parse_shortstat` reads from that line,
/// whatever the commits before it hold: where the lines of the log are any
/// lines `pre`, a header line `h` with its four fields, blank lines, one
/// line `stat` that is neither blank nor a header, blank lines again, then
/// nothing or the next header, the commit read from `h` has the counts of
/// `stat`.
pub proof fn lemma_commit_with_stat(
    out: Seq<char>,
    project: Seq<char>,
    pre: Seq<Seq<char>>,
    h: Seq<char>,
    blanks: Seq<Seq<char>>,
    stat: Seq<char>,
    more_blanks: Seq<Seq<char>>,
    post: Seq<Seq<char>>,
)
    requires
        lines(out) == pre + seq![h] + blanks + seq![stat] + more_blanks + post,
        is_header(h),
        header_fields(h).len() == 4,
        forall|i: int| 0 <= i < blanks.len() ==> trim(#[trigger] blanks[i]).len() == 0,
        !is_header(stat),
        trim(stat).len() > 0,
        forall|i: int| 0 <= i < more_blanks.len() ==> trim(#[trigger] more_blanks[i]).len() == 0,
        post.len() == 0 || is_header(post[0]),
    ensures
        ({
            let r = spec_parse_git_log(out, project);
            let n = opened_commits(pre) as int;
            &&& n < r.len()
            &&& r[n].insertions == spec_parse_shortstat(trim(stat)).0
            &&& r[n].deletions == spec_parse_shortstat(trim(stat)).1
            &&& r[n].hash == header_fields(h)[0]
            &&& r[n].subject == header_fields(h)[3]
            &&& r[n].project == project
        }),
{
    let st0: (Seq<CommitRecord>, Option<CommitRecord>) = (Seq::empty(), None);
    let n = opened_commits(pre) as int;
    let a = pre + seq![h];
    let b = a + blanks;
    let c = b + seq![stat];
    let d = c + more_blanks;
    lemma_log_fold_append(d, post, project, st0);
    lemma_log_fold_append(c, more_blanks, project, st0);
    lemma_log_fold_append(b, seq![stat], project, st0);
    lemma_log_fold_append(a, blanks, project, st0);
    lemma_log_fold_append(pre, seq![h], project, st0);
    let st1 = log_fold(pre, project, st0);
    lemma_log_fold_grows(pre, project, st0);
    assert(seq![h].drop_first() =~= Seq::<Seq<char>>::empty());
    assert(seq![h][0] == h);
    assert(log_fold(Seq::<Seq<char>>::empty(), project, log_step(st1, h, project)) == log_step(
        st1,
        h,
        project,
    ));
    let st2 = log_fold(seq![h], project, st1);
    assert(st2 == log_fold(seq![h].drop_first(), project, log_step(st1, seq![h][0], project)));
    assert(st2 == log_step(st1, h, project));
    let rec = header_commit(h, project)->0;
    assert(st2.1 == Some(rec));
    assert(st2.0.len() == n);
    lemma_log_fold_blanks(blanks, project, st2);
    assert(seq![stat].drop_first() =~= Seq::<Seq<char>>::empty());
    assert(seq![stat][0] == stat);
    let (ins, del) = spec_parse_shortstat(trim(stat));
    let rec2 = CommitRecord { insertions: ins, deletions: del, ..rec };
    assert(log_fold(Seq::<Seq<char>>::empty(), project, log_step(st2, stat, project)) == log_step(
        st2,
        stat,
        project,
    ));
    let st3 = log_fold(seq![stat], project, st2);
    assert(st3 == log_fold(seq![stat].drop_first(), project, log_step(st2, seq![stat][0], project)));
    assert(st3 == log_step(st2, stat, project));
    assert(st3 == (st2.0, Some(rec2)));
    lemma_log_fold_blanks(more_blanks, project, st3);
    let fin = log_fold(post, project, st3);
    assert(spec_parse_git_log(out, project) == log_finish(fin));
    if post.len() == 0 {
        assert(fin == st3);
        assert(log_finish(fin)[n] == rec2);
    } else {
        let st4 = log_step(st3, post[0], project);
        assert(st4.0 == st2.0.push(rec2));
        assert(fin == log_fold(post.drop_first(), project, st4));
        lemma_log_fold_grows(post.drop_first(), project, st4);
        assert(fin.0.subrange(0, st4.0.len() as int) == st4.0);
        assert(fin.0[n] == fin.0.subrange(0, st4.0.len() as int)[n]);
        assert(fin.0[n] == rec2);
        match fin.1 {
            Some(c) => {
                assert(log_finish(fin)[n] == fin.0[n]);
            },
            None => {},
        }
    }
}

/// The records of some commits.
pub open spec fn records(cs: Seq<CommitEntry>) -> Seq<CommitRecord> {
    cs.map_values(|c: CommitEntry| c@)
}

/// The record of an optional commit.
pub open spec fn record_opt(c: Option<CommitEntry>) -> Option<CommitRecord> {
    match c {
        Some(x) => Some(x@),
        None => None,
    }
}

/// Whether every header line of a log output has a date to cut the day from.
pub fn log_dates_ok(out: &str) -> (r: bool)
    ensures
        r == log_well_formed(out@),
{
    let v = chars_of(out);
    let n = v.len();
    let delim = chars_of("COMMIT_DELIM");
    let sep = chars_of("|||");
    let mut p: usize = 0;
    assert(lines(out@) == lines_from(v@, 0));
    while p < n
        invariant
            n == v@.len(),
            v@ == out@,
            p <= n,
            delim@ == "COMMIT_DELIM"@,
            sep@ == "|||"@,
            log_well_formed(out@) == forall|i: int|
                0 <= i < lines_from(v@, p as int).len() ==> #[trigger] header_dated(
                    lines_from(v@, p as int)[i],
                ),
        decreases n - p,
    {
        let (line, next) = next_line(v.as_slice(), p);
        let ghost ls = lines_from(v@, p as int);
        assert(ls[0] == line@);
        assert(ls.drop_first() == lines_from(v@, next as int));
        let ok = if has_prefix(line.as_slice(), delim.as_slice()) {
            let rest = sub_chars(line.as_slice(), delim.len(), line.len());
            assert(rest@ == line@.skip("COMMIT_DELIM"@.len() as int));
            let f = splitn_chars(rest.as_slice(), sep.as_slice(), 4);
            if f.len() == 4 {
                chars_for_bytes(f[2].as_slice(), 10).is_some()
            } else {
                true
            }
        } else {
            true
        };
        assert(ok == header_dated(ls[0]));
        if !ok {
            assert(!header_dated(lines_from(v@, p as int)[0]));
            return false;
        }
        assert forall|i: int| 0 <= i < ls.len() implies #[trigger] header_dated(ls[i]) <==> (i == 0 || header_dated(ls.drop_first()[i - 1])) by {
            if i > 0 {
                assert(ls[i] == ls.drop_first()[i - 1]);
            }
        }
        assert((forall|i: int| 0 <= i < ls.len() ==> #[trigger] header_dated(ls[i])) == (forall|i: int|
            0 <= i < ls.drop_first().len() ==> #[trigger] header_dated(ls.drop_first()[i]))) by {
            if forall|i: int| 0 <= i < ls.drop_first().len() ==> #[trigger] header_dated(ls.drop_first()[i]) {
                assert forall|i: int| 0 <= i < ls.len() implies #[trigger] header_dated(ls[i]) by {
                    if i > 0 {
                        assert(header_dated(ls.drop_first()[i - 1]));
                    }
                }
            }
            if forall|i: int| 0 <= i < ls.len() ==> #[trigger] header_dated(ls[i]) {
                assert forall|i: int| 0 <= i < ls.drop_first().len() implies #[trigger] header_dated(ls.drop_first()[i]) by {
                    assert(header_dated(ls[i + 1]));
                }
            }
        }
        p = next;
    }
    true
}

/// The commits of `git log --format=COMMIT_DELIM%H|||%aN|||%aI|||%s
/// --shortstat` output for the named project, in the order of the log: each
/// header line opens a commit (hash, the first ten bytes of the author date,
/// type and scope read from the subject, the subject), and the `--shortstat`
/// line under it gives its insertions and deletions.
pub fn parse_git_log(out: &str, project: &str) -> (r: Vec<CommitEntry>)
    requires
        log_well_formed(out@),
    ensures
        records(r@) == spec_parse_git_log(out@, project@),
{
    let v = chars_of(out);
    let n = v.len();
    let delim = chars_of("COMMIT_DELIM");
    let sep = chars_of("|||");
    let mut commits: Vec<CommitEntry> = Vec::new();
    let mut current: Option<CommitEntry> = None;
    let mut p: usize = 0;
    let ghost want = spec_parse_git_log(out@, project@);
    assert(records(commits@) =~= Seq::<CommitRecord>::empty());
    while p < n
        invariant
            n == v@.len(),
            v@ == out@,
            p <= n,
            delim@ == "COMMIT_DELIM"@,
            sep@ == "|||"@,
            forall|i: int|
                0 <= i < lines_from(v@, p as int).len() ==> #[trigger] header_dated(
                    lines_from(v@, p as int)[i],
                ),
            want == log_finish(
                log_fold(lines_from(v@, p as int), project@, (records(commits@), record_opt(current))),
            ),
        decreases n - p,
    {
        let (line, next) = next_line(v.as_slice(), p);
        let ghost ls = lines_from(v@, p as int);
        let ghost st = (records(commits@), record_opt(current));
        assert(ls[0] == line@);
        assert(ls.drop_first() == lines_from(v@, next as int));
        assert(header_dated(ls[0]));
        if has_prefix(line.as_slice(), delim.as_slice()) {
            match current {
                Some(c) => {
                    commits.push(c);
                    assert(records(commits@) =~= st.0.push(st.1->0));
                },
                None => {},
            }
            let rest = sub_chars(line.as_slice(), delim.len(), line.len());
            assert(rest@ == line@.skip("COMMIT_DELIM"@.len() as int));
            let f = splitn_chars(rest.as_slice(), sep.as_slice(), 4);
            if f.len() == 4 {
                let hash = string_of(f[0].as_slice());
                let subject = string_of(f[3].as_slice());
                let date = match chars_for_bytes(f[2].as_slice(), 10) {
                    Some(k) => string_of_range(f[2].as_slice(), 0, k),
                    None => String::new(),
                };
                assert(date@ == byte_prefix(header_fields(line@)[2], 10));
                let (t, scope) = commit_kind(project, subject.as_str());
                current = Some(
                    CommitEntry {
                        hash: hash,
                        date: date,
                        commit_type: t,
                        scope: scope,
                        subject: subject,
                        project: project.to_string(),
                        insertions: 0,
                        deletions: 0,
                    },
                );
            } else {
                current = None;
            }
        } else {
            let cur = current;
            current = match cur {
                Some(c) => {
                    let tl = trimmed(line.as_slice());
                    if tl.len() > 0 {
                        let ts = string_of(tl.as_slice());
                        let (ins, del) = parse_shortstat(ts.as_str());
                        Some(CommitEntry { insertions: ins, deletions: del, ..c })
                    } else {
                        Some(c)
                    }
                },
                None => None,
            };
        }
        assert((records(commits@), record_opt(current)) == log_step(st, ls[0], project@));
        assert forall|i: int|
            0 <= i < lines_from(v@, next as int).len() implies #[trigger] header_dated(
                lines_from(v@, next as int)[i],
            ) by {
            assert(header_dated(ls[i + 1]));
        }
        p = next;
    }
    match current {
        Some(c) => {
            let ghost before = records(commits@);
            commits.push(c);
            assert(records(commits@) =~= before.push(c@));
        },
        None => {},
    }
    commits
}


/// The arguments of the `git` call that lists the commits of the repository
/// at `repo`: `-C repo log`, the branch or `--all`, the format that
/// [`parse_git_log`] reads, `--shortstat`, and `--author=...` where an author
/// is asked for.
pub open spec fn spec_git_log_args(
    repo: Seq<char>,
    branch: Option<Seq<char>>,
    author: Option<Seq<char>>,
) -> Seq<Seq<char>> {
    let base = seq![
        "-C"@,
        repo,
        "log"@,
        match branch {
            Some(b) => b,
            None => "--all"@,
        },
        "--format=COMMIT_DELIM%H|||%aN|||%aI|||%s"@,
        "--shortstat"@,
    ];
    match author {
        Some(a) => base.push("--author="@ + a),
        None => base,
    }
}

/// The arguments of the `git` call that lists the commits of a repository.
pub fn git_log_args(repo: &str, branch: Option<&str>, author: Option<&str>) -> (r: Vec<String>)
    ensures
        strings_view(r@) == spec_git_log_args(repo@, opt_view(branch), opt_view(author)),
{
    let mut r: Vec<String> = Vec::new();
    r.push("-C".to_string());
    r.push(repo.to_string());
    r.push("log".to_string());
    match branch {
        Some(b) => r.push(b.to_string()),
        None => r.push("--all".to_string()),
    }
    r.push("--format=COMMIT_DELIM%H|||%aN|||%aI|||%s".to_string());
    r.push("--shortstat".to_string());
    match author {
        Some(a) => {
            let mut s = "--author=".to_string();
            push_str(&mut s, a);
            r.push(s);
        },
        None => {},
    }
    assert(strings_view(r@) =~= spec_git_log_args(repo@, opt_view(branch), opt_view(author)));
    r
}

} // verus!
