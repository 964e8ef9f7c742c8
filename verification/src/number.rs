//! Decimal integers: reading them as `str::parse::<usize>` does, and writing
//! them as `format!("{:0w}")` does.
use vstd::prelude::*;
use crate::text::{is_digit, push_char, push_str};

verus! {

/// Why a text is not a `usize`, as `std::num::IntErrorKind` tells it.
#[derive(Debug, Clone, Copy, PartialEq, Eq, Structural)]
pub enum IntErrorKind {
    /// The text is empty.
    Empty,
    /// The text holds a character that is not a digit where one is needed.
    InvalidDigit,
    /// The number does not fit in a `usize`.
    PosOverflow,
}

/// The value of the ASCII digit `c`.
pub open spec fn digit_value(c: char) -> nat {
    ((c as u32) - ('0' as u32)) as nat
}

/// Reading the digits of `d` from the left, as `from_str_radix` does: the
/// first character that is not a digit, or the first digit after which the
/// value no longer fits, decides the error.
pub open spec fn digits_result(d: Seq<char>) -> Result<nat, IntErrorKind>
    decreases d.len(),
{
    if d.len() == 0 {
        Ok(0)
    } else {
        match digits_result(d.drop_last()) {
            Err(e) => Err(e),
            Ok(v) => if !is_digit(d.last()) {
                Err(IntErrorKind::InvalidDigit)
            } else if v * 10 + digit_value(d.last()) > usize::MAX {
                Err(IntErrorKind::PosOverflow)
            } else {
                Ok(v * 10 + digit_value(d.last()))
            },
        }
    }
}

/// `str::parse::<usize>`: an optional `+`, then one or more digits whose
/// value fits in a `usize`.
pub open spec fn parse_usize_result(s: Seq<char>) -> Result<nat, IntErrorKind> {
    if s.len() == 0 {
        Err(IntErrorKind::Empty)
    } else if (s[0] == '+' || s[0] == '-') && s.len() == 1 {
        Err(IntErrorKind::InvalidDigit)
    } else if s[0] == '+' {
        digits_result(s.drop_first())
    } else {
        digits_result(s)
    }
}

/// The value `str::parse::<usize>` gives, when it gives one.
pub open spec fn spec_parse_usize(s: Seq<char>) -> Option<nat> {
    match parse_usize_result(s) {
        Ok(v) => Some(v),
        Err(_) => None,
    }
}

proof fn lemma_digits_result_bound(d: Seq<char>)
    ensures
        digits_result(d) matches Ok(v) ==> v <= usize::MAX,
    decreases d.len(),
{
    if d.len() > 0 {
        lemma_digits_result_bound(d.drop_last());
    }
}

/// Reads `s[start..end]` as `str::parse::<usize>` reads a string.
pub fn parse_usize_range(s: &[char], start: usize, end: usize) -> (r: Result<usize, IntErrorKind>)
    requires
        start <= end <= s@.len(),
    ensures
        match r {
            Ok(v) => parse_usize_result(s@.subrange(start as int, end as int)) == Ok::<
                nat,
                IntErrorKind,
            >(v as nat),
            Err(e) => parse_usize_result(s@.subrange(start as int, end as int)) == Err::<
                nat,
                IntErrorKind,
            >(e),
        },
{
    let ghost t = s@.subrange(start as int, end as int);
    if start == end {
        return Err(IntErrorKind::Empty);
    }
    if (s[start] == '+' || s[start] == '-') && end - start == 1 {
        return Err(IntErrorKind::InvalidDigit);
    }
    let first = if s[start] == '+' {
        start + 1
    } else {
        start
    };
    let ghost d = s@.subrange(first as int, end as int);
    assert(t[0] == s@[start as int]);
    assert(s[start as int] == '+' ==> d == t.drop_first());
    assert(s[start as int] != '+' ==> d == t);
    assert(parse_usize_result(t) == digits_result(d));
    let mut v: usize = 0;
    let mut i = first;
    assert(s@.subrange(first as int, first as int) =~= Seq::<char>::empty());
    while i < end
        invariant
            first <= i <= end <= s@.len(),
            d == s@.subrange(first as int, end as int),
            parse_usize_result(s@.subrange(start as int, end as int)) == digits_result(d),
            digits_result(s@.subrange(first as int, i as int)) == Ok::<nat, IntErrorKind>(v as nat),
        decreases end - i,
    {
        let ghost p = s@.subrange(first as int, i + 1);
        assert(p.drop_last() == s@.subrange(first as int, i as int));
        assert(p.last() == s@[i as int]);
        assert(d.take((i - first) + 1) == p);
        let c = s[i];
        if !('0' <= c && c <= '9') {
            proof {
                lemma_digits_prefix_err(d, (i - first) as int, IntErrorKind::InvalidDigit);
            }
            return Err(IntErrorKind::InvalidDigit);
        }
        let dv = (c as u32) - ('0' as u32);
        if v > (usize::MAX - dv as usize) / 10 {
            assert(v * 10 + dv > usize::MAX) by (nonlinear_arith)
                requires
                    v > (usize::MAX - dv) / 10,
                    dv <= 9,
            ;
            proof {
                lemma_digits_prefix_err(d, (i - first) as int, IntErrorKind::PosOverflow);
            }
            return Err(IntErrorKind::PosOverflow);
        }
        assert(v * 10 + dv <= usize::MAX) by (nonlinear_arith)
            requires
                v <= (usize::MAX - dv) / 10,
                dv <= 9,
        ;
        v = v * 10 + dv as usize;
        i = i + 1;
    }
    assert(s@.subrange(first as int, end as int) == d);
    Ok(v)
}

/// Once a prefix of the digits fails, the whole fails the same way.
proof fn lemma_digits_prefix_err(d: Seq<char>, k: int, e: IntErrorKind)
    requires
        0 <= k < d.len(),
        digits_result(d.take(k + 1)) == Err::<nat, IntErrorKind>(e),
    ensures
        digits_result(d) == Err::<nat, IntErrorKind>(e),
    decreases d.len(),
{
    if k + 1 == d.len() {
        assert(d.take(k + 1) == d);
    } else {
        assert(d.drop_last().take(k + 1) == d.take(k + 1));
        lemma_digits_prefix_err(d.drop_last(), k, e);
    }
}

/// Reads `s` as `str::parse::<usize>` does.
pub fn parse_usize(s: &[char]) -> (r: Result<usize, IntErrorKind>)
    ensures
        match r {
            Ok(v) => parse_usize_result(s@) == Ok::<nat, IntErrorKind>(v as nat),
            Err(e) => parse_usize_result(s@) == Err::<nat, IntErrorKind>(e),
        },
{
    assert(s@.subrange(0, s@.len() as int) == s@);
    parse_usize_range(s, 0, s.len())
}

/// The decimal digits of `n`, most significant first, without leading zeros
/// (`"0"` for zero).
pub open spec fn decimal(n: nat) -> Seq<char>
    decreases n,
{
    if n < 10 {
        seq![(n + ('0' as nat)) as char]
    } else {
        decimal(n / 10).push(((n % 10) + ('0' as nat)) as char)
    }
}

/// The decimal text of `n` is digits only, and reads back as `n` where `n`
/// fits in a `usize`.
pub proof fn lemma_decimal_reads_back(n: nat)
    ensures
        decimal(n).len() > 0,
        forall|i: int| 0 <= i < decimal(n).len() ==> is_digit(#[trigger] decimal(n)[i]),
        n <= usize::MAX ==> digits_result(decimal(n)) == Ok::<nat, IntErrorKind>(n),
        n <= usize::MAX ==> spec_parse_usize(decimal(n)) == Some(n),
    decreases n,
{
    let c = ((n % 10) + ('0' as nat)) as char;
    assert(('0' as nat) <= (n % 10) + ('0' as nat) <= ('9' as nat));
    assert(is_digit(c) && digit_value(c) == n % 10);
    if n < 10 {
        assert(decimal(n) == seq![c]);
        assert(seq![c].drop_last() =~= Seq::<char>::empty());
        assert(seq![c].last() == c);
        assert(digits_result(seq![c].drop_last()) == Ok::<nat, IntErrorKind>(0));
        assert(0 * 10 + n % 10 == n);
    } else {
        lemma_decimal_reads_back(n / 10);
        let d = decimal(n / 10);
        assert(decimal(n) == d.push(c));
        assert(d.push(c).drop_last() == d);
        assert forall|i: int| 0 <= i < d.push(c).len() implies is_digit(#[trigger] d.push(c)[i]) by {
            if i < d.len() {
                assert(d.push(c)[i] == d[i]);
            }
        }
        assert((n / 10) * 10 + n % 10 == n) by (nonlinear_arith);
        assert(n / 10 <= n);
        assert(d.push(c).last() == c);
        if n <= usize::MAX {
            assert(digits_result(d.push(c).drop_last()) == Ok::<nat, IntErrorKind>(n / 10));
        }
    }
    let e = decimal(n);
    assert(is_digit(e[0]));
}

/// `n` zero-padded on the left to at least `width` characters, as
/// `format!("{:0width$}", n)` writes an unsigned number.
pub open spec fn padded(n: nat, width: nat) -> Seq<char> {
    let d = decimal(n);
    if d.len() >= width {
        d
    } else {
        Seq::new((width - d.len()) as nat, |i: int| '0') + d
    }
}

/// `n` as `format!("{:0width$}", n)` writes a signed number: the sign first,
/// then zeros, so that the whole is at least `width` characters.
pub open spec fn padded_signed(n: int, width: nat) -> Seq<char> {
    if n < 0 {
        seq!['-'] + padded((-n) as nat, if width > 0 {
            (width - 1) as nat
        } else {
            0
        })
    } else {
        padded(n as nat, width)
    }
}

/// The value of a string of digits, read from the left with no bound.
pub open spec fn digits_value(d: Seq<char>) -> nat
    decreases d.len(),
{
    if d.len() == 0 {
        0
    } else {
        digits_value(d.drop_last()) * 10 + digit_value(d.last())
    }
}

/// The digits of `n` read back as `n`.
proof fn lemma_decimal_value(n: nat)
    ensures
        digits_value(decimal(n)) == n,
    decreases n,
{
    let c = ((n % 10) + ('0' as nat)) as char;
    assert(('0' as nat) <= (n % 10) + ('0' as nat) <= ('9' as nat));
    assert(digit_value(c) == n % 10);
    if n >= 10 {
        lemma_decimal_value(n / 10);
        assert(decimal(n).drop_last() == decimal(n / 10));
        assert(decimal(n).last() == c);
        assert((n / 10) * 10 + n % 10 == n) by (nonlinear_arith);
        assert(digits_value(decimal(n)) == digits_value(decimal(n / 10)) * 10 + digit_value(c));
    } else {
        assert(decimal(n) == seq![c]);
        assert(seq![c].drop_last() =~= Seq::<char>::empty());
        assert(digits_value(Seq::<char>::empty()) == 0);
        assert(digits_value(seq![c]) == digits_value(seq![c].drop_last()) * 10 + digit_value(c));
    }
}

/// Zeros in front of digits leave their value as it is.
proof fn lemma_zeros_value(k: nat, d: Seq<char>)
    ensures
        digits_value(Seq::new(k, |i: int| '0') + d) == digits_value(d),
    decreases d.len(), k,
{
    let z = Seq::new(k, |i: int| '0');
    if d.len() == 0 {
        assert(z + d == z);
        if k > 0 {
            assert(z.drop_last() == Seq::new((k - 1) as nat, |i: int| '0'));
            lemma_zeros_value((k - 1) as nat, d);
            assert(Seq::new((k - 1) as nat, |i: int| '0') + d == Seq::new((k - 1) as nat, |i: int| '0'));
        }
    } else {
        assert((z + d).drop_last() == z + d.drop_last());
        assert((z + d).last() == d.last());
        lemma_zeros_value(k, d.drop_last());
    }
}

/// A zero-padded number is digits only, starts with a digit and reads back
/// as the number.
pub proof fn lemma_padded_value(n: nat, width: nat)
    ensures
        padded(n, width).len() > 0,
        is_digit(padded(n, width)[0]),
        digits_value(padded(n, width)) == n,
        padded(n, width).len() == if decimal(n).len() >= width {
            decimal(n).len()
        } else {
            width
        },
{
    lemma_decimal_reads_back(n);
    lemma_decimal_value(n);
    let d = decimal(n);
    if d.len() < width {
        lemma_zeros_value((width - d.len()) as nat, d);
    }
}

/// Two numbers written with the same sign and width are the same text only
/// when they are the same number.
pub proof fn lemma_padded_signed_injective(a: int, b: int, width: nat)
    requires
        padded_signed(a, width) == padded_signed(b, width),
    ensures
        a == b,
{
    let w = if width > 0 {
        (width - 1) as nat
    } else {
        0
    };
    if a < 0 {
        lemma_padded_value((-a) as nat, w);
    } else {
        lemma_padded_value(a as nat, width);
    }
    if b < 0 {
        lemma_padded_value((-b) as nat, w);
    } else {
        lemma_padded_value(b as nat, width);
    }
    if a < 0 && b < 0 {
        assert(padded((-a) as nat, w) == padded_signed(a, width).drop_first());
        assert(padded((-b) as nat, w) == padded_signed(b, width).drop_first());
    } else if a < 0 {
        assert(padded_signed(a, width)[0] == '-');
    } else if b < 0 {
        assert(padded_signed(b, width)[0] == '-');
    }
}

/// The number `1..=9` written without padding is its one digit.
pub proof fn lemma_one_digit(n: nat)
    requires
        n < 10,
    ensures
        padded_signed(n as int, 0) == decimal(n),
        decimal(n).len() == 1,
{
}

/// The number `1..=99` zero-padded to two is two characters.
pub proof fn lemma_two_digits(n: nat)
    requires
        n < 100,
    ensures
        padded_signed(n as int, 2).len() == 2,
{
    if n >= 10 {
        assert(decimal(n).len() == decimal(n / 10).len() + 1);
        assert(n / 10 < 10);
    }
}

/// The digits of `n`, written onto the end of `out`.
pub fn push_decimal(out: &mut String, n: u64)
    ensures
        final(out)@ == old(out)@ + decimal(n as nat),
    decreases n,
{
    if n < 10 {
        let c = digit_char(n);
        push_char(out, c);
        assert(decimal(n as nat) == seq![c]);
    } else {
        push_decimal(out, n / 10);
        let c = digit_char(n % 10);
        push_char(out, c);
    }
}

/// The ASCII digit for `d`.
fn digit_char(d: u64) -> (c: char)
    requires
        d < 10,
    ensures
        c == (d + ('0' as nat)) as char,
{
    let b: u8 = (d as u8) + 48;
    b as char
}

/// `n` zero-padded to `width`, written onto the end of `out`.
pub fn push_padded(out: &mut String, n: u64, width: usize)
    ensures
        final(out)@ == old(out)@ + padded(n as nat, width as nat),
{
    let mut digits = String::new();
    push_decimal(&mut digits, n);
    assert(digits@ == decimal(n as nat));
    let len = count_chars(&digits);
    let ghost start = out@;
    if len < width {
        let mut k: usize = 0;
        while k < width - len
            invariant
                len < width,
                k <= width - len,
                out@ == start + Seq::new(k as nat, |i: int| '0'),
            decreases width - len - k,
        {
            push_char(out, '0');
            assert(Seq::new((k + 1) as nat, |i: int| '0') =~= Seq::new(k as nat, |i: int| '0').push('0'));
            k = k + 1;
        }
    }
    push_str(out, digits.as_str());
    assert(padded(n as nat, width as nat) =~= if len < width {
        Seq::new((width - len) as nat, |i: int| '0') + decimal(n as nat)
    } else {
        decimal(n as nat)
    });
}

/// The number of characters of `s`.
fn count_chars(s: &String) -> (n: usize)
    ensures
        n == s@.len(),
{
    let v = crate::text::chars_of(s.as_str());
    v.len()
}

/// `n` as `format!("{:0width$}", n)` writes it, onto the end of `out`.
pub fn push_padded_signed(out: &mut String, n: i64, width: usize)
    ensures
        final(out)@ == old(out)@ + padded_signed(n as int, width as nat),
{
    if n < 0 {
        let ghost start = out@;
        push_char(out, '-');
        let m: u64 = if n == i64::MIN {
            9223372036854775808u64
        } else {
            (-n) as u64
        };
        let w = if width > 0 {
            width - 1
        } else {
            0
        };
        push_padded(out, m, w);
        assert(out@ =~= start + (seq!['-'] + padded(m as nat, w as nat)));
    } else {
        push_padded(out, n as u64, width);
    }
}

} // verus!
