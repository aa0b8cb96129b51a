//! Numbers as text: rendering naturals and integers in a base, and reading
//! signed decimal literals.

use vstd::prelude::*;

use crate::text::{chars_of, string_of};

verus! {

/// The digit character for `d`, with lower-case letters from ten on.
pub open spec fn digit_char(d: nat) -> char {
    if d < 10 {
        (48 + d) as char
    } else {
        (87 + d) as char
    }
}

/// `n` written in `base`, most significant digit first, without leading
/// zeros (`0` is the single digit `0`).
pub open spec fn digits(n: nat, base: nat) -> Seq<char>
    decreases n,
{
    if base < 2 || n < base {
        seq![digit_char(n)]
    } else {
        proof {
            assert(n / base < n) by (nonlinear_arith)
                requires
                    base >= 2,
                    n >= base,
            ;
        }
        digits(n / base, base).push(digit_char(n % base))
    }
}

/// `n` in decimal.
pub open spec fn dec(n: nat) -> Seq<char> {
    digits(n, 10)
}

/// An integer in decimal, with a leading `-` when negative.
pub open spec fn dec_int(n: int) -> Seq<char> {
    if n < 0 {
        seq!['-'] + dec((-n) as nat)
    } else {
        dec(n as nat)
    }
}

pub fn digit_of(d: u8) -> (c: char)
    requires
        d < 16,
    ensures
        c == digit_char(d as nat),
{
    if d < 10 {
        (48u8 + d) as char
    } else {
        (87u8 + d) as char
    }
}

fn push_digits(n: u64, base: u64, out: &mut Vec<char>)
    requires
        2 <= base <= 16,
    ensures
        final(out)@ == old(out)@ + digits(n as nat, base as nat),
    decreases n,
{
    if n < base {
        out.push(digit_of(n as u8));
        assert(out@ =~= old(out)@ + digits(n as nat, base as nat));
    } else {
        proof {
            assert(n / base < n) by (nonlinear_arith)
                requires
                    base >= 2,
                    n >= base,
            ;
            assert(n % base < base) by (nonlinear_arith)
                requires
                    base >= 2,
            ;
        }
        push_digits(n / base, base, out);
        out.push(digit_of((n % base) as u8));
        assert(out@ =~= old(out)@ + digits(n as nat, base as nat));
    }
}

/// A natural number in decimal.
pub fn u64_text(n: u64) -> (s: String)
    ensures
        s@ == dec(n as nat),
{
    let mut v: Vec<char> = Vec::new();
    push_digits(n, 10, &mut v);
    let len: usize = v.len();
    let s: String = string_of(&v, 0, len);
    assert(v@.subrange(0, len as int) =~= dec(n as nat));
    s
}

pub fn usize_text(n: usize) -> (s: String)
    ensures
        s@ == dec(n as nat),
{
    u64_text(n as u64)
}

/// A signed number in decimal.
pub fn i64_text(n: i64) -> (s: String)
    ensures
        s@ == dec_int(n as int),
{
    if n < 0 {
        let mut out: String = String::new();
        out.push('-');
        let m: u64 = ((-(n + 1)) as u64) + 1;
        let body: String = u64_text(m);
        out.push_str(body.as_str());
        assert(out@ =~= seq!['-'] + dec((-n) as nat));
        out
    } else {
        u64_text(n as u64)
    }
}

/// Is `c` one of `0` to `9`?
pub open spec fn is_digit(c: char) -> bool {
    '0' <= c && c <= '9'
}

pub fn digit_test(c: char) -> (r: bool)
    ensures
        r == is_digit(c),
{
    '0' <= c && c <= '9'
}

/// Is `s` a non-empty run of decimal digits?
pub open spec fn is_decimal(s: Seq<char>) -> bool {
    s.len() > 0 && forall|i: int| 0 <= i < s.len() ==> is_digit(#[trigger] s[i])
}

/// The number that a run of decimal digits stands for.
pub open spec fn decimal_value(s: Seq<char>) -> nat
    decreases s.len(),
{
    if s.len() == 0 {
        0
    } else {
        10 * decimal_value(s.drop_last()) + ((s.last() as int - 48) as nat)
    }
}

/// The digits of a decimal literal: what follows an optional sign.
pub open spec fn unsigned_part(s: Seq<char>) -> Seq<char> {
    if s.len() > 0 && (s[0] == '+' || s[0] == '-') {
        s.drop_first()
    } else {
        s
    }
}

/// The integer that a decimal literal with an optional sign stands for.
pub open spec fn literal_value(s: Seq<char>) -> int {
    if s.len() > 0 && s[0] == '-' {
        -(decimal_value(unsigned_part(s)) as int)
    } else {
        decimal_value(unsigned_part(s)) as int
    }
}

/// Is `s` a decimal literal that fits in 64 signed bits?
pub open spec fn is_i64_literal(s: Seq<char>) -> bool {
    is_decimal(unsigned_part(s)) && i64::MIN <= literal_value(s) <= i64::MAX
}

/// Rendering a number and reading the digits back gives the number.
pub proof fn decimal_round_trip(n: nat)
    ensures
        is_decimal(dec(n)),
        decimal_value(dec(n)) == n,
    decreases n,
{
    if n < 10 {
        assert(dec(n) =~= seq![digit_char(n)]);
        assert(dec(n).drop_last() =~= Seq::empty());
        assert(decimal_value(dec(n).drop_last()) == 0);
    } else {
        decimal_round_trip(n / 10);
        let s = dec(n);
        assert(s =~= dec(n / 10).push(digit_char(n % 10)));
        assert(s.drop_last() =~= dec(n / 10));
        assert forall|i: int| 0 <= i < s.len() implies is_digit(#[trigger] s[i]) by {
            if i < s.len() - 1 {
                assert(s[i] == dec(n / 10)[i]);
            }
        }
    }
}

proof fn lemma_decimal_value_grows(s: Seq<char>, k: int)
    requires
        is_decimal(s),
        0 <= k <= s.len(),
    ensures
        decimal_value(s.take(k)) <= decimal_value(s),
    decreases s.len() - k,
{
    if k < s.len() {
        lemma_decimal_value_grows(s, k + 1);
        assert(s.take(k + 1).drop_last() =~= s.take(k));
        assert(is_digit(s[k]));
    } else {
        assert(s.take(k) =~= s);
    }
}

/// `str::parse::<i64>`: an optional sign and decimal digits, in range.
pub fn parse_i64(s: &str) -> (r: Option<i64>)
    ensures
        match r {
            Some(n) => is_i64_literal(s@) && n == literal_value(s@),
            None => !is_i64_literal(s@),
        },
{
    let v: Vec<char> = chars_of(s);
    if v.len() == 0 {
        return None;
    }
    let signed: bool = v[0] == '+' || v[0] == '-';
    let neg: bool = v[0] == '-';
    let start: usize = if signed { 1 } else { 0 };
    let ghost body = unsigned_part(s@);
    assert(body =~= v@.subrange(start as int, v.len() as int));
    if start >= v.len() {
        return None;
    }
    let mut i: usize = start;
    while i < v.len()
        invariant
            start <= i <= v.len(),
            body == v@.subrange(start as int, v.len() as int),
            body == unsigned_part(s@),
            forall|k: int| 0 <= k < i - start ==> is_digit(#[trigger] body[k]),
        decreases v.len() - i,
    {
        if !digit_test(v[i]) {
            assert(!is_digit(body[i - start]));
            return None;
        }
        assert(body[i - start] == v@[i as int]);
        i += 1;
    }
    assert(is_decimal(body));
    let mut acc: i128 = 0;
    let mut j: usize = start;
    assert(body.take(0) =~= Seq::empty());
    while j < v.len()
        invariant
            start <= j <= v.len(),
            body == v@.subrange(start as int, v.len() as int),
            is_decimal(body),
            acc == decimal_value(body.take(j - start)),
            0 <= acc <= 9223372036854775808,
            body == unsigned_part(s@),
        decreases v.len() - j,
    {
        proof {
            assert(body[j - start] == v@[j as int]);
            assert(is_digit(body[j - start]));
            assert(body.take(j - start + 1).drop_last() =~= body.take(j - start));
            lemma_decimal_value_grows(body, j - start + 1);
        }
        let d: i128 = (v[j] as u32 - 48) as i128;
        acc = acc * 10 + d;
        if acc > 9223372036854775808 {
            return None;
        }
        j += 1;
    }
    assert(body.take(j - start) =~= body);
    if neg {
        if acc == 9223372036854775808 {
            return Some(i64::MIN);
        }
        Some(-(acc as i64))
    } else {
        if acc > 9223372036854775807 {
            return None;
        }
        Some(acc as i64)
    }
}

} // verus!
