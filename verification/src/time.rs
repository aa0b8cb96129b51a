//! Times: reading them from text, and showing ticks with a unit.
//!
//! A tick is the integer timestamp of the file. How long a tick lasts is the
//! business of a [`Timescale`].

use vstd::prelude::*;

use crate::format::{pyrepr, repr};
use crate::number::{
    digit_test, is_decimal, is_digit, is_i64_literal, literal_value, parse_i64, unsigned_part,
};
use crate::text::{byte_len, bytes_in, chars_of, has_char, same, string_of, trim, trimmed};

verus! {

/// The longest time argument accepted, in bytes.
pub const MAX_TIME_ARG_LEN: usize = 100;

/// Why a time argument was refused.
#[derive(Debug)]
pub struct TimeParseError(pub String);

/// A time with a unit, converted to ticks.
#[derive(Clone, Copy, Debug, PartialEq, Eq, Structural)]
pub enum Scaled {
    /// The number cannot be read.
    Unreadable,
    NotFinite,
    Negative,
    TooLarge,
    Ticks(i64),
}

/// How long a tick lasts.
pub trait Timescale {
    /// Is the duration of a tick known?
    closed spec fn known(&self) -> bool {
        arbitrary()
    }

    /// How a tick is shown.
    closed spec fn shown(&self, ticks: int) -> Seq<char> {
        arbitrary()
    }

    /// A decimal number with a unit, in ticks.
    closed spec fn scaled(&self, number: Seq<char>, unit: Seq<char>) -> Scaled {
        arbitrary()
    }

    fn is_known(&self) -> (r: bool)
        ensures
            r == self.known(),
    ;

    fn fmt_time(&self, ticks: i64) -> (s: String)
        ensures
            s@ == self.shown(ticks as int),
    ;

    fn scale(&self, number: &str, unit: &str) -> (r: Scaled)
        requires
            is_unit(unit@),
        ensures
            r == self.scaled(number@, unit@),
    ;
}

/// A file that does not say how long a tick lasts.
pub struct NoTimescale;

impl Timescale for NoTimescale {
    open spec fn known(&self) -> bool {
        false
    }

    open spec fn shown(&self, ticks: int) -> Seq<char> {
        if ticks == 0 {
            "0s"@
        } else {
            "?"@
        }
    }

    open spec fn scaled(&self, number: Seq<char>, unit: Seq<char>) -> Scaled {
        Scaled::NotFinite
    }

    fn is_known(&self) -> (r: bool) {
        false
    }

    fn fmt_time(&self, ticks: i64) -> (s: String) {
        if ticks == 0 {
            "0s".to_owned()
        } else {
            "?".to_owned()
        }
    }

    fn scale(&self, number: &str, unit: &str) -> (r: Scaled) {
        Scaled::NotFinite
    }
}

/// Is `s` a unit of time?
pub open spec fn is_unit(s: Seq<char>) -> bool {
    s == "fs"@ || s == "ps"@ || s == "ns"@ || s == "us"@ || s == "ms"@ || s == "s"@
}

pub fn unit_test(s: &str) -> (r: bool)
    ensures
        r == is_unit(s@),
{
    same(s, "fs") || same(s, "ps") || same(s, "ns") || same(s, "us") || same(s, "ms") || same(
        s,
        "s",
    )
}

/// The length of the longest front of `s` made of digits and at most one dot.
pub open spec fn number_length(s: Seq<char>, dotted: bool) -> int
    decreases s.len(),
{
    if s.len() == 0 {
        0
    } else if is_digit(s[0]) {
        1 + number_length(s.drop_first(), dotted)
    } else if s[0] == '.' && !dotted {
        1 + number_length(s.drop_first(), true)
    } else {
        0
    }
}

/// Has `s` a digit?
pub open spec fn has_digit(s: Seq<char>) -> bool {
    exists|i: int| 0 <= i < s.len() && is_digit(#[trigger] s[i])
}

pub struct TimeParts {
    pub negative: bool,
    pub number: Seq<char>,
    pub unit: Seq<char>,
}

/// An optional sign, a decimal number and an optional unit.
pub open spec fn time_parts(s: Seq<char>) -> Option<TimeParts> {
    let body = unsigned_part(s);
    let n = number_length(body, false);
    let number = body.take(n);
    let unit = body.skip(n);
    if has_digit(number) && (unit.len() == 0 || is_unit(unit)) {
        Some(TimeParts { negative: s.len() > 0 && s[0] == '-', number, unit })
    } else {
        None
    }
}

/// Is `s` a non-empty run of digits with single underscores between them?
pub open spec fn is_grouped(s: Seq<char>) -> bool {
    s.len() > 0 && forall|i: int|
        0 <= i < s.len() ==> is_digit(#[trigger] s[i]) || (s[i] == '_' && 0 < i < s.len() - 1
            && is_digit(s[i - 1]) && is_digit(s[i + 1]))
}

/// `s` without its underscores.
pub open spec fn ungrouped(s: Seq<char>) -> Seq<char>
    decreases s.len(),
{
    if s.len() == 0 {
        Seq::empty()
    } else if s.last() == '_' {
        ungrouped(s.drop_last())
    } else {
        ungrouped(s.drop_last()).push(s.last())
    }
}

/// An integer literal without its digit separators, if it is one.
pub open spec fn plain_integer(s: Seq<char>) -> Option<Seq<char>> {
    let body = unsigned_part(s);
    if is_grouped(body) {
        Some(s.take(s.len() - body.len()) + ungrouped(body))
    } else {
        None
    }
}

pub open spec fn invalid_time(original: Seq<char>) -> Seq<char> {
    "invalid time value "@ + repr(original)
        + "; expected integer ticks or value with fs/ps/ns/us/ms/s suffix"@
}

pub open spec fn too_large_time(original: Seq<char>) -> Seq<char> {
    "time value too large; got "@ + repr(original) + ", max ticks is 9223372036854775807"@
}

pub open spec fn negative_time(original: Seq<char>) -> Seq<char> {
    "time must be non-negative; got "@ + repr(original)
}

/// What a plain number of ticks means.
pub open spec fn ticks_of(num: Seq<char>, original: Seq<char>) -> Result<int, Seq<char>> {
    match plain_integer(num) {
        None => Err(invalid_time(original)),
        Some(c) => if is_i64_literal(c) {
            if literal_value(c) < 0 {
                Err(negative_time(original))
            } else {
                Ok(literal_value(c))
            }
        } else if c[0] == '+' || c[0] == '-' {
            Err(invalid_time(original))
        } else {
            Err(too_large_time(original))
        },
    }
}

/// Is every character a zero or a dot?
pub open spec fn is_zero(s: Seq<char>) -> bool {
    forall|i: int| 0 <= i < s.len() ==> #[trigger] s[i] == '0' || s[i] == '.'
}

/// What a time argument means.
pub open spec fn time_of<T: Timescale>(s: Seq<char>, ts: &T) -> Result<int, Seq<char>> {
    if byte_len(s) > MAX_TIME_ARG_LEN {
        Err("time value too long; max length is 100"@)
    } else {
        match time_parts(trimmed(s)) {
            None => ticks_of(trimmed(s), s),
            Some(p) => if p.negative && !is_zero(p.number) {
                Err(negative_time(s))
            } else if p.unit.len() == 0 {
                if has_char(p.number, '.') {
                    Err(
                        "bare numeric time must be integer ticks; got "@ + repr(s)
                            + ". Use a unit suffix for fractional times, e.g. "@ + p.number
                            + "ns"@,
                    )
                } else {
                    ticks_of(p.number, s)
                }
            } else if !ts.known() {
                Err("cannot convert time with unit because timescale is 0 or invalid"@)
            } else {
                match ts.scaled(p.number, p.unit) {
                    Scaled::Unreadable => Err("invalid time value "@ + repr(s)),
                    Scaled::NotFinite => Err(
                        "time value "@ + repr(s) + " is not finite"@,
                    ),
                    Scaled::Negative => Err(negative_time(s)),
                    Scaled::TooLarge => Err(too_large_time(s)),
                    Scaled::Ticks(v) => if v < 0 {
                        Err(negative_time(s))
                    } else {
                        Ok(v as int)
                    },
                }
            },
        }
    }
}

/// Does an outcome say the same as its meaning?
pub open spec fn time_agrees(
    r: Result<i64, TimeParseError>,
    meaning: Result<int, Seq<char>>,
) -> bool {
    match r {
        Ok(v) => meaning == Ok::<int, Seq<char>>(v as int),
        Err(e) => meaning == Err::<int, Seq<char>>(e.0@),
    }
}

fn invalid_error(original: &str) -> (e: TimeParseError)
    ensures
        e.0@ == invalid_time(original@),
{
    let mut m: String = "invalid time value ".to_owned();
    m.push_str(pyrepr(original).as_str());
    m.push_str("; expected integer ticks or value with fs/ps/ns/us/ms/s suffix");
    TimeParseError(m)
}

fn too_large_error(original: &str) -> (e: TimeParseError)
    ensures
        e.0@ == too_large_time(original@),
{
    let mut m: String = "time value too large; got ".to_owned();
    m.push_str(pyrepr(original).as_str());
    m.push_str(", max ticks is 9223372036854775807");
    TimeParseError(m)
}

fn negative_error(original: &str) -> (e: TimeParseError)
    ensures
        e.0@ == negative_time(original@),
{
    let mut m: String = "time must be non-negative; got ".to_owned();
    m.push_str(pyrepr(original).as_str());
    TimeParseError(m)
}

/// Remove the digit separators of an integer literal; `None` if it is not one.
pub fn strip_int_underscores(s: &str) -> (r: Option<String>)
    ensures
        match r {
            Some(c) => plain_integer(s@) == Some(c@),
            None => plain_integer(s@) is None,
        },
{
    let v: Vec<char> = chars_of(s);
    let start: usize = if v.len() > 0 && (v[0] == '+' || v[0] == '-') {
        1
    } else {
        0
    };
    let ghost body = unsigned_part(s@);
    assert(body =~= v@.skip(start as int));
    if start == v.len() {
        assert(body.len() == 0);
        return None;
    }
    let mut out: String = string_of(&v, 0, start);
    let ghost front = out@;
    assert(front =~= s@.take(s@.len() - body.len()));
    let mut i: usize = start;
    assert(body.take(0) =~= Seq::empty());
    assert(front + ungrouped(body.take(0)) =~= front);
    while i < v.len()
        invariant
            start <= i <= v.len(),
            body == v@.skip(start as int),
            body == unsigned_part(s@),
            body.len() > 0,
            out@ == front + ungrouped(body.take(i - start)),
            forall|k: int|
                0 <= k < i - start ==> is_digit(#[trigger] body[k]) || (body[k] == '_' && 0 < k
                    < body.len() - 1 && is_digit(body[k - 1]) && is_digit(body[k + 1])),
        decreases v.len() - i,
    {
        let c: char = v[i];
        assert(c == body[i - start]);
        let ghost t = body.take(i - start + 1);
        proof {
            assert(t.drop_last() =~= body.take(i - start));
            assert(t.last() == c);
        }
        if digit_test(c) {
            out.push(c);
            assert(out@ =~= front + ungrouped(t));
        } else if c == '_' {
            if i == start || !digit_test(v[i - 1]) || i + 1 >= v.len() || !digit_test(v[i + 1]) {
                proof {
                    if i > start {
                        assert(v@[i - 1] == body[i - start - 1]);
                    }
                    if i + 1 < v.len() {
                        assert(v@[i + 1] == body[i - start + 1]);
                    }
                    assert(!is_grouped(body)) by {
                        if is_grouped(body) {
                            assert(is_digit(body[i - start]) || body[i - start] == '_');
                        }
                    }
                }
                return None;
            }
            proof {
                assert(v@[i - 1] == body[i - start - 1]);
                assert(v@[i + 1] == body[i - start + 1]);
            }
        } else {
            assert(!is_grouped(body)) by {
                if is_grouped(body) {
                    assert(is_digit(body[i - start]) || body[i - start] == '_');
                }
            }
            return None;
        }
        i += 1;
    }
    assert(body.take(i - start) =~= body);
    assert(is_grouped(body));
    Some(out)
}

proof fn lemma_ungrouped_digits(s: Seq<char>)
    requires
        is_grouped(s),
    ensures
        is_decimal(ungrouped(s)),
{
    lemma_ungrouped_part(s, s.len() as int);
    assert(s.take(s.len() as int) =~= s);
    assert(is_digit(s[0]));
    lemma_ungrouped_grows(s, 1);
    assert(s.take(1).drop_last() =~= Seq::empty());
    assert(ungrouped(Seq::<char>::empty()) =~= Seq::empty());
    assert(ungrouped(s.take(1)).len() == 1);
}

proof fn lemma_ungrouped_part(s: Seq<char>, n: int)
    requires
        is_grouped(s),
        0 <= n <= s.len(),
    ensures
        forall|i: int| 0 <= i < ungrouped(s.take(n)).len() ==> is_digit(#[trigger] ungrouped(s.take(n))[i]),
    decreases n,
{
    if n > 0 {
        lemma_ungrouped_part(s, n - 1);
        assert(s.take(n).drop_last() =~= s.take(n - 1));
        assert(s.take(n).last() == s[n - 1]);
        assert(is_digit(s[n - 1]) || s[n - 1] == '_');
        let now = ungrouped(s.take(n));
        let was = ungrouped(s.take(n - 1));
        assert forall|i: int| 0 <= i < now.len() implies is_digit(#[trigger] now[i]) by {
            if i < was.len() {
                assert(now[i] == was[i]);
                assert(is_digit(was[i]));
            }
        }
    } else {
        assert(ungrouped(Seq::<char>::empty()).len() == 0);
        assert(s.take(0) =~= Seq::empty());
    }
}

proof fn lemma_ungrouped_grows(s: Seq<char>, n: int)
    requires
        0 <= n <= s.len(),
    ensures
        ungrouped(s.take(n)).len() <= ungrouped(s).len(),
    decreases s.len() - n,
{
    if n < s.len() {
        lemma_ungrouped_grows(s, n + 1);
        assert(s.take(n + 1).drop_last() =~= s.take(n));
    } else {
        assert(s.take(n) =~= s);
    }
}

/// Read a plain number of ticks.
pub fn parse_ticks_decimal(num: &str, original: &str) -> (r: Result<i64, TimeParseError>)
    ensures
        time_agrees(r, ticks_of(num@, original@)),
{
    match strip_int_underscores(num) {
        None => Err(invalid_error(original)),
        Some(c) => {
            let v: Vec<char> = chars_of(c.as_str());
            proof {
                let body = unsigned_part(num@);
                lemma_ungrouped_digits(body);
                assert(is_grouped(body));
                let front = num@.take(num@.len() - body.len());
                if front.len() == 0 {
                    assert(c@ =~= ungrouped(body));
                    assert(is_digit(c@[0]));
                    assert(unsigned_part(c@) =~= ungrouped(body));
                } else {
                    assert(c@[0] == num@[0]);
                    assert(unsigned_part(c@) =~= ungrouped(body));
                }
            }
            match parse_i64(c.as_str()) {
                Some(n) => {
                    if n < 0 {
                        Err(negative_error(original))
                    } else {
                        Ok(n)
                    }
                },
                None => {
                    if v[0] == '+' || v[0] == '-' {
                        Err(invalid_error(original))
                    } else {
                        Err(too_large_error(original))
                    }
                },
            }
        },
    }
}

/// The sign, number and unit of a time.
pub struct MatchedTime {
    pub negative: bool,
    pub number: String,
    pub unit: String,
}

impl View for MatchedTime {
    type V = TimeParts;

    open spec fn view(&self) -> TimeParts {
        TimeParts { negative: self.negative, number: self.number@, unit: self.unit@ }
    }
}

/// Cut a time into sign, number and unit.
pub fn match_time(s: &str) -> (r: Option<MatchedTime>)
    ensures
        match r {
            Some(m) => time_parts(s@) == Some(m@),
            None => time_parts(s@) is None,
        },
{
    let v: Vec<char> = chars_of(s);
    let start: usize = if v.len() > 0 && (v[0] == '+' || v[0] == '-') {
        1
    } else {
        0
    };
    let ghost body = unsigned_part(s@);
    assert(body =~= v@.skip(start as int));
    let mut i: usize = start;
    let mut dotted: bool = false;
    let mut digit: bool = false;
    let ghost n = number_length(body, false);
    assert(body.skip(0) =~= body);
    while i < v.len() && (digit_test(v[i]) || (v[i] == '.' && !dotted))
        invariant
            start <= i <= v.len(),
            body == v@.skip(start as int),
            n == i - start + number_length(body.skip(i - start), dotted),
            digit == has_digit(body.take(i - start)),
        decreases v.len() - i,
    {
        let ghost rest = body.skip(i - start);
        let c: char = v[i];
        proof {
            assert(rest[0] == c);
            assert(rest.drop_first() =~= body.skip(i - start + 1));
            let t = body.take(i - start);
            let t1 = body.take(i - start + 1);
            assert(t1[i - start] == c);
            if has_digit(t) {
                let k = choose|k: int| 0 <= k < t.len() && is_digit(#[trigger] t[k]);
                assert(is_digit(t1[k]));
            }
            if has_digit(t1) && !is_digit(c) {
                let k = choose|k: int| 0 <= k < t1.len() && is_digit(#[trigger] t1[k]);
                assert(t[k] == t1[k]);
            }
        }
        if digit_test(c) {
            digit = true;
        } else {
            dotted = true;
        }
        i += 1;
    }
    proof {
        let rest = body.skip(i - start);
        if i < v.len() {
            assert(rest[0] == v@[i as int]);
        }
        assert(number_length(rest, dotted) == 0);
    }
    let number: String = string_of(&v, start, i);
    let unit: String = string_of(&v, i, v.len());
    assert(number@ =~= body.take(n));
    assert(unit@ =~= body.skip(n));
    if digit && (i == v.len() || unit_test(unit.as_str())) {
        Some(MatchedTime { negative: v.len() > 0 && v[0] == '-', number, unit })
    } else {
        None
    }
}

fn zero_number(s: &str) -> (r: bool)
    ensures
        r == is_zero(s@),
{
    let v: Vec<char> = chars_of(s);
    let mut i: usize = 0;
    while i < v.len()
        invariant
            i <= v.len(),
            v@ == s@,
            forall|k: int| 0 <= k < i ==> #[trigger] s@[k] == '0' || s@[k] == '.',
        decreases v.len() - i,
    {
        if v[i] != '0' && v[i] != '.' {
            assert(s@[i as int] != '0');
            return false;
        }
        i += 1;
    }
    true
}

/// Read a time argument: a plain number of ticks, or a number with a unit.
pub fn parse_time<T: Timescale>(s: &str, ts: &T) -> (r: Result<i64, TimeParseError>)
    ensures
        time_agrees(r, time_of(s@, ts)),
{
    if bytes_in(s) > MAX_TIME_ARG_LEN {
        return Err(TimeParseError("time value too long; max length is 100".to_owned()));
    }
    let stripped: &str = trim(s);
    match match_time(stripped) {
        None => parse_ticks_decimal(stripped, s),
        Some(m) => {
            if m.negative && !zero_number(m.number.as_str()) {
                return Err(negative_error(s));
            }
            if m.unit.as_str().is_empty() {
                if crate::text::contains_char(m.number.as_str(), '.') {
                    let mut e: String = "bare numeric time must be integer ticks; got ".to_owned();
                    e.push_str(pyrepr(s).as_str());
                    e.push_str(". Use a unit suffix for fractional times, e.g. ");
                    e.push_str(m.number.as_str());
                    e.push_str("ns");
                    return Err(TimeParseError(e));
                }
                return parse_ticks_decimal(m.number.as_str(), s);
            }
            if !ts.is_known() {
                return Err(
                    TimeParseError(
                        "cannot convert time with unit because timescale is 0 or invalid".to_owned(),
                    ),
                );
            }
            match ts.scale(m.number.as_str(), m.unit.as_str()) {
                Scaled::Unreadable => {
                    let mut e: String = "invalid time value ".to_owned();
                    e.push_str(pyrepr(s).as_str());
                    Err(TimeParseError(e))
                },
                Scaled::NotFinite => {
                    let mut e: String = "time value ".to_owned();
                    e.push_str(pyrepr(s).as_str());
                    e.push_str(" is not finite");
                    Err(TimeParseError(e))
                },
                Scaled::Negative => Err(negative_error(s)),
                Scaled::TooLarge => Err(too_large_error(s)),
                Scaled::Ticks(v) => {
                    if v < 0 {
                        Err(negative_error(s))
                    } else {
                        Ok(v)
                    }
                },
            }
        },
    }
}

/// What `--begin` and `--end` mean.
pub open spec fn window_meaning<T: Timescale>(
    begin: Option<Seq<char>>,
    end: Option<Seq<char>>,
    ts: &T,
) -> Result<(int, Option<int>), Seq<char>> {
    let t0 = match begin {
        Some(b) => time_of(b, ts),
        None => Ok(0),
    };
    match t0 {
        Err(e) => Err(e),
        Ok(a) => match end {
            None => Ok((a, None)),
            Some(x) => match time_of(x, ts) {
                Err(e) => Err(e),
                Ok(b) => if b < a {
                    Err("end time must be >= begin time"@)
                } else {
                    Ok((a, Some(b)))
                },
            },
        },
    }
}

/// Read a time window; the end must not come before the beginning.
pub fn parse_window<T: Timescale>(begin: &Option<String>, end: &Option<String>, ts: &T) -> (r:
    Result<(i64, Option<i64>), String>)
    ensures
        match r {
            Ok(w) => window_meaning(crate::text::opt_view(*begin), crate::text::opt_view(*end), ts)
                == Ok::<(int, Option<int>), Seq<char>>((w.0 as int, crate::replay::opt_tick(w.1))),
            Err(e) => window_meaning(crate::text::opt_view(*begin), crate::text::opt_view(*end), ts)
                == Err::<(int, Option<int>), Seq<char>>(e@),
        },
{
    let t0: i64 = match begin {
        Some(b) => match parse_time(b.as_str(), ts) {
            Ok(t) => t,
            Err(e) => {
                return Err(e.0);
            },
        },
        None => 0,
    };
    match end {
        None => Ok((t0, None)),
        Some(x) => match parse_time(x.as_str(), ts) {
            Err(e) => Err(e.0),
            Ok(t1) => {
                if t1 < t0 {
                    Err("end time must be >= begin time".to_owned())
                } else {
                    Ok((t0, Some(t1)))
                }
            },
        },
    }
}

/// A time is never negative.
pub proof fn times_are_not_negative<T: Timescale>(s: Seq<char>, ts: &T)
    ensures
        time_of(s, ts) matches Ok(t) ==> t >= 0,
{
}

/// `s` without the zeros at its end, then without the dots at its end.
pub open spec fn without_trailing(s: Seq<char>, c: char) -> Seq<char>
    decreases s.len(),
{
    if s.len() > 0 && s.last() == c {
        without_trailing(s.drop_last(), c)
    } else {
        s
    }
}

/// A decimal number without the zeros at the end of its fraction.
pub open spec fn stripped_zeros(s: Seq<char>) -> Seq<char> {
    if !has_char(s, '.') {
        s
    } else {
        let t = without_trailing(without_trailing(s, '0'), '.');
        if t.len() == 0 || t == "-"@ {
            "0"@
        } else {
            t
        }
    }
}

fn trailing_cut(v: &Vec<char>, n: usize, c: char) -> (r: usize)
    requires
        n <= v.len(),
    ensures
        r <= n,
        v@.take(r as int) == without_trailing(v@.take(n as int), c),
{
    let mut r: usize = n;
    while r > 0 && v[r - 1] == c
        invariant
            r <= n <= v.len(),
            without_trailing(v@.take(n as int), c) == without_trailing(v@.take(r as int), c),
        decreases r,
    {
        assert(v@.take(r as int).last() == c);
        assert(v@.take(r as int).drop_last() =~= v@.take(r - 1));
        r -= 1;
    }
    proof {
        if r > 0 {
            assert(v@.take(r as int).last() == v@[r - 1]);
        }
    }
    r
}

/// Strip the zeros at the end of a decimal fraction.
pub fn strip_trailing_zeros(s: &str) -> (r: String)
    ensures
        r@ == stripped_zeros(s@),
{
    if !crate::text::contains_char(s, '.') {
        return s.to_owned();
    }
    let v: Vec<char> = chars_of(s);
    let a: usize = trailing_cut(&v, v.len(), '0');
    assert(v@.take(v.len() as int) =~= s@);
    let b: usize = trailing_cut(&v, a, '.');
    let t: String = string_of(&v, 0, b);
    assert(t@ =~= v@.take(b as int));
    if b == 0 || same(t.as_str(), "-") {
        "0".to_owned()
    } else {
        t
    }
}

/// A number written `d.ddddde±N`, cut at the `e`.
pub open spec fn exponent_parts(sci: Seq<char>) -> (Seq<char>, int) {
    match crate::text::find_from(sci, "e"@, 0) {
        None => (sci, 0),
        Some(p) => {
            let x = sci.skip(p + 1);
            if is_i64_literal(x) && i32::MIN <= literal_value(x) <= i32::MAX {
                (sci.take(p), literal_value(x))
            } else {
                (sci.take(p), 0)
            }
        },
    }
}

/// Cut a number in scientific notation into mantissa and exponent.
pub fn split_exp(sci: &str) -> (r: (String, i32))
    ensures
        (r.0@, r.1 as int) == exponent_parts(sci@),
{
    let v: Vec<char> = chars_of(sci);
    proof {
        reveal_strlit("e");
    }
    match crate::text::find_str(&v, "e") {
        None => (sci.to_owned(), 0),
        Some(p) => {
            let m: String = string_of(&v, 0, p);
            let x: String = string_of(&v, p + 1, v.len());
            assert(m@ =~= sci@.take(p as int));
            assert(x@ =~= sci@.skip(p + 1));
            match parse_i64(x.as_str()) {
                Some(n) => {
                    if -2147483648 <= n && n <= 2147483647 {
                        (m, n as i32)
                    } else {
                        (m, 0)
                    }
                },
                None => (m, 0),
            }
        },
    }
}

/// How a number with six significant digits is written.
pub enum GeneralForm {
    /// As this text.
    Text(String),
    /// In fixed notation with so many digits after the dot, trailing zeros
    /// stripped.
    Fixed(usize),
}

pub enum GeneralView {
    Text(Seq<char>),
    Fixed(nat),
}

impl View for GeneralForm {
    type V = GeneralView;

    open spec fn view(&self) -> GeneralView {
        match self {
            GeneralForm::Text(s) => GeneralView::Text(s@),
            GeneralForm::Fixed(n) => GeneralView::Fixed(*n as nat),
        }
    }
}

/// An exponent with a sign and at least two digits.
pub open spec fn exponent_text(e: int) -> Seq<char> {
    let m = if e < 0 {
        (-e) as nat
    } else {
        e as nat
    };
    let sign = if e < 0 {
        '-'
    } else {
        '+'
    };
    if m < 10 {
        seq!['e', sign, '0'] + crate::number::dec(m)
    } else {
        seq!['e', sign] + crate::number::dec(m)
    }
}

/// The form of a number with six significant digits, given in scientific
/// notation: small and large exponents keep it.
pub open spec fn general_of(sci: Seq<char>) -> GeneralView {
    let (m, e) = exponent_parts(sci);
    if e < -4 || e >= 6 {
        GeneralView::Text(stripped_zeros(m) + exponent_text(e))
    } else {
        GeneralView::Fixed((5 - e) as nat)
    }
}

/// Choose how to write a number given in scientific notation with six
/// significant digits.
pub fn general_form(sci: &str) -> (r: GeneralForm)
    ensures
        r@ == general_of(sci@),
{
    let (m, e) = split_exp(sci);
    if e < -4 || e >= 6 {
        let mut out: String = strip_trailing_zeros(m.as_str());
        out.push('e');
        let wide: i64 = e as i64;
        let mag: u64 = if wide < 0 {
            out.push('-');
            (-wide) as u64
        } else {
            out.push('+');
            wide as u64
        };
        if mag < 10 {
            out.push('0');
        }
        out.push_str(crate::number::u64_text(mag).as_str());
        assert(out@ =~= stripped_zeros(m@) + exponent_text(e as int));
        GeneralForm::Text(out)
    } else {
        GeneralForm::Fixed((5 - e) as usize)
    }
}

} // verus!
