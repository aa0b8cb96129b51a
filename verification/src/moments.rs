//! What written times mean.

use vstd::prelude::*;

use crate::number::{
    dec, decimal_round_trip, decimal_value, is_decimal, is_digit, unsigned_part,
};
use crate::text::{byte_len, has_char, trimmed};
use crate::time::{
    has_digit, is_unit, is_zero, negative_time, number_length, plain_integer, ticks_of, time_of,
    time_parts, times_are_not_negative, ungrouped, window_meaning, Scaled, TimeParts, Timescale,
};

verus! {

/// Is the text a number: digits, with at most one point among them?
pub open spec fn is_plain_number(s: Seq<char>) -> bool {
    &&& has_digit(s)
    &&& forall|i: int| 0 <= i < s.len() ==> is_digit(#[trigger] s[i]) || s[i] == '.'
    &&& forall|i: int, j: int|
        0 <= i < j < s.len() ==> !(#[trigger] s[i] == '.' && #[trigger] s[j] == '.')
}

proof fn lemma_number_length(num: Seq<char>, rest: Seq<char>, dotted: bool)
    requires
        forall|i: int| 0 <= i < num.len() ==> is_digit(#[trigger] num[i]) || num[i] == '.',
        forall|i: int, j: int|
            0 <= i < j < num.len() ==> !(#[trigger] num[i] == '.' && #[trigger] num[j] == '.'),
        dotted ==> forall|i: int| 0 <= i < num.len() ==> #[trigger] num[i] != '.',
        rest.len() > 0 ==> !is_digit(rest[0]) && rest[0] != '.',
    ensures
        number_length(num + rest, dotted) == num.len(),
    decreases num.len(),
{
    let all = num + rest;
    if num.len() == 0 {
        assert(all =~= rest);
    } else {
        let less = num.drop_first();
        assert(all.drop_first() =~= less + rest);
        assert(all[0] == num[0]);
        assert(is_digit(num[0]) || num[0] == '.');
        assert forall|i: int| 0 <= i < less.len() implies is_digit(#[trigger] less[i]) || less[i]
            == '.' by {
            assert(less[i] == num[i + 1]);
        }
        assert forall|i: int, j: int| 0 <= i < j < less.len() implies !(#[trigger] less[i] == '.'
            && #[trigger] less[j] == '.') by {
            assert(less[i] == num[i + 1] && less[j] == num[j + 1]);
        }
        let then = dotted || num[0] == '.';
        if then {
            assert forall|i: int| 0 <= i < less.len() implies #[trigger] less[i] != '.' by {
                assert(less[i] == num[i + 1]);
                assert(!(num[0] == '.' && num[i + 1] == '.'));
            }
        }
        lemma_number_length(less, rest, then);
    }
}

proof fn lemma_unit_starts(unit: Seq<char>)
    requires
        is_unit(unit),
    ensures
        unit.len() > 0,
        !is_digit(unit[0]),
        unit[0] != '.',
{
    reveal_strlit("fs");
    reveal_strlit("ps");
    reveal_strlit("ns");
    reveal_strlit("us");
    reveal_strlit("ms");
    reveal_strlit("s");
}

/// A number with a unit is cut where the unit begins.
pub proof fn times_are_cut_at_the_unit(num: Seq<char>, unit: Seq<char>)
    requires
        is_plain_number(num),
        unit.len() == 0 || is_unit(unit),
    ensures
        time_parts(num + unit) == Some(TimeParts { negative: false, number: num, unit }),
        time_parts(seq!['+'] + (num + unit)) == Some(
            TimeParts { negative: false, number: num, unit },
        ),
        time_parts(seq!['-'] + (num + unit)) == Some(
            TimeParts { negative: true, number: num, unit },
        ),
{
    if unit.len() > 0 {
        lemma_unit_starts(unit);
    }
    lemma_number_length(num, unit, false);
    let s = num + unit;
    assert(num.len() > 0);
    assert(s[0] == num[0]);
    assert(is_digit(num[0]) || num[0] == '.');
    assert(s.take(num.len() as int) =~= num);
    assert(s.skip(num.len() as int) =~= unit);
    assert((seq!['+'] + s).drop_first() =~= s);
    assert((seq!['-'] + s).drop_first() =~= s);
}

proof fn lemma_ungrouped(s: Seq<char>)
    requires
        forall|i: int| 0 <= i < s.len() ==> is_digit(#[trigger] s[i]),
    ensures
        ungrouped(s) == s,
    decreases s.len(),
{
    if s.len() > 0 {
        assert forall|i: int| 0 <= i < s.drop_last().len() implies is_digit(
            #[trigger] s.drop_last()[i],
        ) by {
            assert(s.drop_last()[i] == s[i]);
        }
        lemma_ungrouped(s.drop_last());
        assert(is_digit(s[s.len() - 1]));
        assert(s.drop_last().push(s.last()) =~= s);
    } else {
        assert(s =~= Seq::empty());
    }
}

proof fn lemma_ticks(num: Seq<char>, original: Seq<char>)
    requires
        is_decimal(num),
    ensures
        decimal_value(num) <= i64::MAX ==> ticks_of(num, original) == Ok::<int, Seq<char>>(
            decimal_value(num) as int,
        ),
        decimal_value(num) > i64::MAX ==> ticks_of(num, original) is Err,
{
    assert(is_digit(num[0]));
    assert(unsigned_part(num) == num);
    lemma_ungrouped(num);
    assert(num.take(0) + num =~= num);
}

/// Decimal digits alone are that many ticks, as far as a tick can be counted.
pub proof fn digits_are_ticks<T: Timescale>(s: Seq<char>, ts: &T)
    requires
        is_decimal(trimmed(s)),
        byte_len(s) <= 100,
    ensures
        decimal_value(trimmed(s)) <= i64::MAX ==> time_of(s, ts) == Ok::<int, Seq<char>>(
            decimal_value(trimmed(s)) as int,
        ),
        decimal_value(trimmed(s)) > i64::MAX ==> time_of(s, ts) is Err,
{
    let num = trimmed(s);
    lemma_decimal_is_plain(num);
    times_are_cut_at_the_unit(num, Seq::empty());
    assert(num + Seq::<char>::empty() =~= num);
    lemma_ticks(num, s);
}

proof fn lemma_decimal_is_plain(num: Seq<char>)
    requires
        is_decimal(num),
    ensures
        is_plain_number(num),
        !has_char(num, '.'),
{
    assert(is_digit(num[0]));
    if has_char(num, '.') {
        let i = choose|i: int| 0 <= i < num.len() && num[i] == '.';
        assert(is_digit(num[i]));
    }
}

/// A tick written out is read as that tick.
pub proof fn written_ticks_read_back<T: Timescale>(n: nat, s: Seq<char>, ts: &T)
    requires
        n <= i64::MAX,
        trimmed(s) == dec(n),
        byte_len(s) <= 100,
    ensures
        time_of(s, ts) == Ok::<int, Seq<char>>(n as int),
{
    decimal_round_trip(n);
    digits_are_ticks(s, ts);
}

/// A sign in front: plus changes nothing, minus is refused of all but zero.
pub proof fn signs_of_times<T: Timescale>(num: Seq<char>, unit: Seq<char>, s: Seq<char>, ts: &T)
    requires
        is_plain_number(num),
        unit.len() == 0 || is_unit(unit),
        byte_len(s) <= 100,
        trimmed(s) == seq!['-'] + (num + unit),
        !is_zero(num),
    ensures
        time_of(s, ts) == Err::<int, Seq<char>>(negative_time(s)),
{
    times_are_cut_at_the_unit(num, unit);
}

/// A number with a unit means what the timescale makes of just these two; it is
/// refused where the timescale is not known.
pub proof fn units_are_scaled<T: Timescale>(num: Seq<char>, unit: Seq<char>, s: Seq<char>, ts: &T)
    requires
        is_plain_number(num),
        is_unit(unit),
        byte_len(s) <= 100,
        trimmed(s) == num + unit || trimmed(s) == seq!['+'] + (num + unit),
    ensures
        !ts.known() ==> time_of(s, ts) is Err,
        ts.known() ==> (ts.scaled(num, unit) matches Scaled::Ticks(v) ==> v >= 0 ==> time_of(s, ts)
            == Ok::<int, Seq<char>>(v as int)),
        ts.known() ==> (time_of(s, ts) is Ok ==> ts.scaled(num, unit) is Ticks),
{
    lemma_unit_starts(unit);
    times_are_cut_at_the_unit(num, unit);
}

/// A number with a point needs a unit.
pub proof fn fractions_need_a_unit<T: Timescale>(num: Seq<char>, s: Seq<char>, ts: &T)
    requires
        is_plain_number(num),
        has_char(num, '.'),
        trimmed(s) == num,
    ensures
        time_of(s, ts) is Err,
{
    times_are_cut_at_the_unit(num, Seq::empty());
    assert(num + Seq::<char>::empty() =~= num);
}

/// Underscores between digits are passed over.
pub proof fn underscores_do_not_count<T: Timescale>(x: Seq<char>, y: Seq<char>, s: Seq<char>, ts: &T)
    requires
        is_decimal(x),
        is_decimal(y),
        trimmed(s) == x + seq!['_'] + y,
        byte_len(s) <= 100,
        decimal_value(x + y) <= i64::MAX,
    ensures
        time_of(s, ts) == Ok::<int, Seq<char>>(decimal_value(x + y) as int),
{
    let t = x + seq!['_'] + y;
    let n = x.len() as int;
    lemma_decimal_is_plain(x);
    lemma_number_length(x, seq!['_'] + y, false);
    assert(t =~= x + (seq!['_'] + y));
    assert(is_digit(x[0]) && t[0] == x[0]);
    assert(t.skip(n) =~= seq!['_'] + y);
    assert(time_parts(t) is None) by {
        let unit = t.skip(n);
        if is_unit(unit) {
            reveal_strlit("fs");
            reveal_strlit("ps");
            reveal_strlit("ns");
            reveal_strlit("us");
            reveal_strlit("ms");
            reveal_strlit("s");
            assert(unit[0] == '_');
        }
    }
    assert(unsigned_part(t) == t);
    assert forall|i: int| 0 <= i < t.len() implies is_digit(#[trigger] t[i]) || (t[i] == '_' && 0
        < i < t.len() - 1 && is_digit(t[i - 1]) && is_digit(t[i + 1])) by {
        if i < n {
            assert(t[i] == x[i]);
        } else if i > n {
            assert(t[i] == y[i - n - 1]);
        } else {
            assert(t[n - 1] == x[n - 1]);
            assert(t[n + 1] == y[0]);
        }
    }
    lemma_ungrouped_join(x, y);
    assert(t.take(0) + ungrouped(t) =~= x + y);
    let c = x + y;
    assert(plain_integer(t) == Some(c));
    assert forall|i: int| 0 <= i < c.len() implies is_digit(#[trigger] c[i]) by {
        if i < n {
            assert(c[i] == x[i]);
        } else {
            assert(c[i] == y[i - n]);
        }
    }
    assert(c[0] == x[0]);
    assert(unsigned_part(c) == c);
}

proof fn lemma_ungrouped_join(x: Seq<char>, y: Seq<char>)
    requires
        is_decimal(x),
        forall|i: int| 0 <= i < y.len() ==> is_digit(#[trigger] y[i]),
    ensures
        ungrouped(x + seq!['_'] + y) == x + y,
    decreases y.len(),
{
    let t = x + seq!['_'] + y;
    if y.len() == 0 {
        assert(t.drop_last() =~= x);
        lemma_ungrouped(x);
        assert(x + y =~= x);
    } else {
        let less = y.drop_last();
        assert forall|i: int| 0 <= i < less.len() implies is_digit(#[trigger] less[i]) by {
            assert(less[i] == y[i]);
        }
        lemma_ungrouped_join(x, less);
        assert(t.drop_last() =~= x + seq!['_'] + less);
        assert(is_digit(y[y.len() - 1]));
        assert((x + less).push(y.last()) =~= x + y);
    }
}

/// A window begins where it is asked to, and at zero otherwise; it ends where
/// it is asked to, and is open otherwise; and an end before the beginning is
/// refused.
pub proof fn windows_are_as_asked<T: Timescale>(
    begin: Option<Seq<char>>,
    end: Option<Seq<char>>,
    ts: &T,
)
    ensures
        window_meaning(begin, end, ts) matches Ok((lo, hi)) ==> {
            &&& begin matches Some(b) ==> time_of(b, ts) == Ok::<int, Seq<char>>(lo)
            &&& begin is None ==> lo == 0
            &&& end matches Some(e) ==> hi is Some && time_of(e, ts) == Ok::<int, Seq<char>>(hi->0)
            &&& end is None ==> hi is None
            &&& hi matches Some(h) ==> lo <= h
            &&& 0 <= lo
        },
        window_meaning(begin, end, ts) is Err <==> (begin matches Some(b) && time_of(b, ts) is Err)
            || (end matches Some(e) && time_of(e, ts) is Err) || (end matches Some(e) && time_of(
            e,
            ts,
        )->Ok_0 < (match begin {
            Some(b) => time_of(b, ts)->Ok_0,
            None => 0,
        })),
{
    if let Some(b) = begin {
        times_are_not_negative(b, ts);
    }
}

} // verus!
