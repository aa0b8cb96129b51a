//! What the texts of values say, and how many rows a limit lets through.

use vstd::prelude::*;

use crate::cli::ArgsView;
use crate::comparisons::{digits_read_back, leading_zeros_do_not_count, settled, state_from_right};
use crate::condition::{is_number, number_value};
use crate::format::{
    bits_value, four_states, has_unknown_bit, left_extended, padded_hex, repr, repr_body,
    repr_char, shown_bits, shown_width, value_compact, value_text, ValueKind,
};
use crate::number::{dec, decimal_round_trip, decimal_value, digit_char, digits, is_decimal};
use crate::report::{limit_view, shown_count};
use crate::sweep::{first_rows, rows_counted};
use crate::text::{has_char, repeated};

verus! {

proof fn lemma_settled_shown(raw: Seq<char>, width: u32)
    requires
        settled(raw),
        raw.len() <= shown_width(width),
    ensures
        shown_bits(raw, width) == raw,
        settled(left_extended(raw, shown_width(width))),
        !has_unknown_bit(left_extended(raw, shown_width(width))),
        bits_value(left_extended(raw, shown_width(width))) == bits_value(raw),
        left_extended(raw, shown_width(width)).len() == shown_width(width),
{
    assert(four_states(raw) =~= raw);
    let w = shown_width(width);
    let full = left_extended(raw, w);
    assert(raw[0] == '0' || raw[0] == '1');
    assert forall|i: int| 0 <= i < full.len() implies (#[trigger] full[i]) == '0' || full[i]
        == '1' by {
        if raw.len() < w {
            let k = w - raw.len();
            if i >= k {
                assert(full[i] == raw[i - k]);
            }
        }
    }
    if raw.len() < w {
        lemma_zeros(raw, (w - raw.len()) as nat);
    }
}

proof fn lemma_zeros(b: Seq<char>, n: nat)
    ensures
        bits_value(repeated('0', n) + b) == bits_value(b),
    decreases n,
{
    if n == 0 {
        assert(repeated('0', n) + b =~= b);
    } else {
        let less = repeated('0', (n - 1) as nat) + b;
        lemma_zeros(b, (n - 1) as nat);
        assert(repeated('0', n) + b =~= seq!['0'] + less);
        leading_zeros_do_not_count(less);
    }
}

proof fn lemma_hex_zeros(s: Seq<char>, n: nat)
    requires
        is_number(s, 16),
    ensures
        is_number(repeated('0', n) + s, 16),
        number_value(repeated('0', n) + s, 16) == number_value(s, 16),
    decreases s.len() + n,
{
    let all = repeated('0', n) + s;
    if n == 0 {
        assert(all =~= s);
    } else {
        let less = repeated('0', (n - 1) as nat) + s;
        lemma_hex_zeros(s, (n - 1) as nat);
        assert(all =~= seq!['0'] + less);
        lemma_hex_zero(less);
        assert forall|i: int| 0 <= i < all.len() implies crate::condition::digit_value(
            #[trigger] all[i],
        ) < 16 by {
            if i > 0 {
                assert(all[i] == less[i - 1]);
            }
        }
    }
}

proof fn lemma_hex_zero(s: Seq<char>)
    ensures
        number_value(seq!['0'] + s, 16) == number_value(s, 16),
    decreases s.len(),
{
    let all = seq!['0'] + s;
    if s.len() == 0 {
        assert(all.drop_last() =~= Seq::empty());
        assert(s =~= Seq::empty());
        assert(number_value(Seq::empty(), 16) == 0);
    } else {
        lemma_hex_zero(s.drop_last());
        assert(all.drop_last() =~= seq!['0'] + s.drop_last());
    }
}

/// The short text of settled bits: a single bit is itself; more of them are
/// `0x` and hexadecimal digits of the number they stand for, without zeros in
/// front.
pub proof fn compact_text_is_the_number(raw: Seq<char>, width: u32)
    requires
        settled(raw),
        raw.len() <= shown_width(width),
    ensures
        shown_width(width) == 1 ==> value_compact(raw, ValueKind::Bits, width) == raw,
        shown_width(width) > 1 ==> ({
            let s = value_compact(raw, ValueKind::Bits, width);
            &&& s.len() >= 3 && s[0] == '0' && s[1] == 'x'
            &&& is_number(s.skip(2), 16)
            &&& number_value(s.skip(2), 16) == bits_value(raw)
            &&& s[2] == '0' ==> s.len() == 3
        }),
{
    lemma_settled_shown(raw, width);
    let w = shown_width(width);
    let full = left_extended(raw, w);
    if w == 1 {
        assert(full == raw);
    } else {
        let n = bits_value(raw);
        let s = value_compact(raw, ValueKind::Bits, width);
        digits_read_back(n, 16);
        lemma_no_zero_in_front(n);
        assert(s.skip(2) =~= digits(n, 16));
        assert(s[2] == digits(n, 16)[0]);
    }
}

proof fn lemma_no_zero_in_front(n: nat)
    ensures
        digits(n, 16).len() > 0,
        digits(n, 16)[0] == '0' ==> digits(n, 16).len() == 1,
    decreases n,
{
    if n >= 16 {
        lemma_no_zero_in_front(n / 16);
        lemma_not_zero(n / 16);
        assert(digits(n, 16) == digits(n / 16, 16).push(digit_char(n % 16)));
        assert(digits(n, 16)[0] == digits(n / 16, 16)[0]);
    }
}

proof fn lemma_not_zero(n: nat)
    requires
        n > 0,
    ensures
        digits(n, 16)[0] != '0',
    decreases n,
{
    if n >= 16 {
        lemma_not_zero(n / 16);
        assert(digits(n, 16)[0] == digits(n / 16, 16)[0]) by {
            lemma_no_zero_in_front(n / 16);
        }
    } else {
        assert(digit_char(n) as int == if n < 10 {
            48 + n as int
        } else {
            87 + n as int
        });
    }
}

/// The long text of settled bits: a single bit is itself; more of them are the
/// number they stand for, in decimal and then in hexadecimal with a digit at
/// least for every four bits.
pub proof fn long_text_is_the_number(raw: Seq<char>, width: u32)
    requires
        settled(raw),
        raw.len() <= shown_width(width),
    ensures
        shown_width(width) == 1 ==> value_text(raw, ValueKind::Bits, width) == raw,
        shown_width(width) > 1 ==> exists|d: Seq<char>, h: Seq<char>|
            value_text(raw, ValueKind::Bits, width) == #[trigger] (d + " (0x"@) + #[trigger] (h + ")"@)
                && is_decimal(d) && decimal_value(d) == bits_value(raw) && is_number(h, 16)
                && number_value(h, 16) == bits_value(raw) && 4 * h.len() >= shown_width(width),
{
    reveal_strlit(" (0x");
    reveal_strlit(")");
    lemma_settled_shown(raw, width);
    let w = shown_width(width);
    if w == 1 {
    } else {
        let n = bits_value(raw);
        let core = digits(n, 16);
        let h = padded_hex(n, (w + 3) / 4);
        let d = dec(n);
        decimal_round_trip(n);
        digits_read_back(n, 16);
        if core.len() < (w + 3) / 4 {
            lemma_hex_zeros(core, ((w + 3) / 4 - core.len()) as nat);
        }
        assert(value_text(raw, ValueKind::Bits, width) =~= (d + " (0x"@) + (h + ")"@));
    }
}

/// Bits of which one is unknown, or more of them than the signal is wide, are
/// shown as `b` and a state for every place of the signal.
pub proof fn unknown_text_is_the_states(raw: Seq<char>, width: u32, k: int)
    requires
        raw.len() <= shown_width(width),
        has_unknown_bit(four_states(raw)),
        0 <= k < shown_width(width),
    ensures
        ({
            let s = value_compact(raw, ValueKind::Bits, width);
            &&& s.len() == shown_width(width) + 1
            &&& s[0] == 'b'
            &&& s[s.len() - 1 - k] == state_from_right(four_states(raw), k)
            &&& shown_width(width) > 1 ==> value_text(raw, ValueKind::Bits, width) == s
            &&& shown_width(width) == 1 ==> value_text(raw, ValueKind::Bits, width)
                == four_states(raw)
        }),
{
    let w = shown_width(width);
    let bits = four_states(raw);
    let full = left_extended(bits, w);
    assert(has_unknown_bit(full)) by {
        let c = if has_char(bits, 'x') {
            'x'
        } else {
            'z'
        };
        let i = choose|i: int| 0 <= i < bits.len() && bits[i] == c;
        assert(full[full.len() - bits.len() + i] == c);
    }
    assert(full[w - 1 - k] == state_from_right(bits, k));
    assert(seq!['b'] + full =~= value_compact(raw, ValueKind::Bits, width));
}

/// More bits than the signal is wide are unknown throughout.
pub proof fn overlong_bits_are_unknown(raw: Seq<char>, width: u32, k: int)
    requires
        raw.len() > shown_width(width),
        0 <= k < shown_width(width),
    ensures
        value_compact(raw, ValueKind::Bits, width).len() == shown_width(width) + 1,
        value_compact(raw, ValueKind::Bits, width)[0] == 'b',
        value_compact(raw, ValueKind::Bits, width)[k + 1] == 'x',
{
    let w = shown_width(width);
    let full = left_extended(repeated('x', w), w);
    assert(full[0] == 'x');
    assert(has_char(full, 'x'));
    assert(value_compact(raw, ValueKind::Bits, width) =~= seq!['b'] + full);
}

/// What is not a logic value is shown as recorded, and an event by a word.
pub proof fn other_values_are_shown_as_recorded(raw: Seq<char>, width: u32)
    ensures
        value_text(raw, ValueKind::Real, width) == raw,
        value_text(raw, ValueKind::Str, width) == raw,
        value_compact(raw, ValueKind::Real, width) == raw,
        value_compact(raw, ValueKind::Str, width) == raw,
        value_text(raw, ValueKind::Event, width) == "triggered"@,
        value_compact(raw, ValueKind::Event, width) == "triggered"@,
{
}

/// Settled bits that stand for different numbers are shown differently, in
/// either form.
pub proof fn numbers_are_shown_apart(a: Seq<char>, b: Seq<char>, width: u32)
    requires
        settled(a),
        settled(b),
        a.len() <= shown_width(width),
        b.len() <= shown_width(width),
        bits_value(a) != bits_value(b),
    ensures
        value_compact(a, ValueKind::Bits, width) != value_compact(b, ValueKind::Bits, width),
        value_text(a, ValueKind::Bits, width) != value_text(b, ValueKind::Bits, width),
{
    compact_text_is_the_number(a, width);
    compact_text_is_the_number(b, width);
    lemma_settled_shown(a, width);
    lemma_settled_shown(b, width);
    let w = shown_width(width);
    if w > 1 {
        let m = bits_value(a);
        let n = bits_value(b);
        let s = value_text(a, ValueKind::Bits, width);
        let t = value_text(b, ValueKind::Bits, width);
        decimal_round_trip(m);
        decimal_round_trip(n);
        assert(s[dec(m).len() as int] == ' ');
        assert(t[dec(n).len() as int] == ' ');
        assert(s.take(dec(m).len() as int) =~= dec(m));
        assert(t.take(dec(n).len() as int) =~= dec(n));
        if s == t {
            if dec(m).len() < dec(n).len() {
                let i = dec(m).len() as int;
                assert(t[i] == dec(n)[i]);
                assert(crate::number::is_digit(dec(n)[i]));
            } else if dec(n).len() < dec(m).len() {
                let i = dec(n).len() as int;
                assert(s[i] == dec(m)[i]);
                assert(crate::number::is_digit(dec(m)[i]));
            }
        }
    }
}

/// The quoted form of a text without quotes, backslashes and control
/// characters is the text between single quotes.
pub proof fn plain_text_is_quoted_as_it_is(s: Seq<char>)
    requires
        forall|i: int|
            0 <= i < s.len() ==> (#[trigger] s[i]) != '\'' && s[i] != '"' && s[i] != '\\' && s[i]
                as int >= 0x20 && s[i] as int != 0x7f,
    ensures
        repr(s) == seq!['\''] + s + seq!['\''],
{
    lemma_plain_body(s);
}

proof fn lemma_plain_body(s: Seq<char>)
    requires
        forall|i: int|
            0 <= i < s.len() ==> (#[trigger] s[i]) != '\'' && s[i] != '\\' && s[i] as int >= 0x20
                && s[i] as int != 0x7f,
    ensures
        repr_body(s, '\'') == s,
    decreases s.len(),
{
    if s.len() > 0 {
        let less = s.drop_last();
        assert forall|i: int| 0 <= i < less.len() implies (#[trigger] less[i]) != '\'' && less[i]
            != '\\' && less[i] as int >= 0x20 && less[i] as int != 0x7f by {
            assert(less[i] == s[i]);
        }
        lemma_plain_body(less);
        let c = s[s.len() - 1];
        assert(c != '\'' && c != '\\' && c as int >= 0x20);
        assert(repr_char(c, '\'') == seq![c]);
        assert(less + seq![c] =~= s);
    } else {
        assert(s =~= Seq::empty());
    }
}

// ---- limits ----

/// The limit asked for counts; zero or less means that there is none. Without
/// one, five hundred rows are shown, and all of them with `--verbose`.
pub proof fn limit_is_as_asked(a: ArgsView)
    ensures
        a.limit matches Some(n) ==> 1 <= n <= usize::MAX ==> limit_view(a) == n,
        a.limit matches Some(n) ==> n <= 0 ==> limit_view(a) == 0,
        a.limit is None && a.verbose ==> limit_view(a) == 0,
        a.limit is None && !a.verbose ==> limit_view(a) == 500,
{
}

/// No more rows are shown than there are, and no more than the limit; but as
/// many as both allow. Limit zero shows all.
pub proof fn limit_caps_the_rows(total: int, limit: int)
    requires
        total >= 0,
        limit >= 0,
    ensures
        shown_count(total, 0) == total,
        shown_count(total, limit) <= total,
        limit > 0 ==> shown_count(total, limit) <= limit,
        shown_count(total, limit) < total ==> shown_count(total, limit) == limit && limit > 0,
{
}

/// The rows shown are the first ones, as many as the limit allows; and of how
/// many there are it is counted no further than one beyond the limit.
pub proof fn limit_keeps_the_first<A>(rows: Seq<A>, limit: usize)
    ensures
        first_rows(rows, limit).len() == shown_count(rows.len() as int, limit as int),
        forall|i: int|
            0 <= i < first_rows(rows, limit).len() ==> #[trigger] first_rows(rows, limit)[i]
                == rows[i],
        rows_counted(rows.len(), limit) >= first_rows(rows, limit).len(),
        rows_counted(rows.len(), limit) <= rows.len(),
        rows_counted(rows.len(), limit) > first_rows(rows, limit).len() <==> rows.len()
            > first_rows(rows, limit).len(),
        first_rows(rows, limit).len() == rows.len() ==> rows_counted(rows.len(), limit)
            == rows.len(),
{
}

} // verus!
