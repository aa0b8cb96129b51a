//! What the terms of a condition mean, said of the bits and texts themselves,
//! and that reading a condition keeps its meaning.

use vstd::prelude::*;

use crate::clauses::{
    bound, bound_clause, bound_clauses, bound_terms, has_clause, has_term, is_mixed, same_clause,
    same_term,
};
use crate::cli::ArgsView;
use crate::condition::{
    all_states, clause_of, csv_items, cut_at_operator, digit_value, is_changed_term, is_known_bit,
    is_number, is_plain_bit, is_state, number_value, target_of, term_match, term_of, terms_of,
    ConditionView, Op, TargetView, TermView,
};
use crate::filter::MatchMode;
use crate::format::{bits_value, four_states, left_extended, ValueKind};
use crate::model::WaveView;
use crate::number::{decimal_value, digit_char, digits, is_decimal, is_digit};
use crate::report::choice_of;
use crate::resolve::show_meant;
use crate::search::{hits_of, search_of, search_over, search_window};
use crate::search_rows::{is_found, search_finds_what_holds, texts_at, wave_ok};
use crate::select::SelectionView;
use crate::signal::SignalView;
use crate::sweep::{any_clause, clause_holds, cond_holds, BoundView, CondView};
use crate::text::{byte_len, find_is_first, has_char, lowercase, occurs_at, trimmed};
use crate::time::Timescale;
use crate::words::lists_are_cut_at_commas;

verus! {

/// Are the bits settled: one at least, and each `0` or `1`?
pub open spec fn settled(b: Seq<char>) -> bool {
    b.len() > 0 && forall|i: int| 0 <= i < b.len() ==> (#[trigger] b[i]) == '0' || b[i] == '1'
}

proof fn lemma_settled_value(b: Seq<char>)
    requires
        forall|i: int| 0 <= i < b.len() ==> (#[trigger] b[i]) == '0' || b[i] == '1',
    ensures
        four_states(b) == b,
        number_value(b, 2) == bits_value(b),
    decreases b.len(),
{
    assert(four_states(b) =~= b);
    if b.len() > 0 {
        let less = b.drop_last();
        assert forall|i: int| 0 <= i < less.len() implies (#[trigger] less[i]) == '0' || less[i]
            == '1' by {
            assert(less[i] == b[i]);
        }
        lemma_settled_value(less);
        assert(b[b.len() - 1] == '0' || b[b.len() - 1] == '1');
    }
}

/// Of settled bits and a number, whatever the width: `=` and `==` hold just when
/// the bits stand for the number, `!=` just when they do not.
pub proof fn numbers_compare_by_value(b: Seq<char>, raw: Seq<char>, target: TargetView, width: nat)
    requires
        settled(b),
        target.int is Some,
    ensures
        term_match(Some(b), Some(raw), Op::Eq, target, width) <==> bits_value(b) == target.int->0,
        term_match(Some(b), Some(raw), Op::EqEq, target, width) <==> bits_value(b) == target.int->0,
        term_match(Some(b), Some(raw), Op::Ne, target, width) <==> bits_value(b) != target.int->0,
{
    lemma_settled_value(b);
    assert forall|i: int| 0 <= i < b.len() implies is_known_bit(#[trigger] b[i]) && is_plain_bit(
        b[i],
    ) by {}
}

/// The bits of a number, highest first, stand for it whatever zeros come before
/// them.
pub proof fn leading_zeros_do_not_count(b: Seq<char>)
    ensures
        bits_value(seq!['0'] + b) == bits_value(b),
    decreases b.len(),
{
    if b.len() > 0 {
        leading_zeros_do_not_count(b.drop_last());
        assert((seq!['0'] + b).drop_last() =~= seq!['0'] + b.drop_last());
    } else {
        assert((seq!['0'] + b).drop_last() =~= Seq::empty());
        assert(b =~= Seq::empty());
    }
}

/// One more bit at the low end doubles the number, and adds one if it is set.
pub proof fn a_bit_doubles(b: Seq<char>, c: char)
    ensures
        bits_value(b.push(c)) == 2 * bits_value(b) + (if c == '1' {
            1int
        } else {
            0int
        }),
{
    assert(b.push(c).drop_last() =~= b);
}

/// Of settled bits `!=` is the opposite of `=`, whatever the target is.
pub proof fn ne_is_not_eq(b: Seq<char>, raw: Seq<char>, target: TargetView, width: nat)
    requires
        settled(b),
    ensures
        term_match(Some(b), Some(raw), Op::Ne, target, width) == !term_match(
            Some(b),
            Some(raw),
            Op::Eq,
            target,
            width,
        ),
{
    assert forall|i: int| 0 <= i < b.len() implies is_plain_bit(#[trigger] b[i]) by {}
}

/// A signal without a value satisfies nothing; an unknown or weak bit satisfies
/// no `!=`; an unknown bit is no number; and what is not a logic value satisfies
/// nothing but the text it equals.
pub proof fn nothing_holds_of_the_unknown(
    b: Seq<char>,
    raw: Seq<char>,
    op: Op,
    target: TargetView,
    width: nat,
    i: int,
)
    ensures
        !term_match(Some(b), None, op, target, width),
        0 <= i < b.len() && b[i] != '0' && b[i] != '1' ==> !term_match(
            Some(b),
            Some(raw),
            Op::Ne,
            target,
            width,
        ),
        0 <= i < b.len() && b[i] != '0' && b[i] != '1' && b[i] != 'h' && b[i] != 'H' && b[i] != 'l'
            && b[i] != 'L' && target.int is Some ==> !term_match(
            Some(b),
            Some(raw),
            Op::Eq,
            target,
            width,
        ),
        !term_match(None, Some(raw), Op::Ne, target, width),
        term_match(None, Some(raw), Op::Eq, target, width) <==> target.int is None && raw
            == target.raw,
{
    if 0 <= i < b.len() && b[i] != '0' && b[i] != '1' {
        assert(!is_plain_bit(b[i]));
        if b[i] != 'h' && b[i] != 'H' && b[i] != 'l' && b[i] != 'L' {
            assert(!is_known_bit(b[i]));
        }
    }
}

/// The state of a logic value at a place counted from the low end: beyond its
/// own bits, its highest one if that is unknown, and zero otherwise.
pub open spec fn state_from_right(b: Seq<char>, k: int) -> char {
    if k < b.len() {
        b[b.len() - 1 - k]
    } else if b.len() > 0 && (b[0] == 'x' || b[0] == 'z') {
        b[0]
    } else {
        '0'
    }
}

/// A logic value matches a pattern of states just when they agree at every
/// place of the signal, both counted from the low end.
pub proof fn patterns_compare_by_place(b: Seq<char>, raw: Seq<char>, target: TargetView, width: nat)
    requires
        target.int is None,
        target.raw.len() <= width,
        b.len() <= width,
    ensures
        term_match(Some(b), Some(raw), Op::Eq, target, width) <==> forall|k: int|
            0 <= k < width ==> state_from_right(four_states(b), k) == #[trigger] state_from_right(
                target.raw,
                k,
            ),
{
    let x = left_extended(four_states(b), width);
    let y = left_extended(target.raw, width);
    assert(x.len() == width && y.len() == width);
    assert forall|k: int| 0 <= k < width implies x[width - 1 - k] == state_from_right(
        four_states(b),
        k,
    ) && y[width - 1 - k] == #[trigger] state_from_right(target.raw, k) by {}
    if forall|k: int|
        0 <= k < width ==> state_from_right(four_states(b), k) == #[trigger] state_from_right(
            target.raw,
            k,
        ) {
        assert forall|i: int| 0 <= i < width implies x[i] == y[i] by {
            let k = width - 1 - i;
            assert(state_from_right(four_states(b), k) == state_from_right(target.raw, k));
        }
        assert(x =~= y);
    }
}

/// The states of a logic value: `0` and `1` stand for themselves, as do `x` and
/// `z`; the weak forms are read as the strong ones.
pub proof fn states_are_kept(b: Seq<char>, i: int)
    requires
        0 <= i < b.len(),
    ensures
        four_states(b).len() == b.len(),
        is_state(b[i]) ==> four_states(b)[i] == b[i],
        b[i] == 'h' || b[i] == 'H' ==> four_states(b)[i] == '1',
        b[i] == 'l' || b[i] == 'L' ==> four_states(b)[i] == '0',
        is_state(four_states(b)[i]),
{
    if 'A' <= b[i] && b[i] <= 'Z' {
        assert(crate::text::ascii_lower(b[i]) as int == b[i] as int + 32);
    }
}

/// Weak bits count as the strong ones: a value without unknown bits equals the
/// number that its states stand for.
pub proof fn weak_bits_count_as_strong(b: Seq<char>, raw: Seq<char>, target: TargetView, width: nat)
    requires
        b.len() > 0,
        forall|i: int|
            0 <= i < b.len() ==> (#[trigger] b[i]) == '0' || b[i] == '1' || b[i] == 'h' || b[i] == 'l'
                || b[i] == 'H' || b[i] == 'L',
        target.int is Some,
    ensures
        settled(four_states(b)),
        term_match(Some(b), Some(raw), Op::Eq, target, width) <==> bits_value(four_states(b))
            == target.int->0,
{
    let f = four_states(b);
    assert forall|i: int| 0 <= i < f.len() implies (#[trigger] f[i]) == '0' || f[i] == '1' by {
        states_are_kept(b, i);
        assert(b[i] == '0' || b[i] == '1' || b[i] == 'h' || b[i] == 'l' || b[i] == 'H' || b[i]
            == 'L');
    }
    lemma_settled_value(f);
    assert forall|i: int| 0 <= i < b.len() implies is_known_bit(#[trigger] b[i]) by {}
}

/// A pattern of more states than the signal is wide matches nothing.
pub proof fn overlong_patterns_match_nothing(
    b: Seq<char>,
    raw: Seq<char>,
    target: TargetView,
    width: nat,
)
    requires
        target.int is None,
        target.raw.len() > width,
    ensures
        !term_match(Some(b), Some(raw), Op::Eq, target, width),
{
}

// ---- reading ----

proof fn lemma_char_range(c: char)
    ensures
        0 <= c as int,
{
}

proof fn lemma_ascii_len(s: Seq<char>)
    requires
        forall|i: int| 0 <= i < s.len() ==> #[trigger] s[i] <= '\u{7f}',
    ensures
        byte_len(s) == s.len(),
{
    assert forall|i: int| 0 <= i < s.len() implies '\0' <= #[trigger] s[i] <= '\u{7f}' by {
        lemma_char_range(s[i]);
        assert(s[i] <= '\u{7f}');
    }
    vstd::utf8::is_ascii_chars_encode_utf8(s);
}

proof fn lemma_decimal_is_number(s: Seq<char>)
    requires
        forall|i: int| 0 <= i < s.len() ==> is_digit(#[trigger] s[i]),
    ensures
        s.len() > 0 ==> is_number(s, 10),
        number_value(s, 10) == decimal_value(s),
    decreases s.len(),
{
    assert forall|i: int| 0 <= i < s.len() implies digit_value(#[trigger] s[i]) < 10 by {
        assert(is_digit(s[i]));
    }
    if s.len() > 0 {
        let less = s.drop_last();
        assert forall|i: int| 0 <= i < less.len() implies is_digit(#[trigger] less[i]) by {
            assert(less[i] == s[i]);
        }
        lemma_decimal_is_number(less);
        assert(is_digit(s[s.len() - 1]));
    }
}

/// A value of up to a hundred decimal digits is that number.
pub proof fn decimal_values_are_numbers(text: Seq<char>)
    requires
        is_decimal(lowercase(trimmed(text))),
        lowercase(trimmed(text)).len() <= 100,
    ensures
        target_of(text) == Ok::<TargetView, Seq<char>>(
            TargetView {
                raw: lowercase(trimmed(text)),
                int: Some(decimal_value(lowercase(trimmed(text)))),
            },
        ),
{
    let raw = lowercase(trimmed(text));
    assert forall|i: int| 0 <= i < raw.len() implies #[trigger] raw[i] <= '\u{7f}' by {
        assert(is_digit(raw[i]));
    }
    lemma_ascii_len(raw);
    lemma_decimal_is_number(raw);
    assert(is_digit(raw[0]));
    if raw.len() >= 2 {
        assert(is_digit(raw[1]));
    }
}

/// Writing a number in base two, ten or sixteen and reading the digits gives
/// the number.
pub proof fn digits_read_back(n: nat, base: nat)
    requires
        2 <= base <= 16,
    ensures
        is_number(digits(n, base), base),
        number_value(digits(n, base), base) == n,
    decreases n,
{
    let s = digits(n, base);
    if n < base {
        assert(s =~= seq![digit_char(n)]);
        assert(s.drop_last() =~= Seq::empty());
        lemma_digit(n);
        assert(number_value(s.drop_last(), base) == 0);
        assert(base * 0 == 0) by (nonlinear_arith);
    } else {
        let q = n / base;
        let r = n % base;
        assert(q < n && r < base && n == base * q + r) by (nonlinear_arith)
            requires
                base >= 2,
                n >= base,
                q == n / base,
                r == n % base,
        ;
        digits_read_back(q, base);
        assert(s =~= digits(q, base).push(digit_char(r)));
        assert(s.drop_last() =~= digits(q, base));
        lemma_digit(r);
        assert forall|i: int| 0 <= i < s.len() implies digit_value(#[trigger] s[i]) < base by {
            if i < s.len() - 1 {
                assert(s[i] == digits(q, base)[i]);
            }
        }
    }
}

proof fn lemma_digit(d: nat)
    requires
        d < 16,
    ensures
        digit_value(digit_char(d)) == d,
        digit_char(d) <= '\u{7f}',
{
    assert(digit_char(d) as int == if d < 10 {
        48 + d as int
    } else {
        87 + d as int
    });
}

/// A value written `0x` and the hexadecimal digits of a number is that number.
pub proof fn hex_values_are_numbers(text: Seq<char>, n: nat)
    requires
        lowercase(trimmed(text)) == seq!['0', 'x'] + digits(n, 16),
        digits(n, 16).len() <= 16384,
    ensures
        target_of(text) == Ok::<TargetView, Seq<char>>(
            TargetView { raw: lowercase(trimmed(text)), int: Some(n) },
        ),
{
    let raw = lowercase(trimmed(text));
    let body = digits(n, 16);
    digits_read_back(n, 16);
    lemma_hex_chars(n);
    assert(raw.skip(2) =~= body);
    assert forall|i: int| 0 <= i < raw.len() implies #[trigger] raw[i] <= '\u{7f}' by {
        if i >= 2 {
            assert(raw[i] == body[i - 2]);
        }
    }
    lemma_ascii_len(raw);
    lemma_ascii_len(body);
}

proof fn lemma_hex_chars(n: nat)
    ensures
        forall|i: int| 0 <= i < digits(n, 16).len() ==> #[trigger] digits(n, 16)[i] <= '\u{7f}',
    decreases n,
{
    let s = digits(n, 16);
    if n < 16 {
        lemma_digit(n);
        assert(s =~= seq![digit_char(n)]);
    } else {
        lemma_hex_chars(n / 16);
        lemma_digit(n % 16);
        assert(s =~= digits(n / 16, 16).push(digit_char(n % 16)));
    }
}

/// A value written `b` or `0b` and settled bits is the number that the bits
/// stand for.
pub proof fn binary_values_are_numbers(text: Seq<char>, b: Seq<char>)
    requires
        settled(b),
        b.len() <= 65536,
        lowercase(trimmed(text)) == seq!['b'] + b || lowercase(trimmed(text)) == seq!['0', 'b'] + b,
    ensures
        target_of(text) is Ok,
        target_of(text)->Ok_0.int == Some(bits_value(b)),
        target_of(text)->Ok_0.raw == lowercase(trimmed(text)),
{
    let raw = lowercase(trimmed(text));
    lemma_settled_value(b);
    lemma_ascii_len(b);
    assert forall|i: int| 0 <= i < b.len() implies digit_value(#[trigger] b[i]) < 2 by {}
    let k = raw.len() - b.len();
    assert(raw.skip(k) =~= b);
    assert forall|i: int| 0 <= i < raw.len() implies #[trigger] raw[i] <= '\u{7f}' by {
        if i >= k {
            assert(raw[i] == b[i - k]);
        }
    }
    lemma_ascii_len(raw);
}

/// A value written `b` or `0b` and states of which one is unknown is the pattern
/// of those states.
pub proof fn state_values_are_patterns(text: Seq<char>, b: Seq<char>, i: int)
    requires
        all_states(b),
        0 <= i < b.len() <= 65536,
        b[i] == 'x' || b[i] == 'z',
        lowercase(trimmed(text)) == seq!['b'] + b || lowercase(trimmed(text)) == seq!['0', 'b'] + b,
    ensures
        target_of(text) == Ok::<TargetView, Seq<char>>(TargetView { raw: b, int: None }),
{
    let raw = lowercase(trimmed(text));
    assert forall|j: int| 0 <= j < b.len() implies #[trigger] b[j] <= '\u{7f}' by {
        assert(is_state(b[j]));
    }
    lemma_ascii_len(b);
    let k = raw.len() - b.len();
    assert(raw.skip(k) =~= b);
    assert forall|j: int| 0 <= j < raw.len() implies #[trigger] raw[j] <= '\u{7f}' by {
        if j >= k {
            assert(raw[j] == b[j - k]);
        }
    }
    lemma_ascii_len(raw);
    assert(digit_value(b[i]) == 16);
}

/// A term is cut at its operator: what stands before it is the signal, what
/// follows is the value.
pub proof fn terms_are_cut_at_the_operator(sig: Seq<char>, val: Seq<char>)
    requires
        !has_char(sig, '='),
        !has_char(sig, '!'),
        !has_char(val, '='),
        !has_char(val, '!'),
    ensures
        cut_at_operator(sig + seq!['='] + val) == Some((trimmed(sig), Op::Eq, trimmed(val))),
        cut_at_operator(sig + seq!['=', '='] + val) == Some((trimmed(sig), Op::EqEq, trimmed(val))),
        cut_at_operator(sig + seq!['!', '='] + val) == Some((trimmed(sig), Op::Ne, trimmed(val))),
{
    reveal_strlit("!=");
    reveal_strlit("==");
    reveal_strlit("=");
    assert("!="@ =~= seq!['!', '=']);
    assert("=="@ =~= seq!['=', '=']);
    assert("="@ =~= seq!['=']);
    let n = sig.len() as int;
    let one = sig + seq!['='] + val;
    let two = sig + seq!['=', '='] + val;
    let ne = sig + seq!['!', '='] + val;
    assert forall|k: int| 0 <= k implies !#[trigger] occurs_at(one, "!="@, k) && !occurs_at(
        one,
        "=="@,
        k,
    ) by {
        if k + 2 <= one.len() {
            lemma_chars(sig, val, seq!['='], k);
            lemma_chars(sig, val, seq!['='], k + 1);
            assert(one.subrange(k, k + 2)[0] == one[k]);
            assert(one.subrange(k, k + 2)[1] == one[k + 1]);
        }
    }
    assert forall|k: int| 0 <= k < n implies !#[trigger] occurs_at(one, "="@, k) by {
        lemma_chars(sig, val, seq!['='], k);
        assert(one.subrange(k, k + 1)[0] == one[k]);
    }
    assert(one.subrange(n, n + 1) =~= "="@);
    find_is_first(one, "!="@, one.len() as int + 1);
    find_is_first(one, "=="@, one.len() as int + 1);
    find_is_first(one, "="@, n);
    assert(one.take(n) =~= sig);
    assert(one.skip(n + 1) =~= val);
    assert forall|k: int| 0 <= k implies !#[trigger] occurs_at(two, "!="@, k) by {
        if k + 2 <= two.len() {
            lemma_chars(sig, val, seq!['=', '='], k);
            assert(two.subrange(k, k + 2)[0] == two[k]);
        }
    }
    assert forall|k: int| 0 <= k < n implies !#[trigger] occurs_at(two, "=="@, k) by {
        lemma_chars(sig, val, seq!['=', '='], k);
        assert(two.subrange(k, k + 2)[0] == two[k]);
    }
    assert(two.subrange(n, n + 2) =~= "=="@);
    find_is_first(two, "!="@, two.len() as int + 1);
    find_is_first(two, "=="@, n);
    assert(two.take(n) =~= sig);
    assert(two.skip(n + 2) =~= val);
    assert forall|k: int| 0 <= k < n implies !#[trigger] occurs_at(ne, "!="@, k) by {
        lemma_chars(sig, val, seq!['!', '='], k);
        assert(ne.subrange(k, k + 2)[0] == ne[k]);
    }
    assert(ne.subrange(n, n + 2) =~= "!="@);
    find_is_first(ne, "!="@, n);
    assert(ne.take(n) =~= sig);
    assert(ne.skip(n + 2) =~= val);
}

proof fn lemma_chars(sig: Seq<char>, val: Seq<char>, op: Seq<char>, k: int)
    requires
        !has_char(sig, '='),
        !has_char(sig, '!'),
        !has_char(val, '='),
        !has_char(val, '!'),
    ensures
        ({
            let s = sig + op + val;
            0 <= k < s.len() && (k < sig.len() || k >= sig.len() + op.len()) ==> s[k] != '=' && s[k]
                != '!'
        }),
{
    let s = sig + op + val;
    if 0 <= k < sig.len() {
        assert(s[k] == sig[k]);
    } else if sig.len() + op.len() <= k < s.len() {
        assert(s[k] == val[k - sig.len() - op.len()]);
    }
}

/// A term on a value is read as the signal, the operator and the value that are
/// written; and is refused where one of them is missing or the value is none.
pub proof fn level_terms_are_read(sig: Seq<char>, val: Seq<char>)
    requires
        !has_char(sig, '='),
        !has_char(sig, '!'),
        !has_char(val, '='),
        !has_char(val, '!'),
        !is_changed_term(sig + seq!['='] + val),
        !is_changed_term(sig + seq!['!', '='] + val),
    ensures
        ({
            let one = sig + seq!['='] + val;
            let ne = sig + seq!['!', '='] + val;
            let good = trimmed(sig).len() > 0 && trimmed(val).len() > 0 && target_of(
                trimmed(val),
            ) is Ok;
            let t = target_of(trimmed(val))->Ok_0;
            &&& term_of(one) is Ok <==> good
            &&& term_of(ne) is Ok <==> good
            &&& good ==> term_of(one)->Ok_0 == TermView::Level(
                ConditionView {
                    pattern: trimmed(sig),
                    op: Op::Eq,
                    target: t,
                    original: one,
                    value_text: trimmed(val),
                },
            )
            &&& good ==> term_of(ne)->Ok_0 == TermView::Level(
                ConditionView {
                    pattern: trimmed(sig),
                    op: Op::Ne,
                    target: t,
                    original: ne,
                    value_text: trimmed(val),
                },
            )
        }),
{
    terms_are_cut_at_the_operator(sig, val);
}

proof fn lemma_terms_join(a: Seq<Seq<char>>, b: Seq<Seq<char>>)
    requires
        terms_of(a) is Ok,
        terms_of(b) is Ok,
    ensures
        terms_of(a + b) == Ok::<Seq<TermView>, Seq<char>>(terms_of(a)->Ok_0 + terms_of(b)->Ok_0),
    decreases b.len(),
{
    if b.len() == 0 {
        assert(a + b =~= a);
        assert(terms_of(a)->Ok_0 + terms_of(b)->Ok_0 =~= terms_of(a)->Ok_0);
    } else {
        lemma_terms_join(a, b.drop_last());
        assert((a + b).drop_last() =~= a + b.drop_last());
        assert((a + b).last() == b.last());
        let rest = terms_of(b.drop_last())->Ok_0;
        let t = term_of(b.last())->Ok_0;
        assert((terms_of(a)->Ok_0 + rest).push(t) =~= terms_of(a)->Ok_0 + rest.push(t));
    }
}

/// The terms of a clause with a comma are those before it and those after.
pub proof fn clauses_are_cut_at_commas(x: Seq<char>, y: Seq<char>)
    requires
        clause_of(x) is Ok,
        clause_of(y) is Ok,
        trimmed(x + seq![','] + y).len() > 0,
    ensures
        clause_of(x + seq![','] + y) == Ok::<Seq<TermView>, Seq<char>>(
            clause_of(x)->Ok_0 + clause_of(y)->Ok_0,
        ),
{
    lists_are_cut_at_commas(x, y);
    lemma_terms_join(csv_items(x), csv_items(y));
}

/// A term written `changed(SIG)` watches the signal it names.
pub proof fn changed_terms_watch(sig: Seq<char>)
    requires
        trimmed(sig).len() > 0,
    ensures
        term_of("changed("@ + sig + seq![')']) == Ok::<TermView, Seq<char>>(
            TermView::Changed { pattern: trimmed(sig), original: "changed("@ + sig + seq![')'] },
        ),
{
    reveal_strlit("changed(");
    let item = "changed("@ + sig + seq![')'];
    assert(item.subrange(0, 8) =~= "changed("@);
    assert(item.subrange(8, item.len() - 1) =~= sig);
    assert(item.last() == ')');
}

// ---- binding ----

/// Does each term of a list hold of the signal it names?
pub open spec fn all_hold(
    table: Seq<SignalView>,
    sel: SelectionView,
    terms: Seq<TermView>,
    mode: MatchMode,
    state: Seq<Option<Seq<char>>>,
    changed: Seq<bool>,
) -> bool {
    forall|k: int|
        0 <= k < terms.len() ==> (#[trigger] bound(table, sel, terms[k], mode)) is Ok && cond_holds(
            state,
            changed,
            bound(table, sel, terms[k], mode)->Ok_0,
        )
}

proof fn lemma_same_holds(
    table: Seq<SignalView>,
    sel: SelectionView,
    s: TermView,
    t: TermView,
    mode: MatchMode,
    state: Seq<Option<Seq<char>>>,
    changed: Seq<bool>,
)
    requires
        bound(table, sel, s, mode) is Ok,
        bound(table, sel, t, mode) is Ok,
        same_term(bound(table, sel, s, mode)->Ok_0, bound(table, sel, t, mode)->Ok_0),
    ensures
        cond_holds(state, changed, bound(table, sel, s, mode)->Ok_0) == cond_holds(
            state,
            changed,
            bound(table, sel, t, mode)->Ok_0,
        ),
{
}

/// A clause bound to its signals holds just when each of its terms does, though
/// terms that repeat another are left out.
pub proof fn bound_terms_keep_meaning(
    table: Seq<SignalView>,
    sel: SelectionView,
    terms: Seq<TermView>,
    mode: MatchMode,
    state: Seq<Option<Seq<char>>>,
    changed: Seq<bool>,
)
    requires
        bound_terms(table, sel, terms, mode) is Ok,
    ensures
        clause_holds(state, changed, bound_terms(table, sel, terms, mode)->Ok_0) == all_hold(
            table,
            sel,
            terms,
            mode,
            state,
            changed,
        ),
{
    lemma_bound_terms(table, sel, terms, mode);
    let cs = each_bound(table, sel, terms, mode);
    lemma_merged(cs);
    let r = merged(cs);
    if clause_holds(state, changed, r) {
        assert forall|k: int| 0 <= k < terms.len() implies (#[trigger] bound(
            table,
            sel,
            terms[k],
            mode,
        )) is Ok && cond_holds(state, changed, bound(table, sel, terms[k], mode)->Ok_0) by {
            assert(has_term(r, cs[k]));
            let i = choose|i: int| 0 <= i < r.len() && same_term(#[trigger] r[i], cs[k]);
            assert(cs.contains(r[i]));
            let m = choose|m: int| 0 <= m < cs.len() && cs[m] == r[i];
            lemma_same_holds(table, sel, terms[m], terms[k], mode, state, changed);
            assert(cond_holds(state, changed, r[i]));
        }
    }
    if all_hold(table, sel, terms, mode, state, changed) {
        assert forall|i: int| 0 <= i < r.len() implies cond_holds(state, changed, #[trigger] r[i]) by {
            assert(cs.contains(r[i]));
            let m = choose|m: int| 0 <= m < cs.len() && cs[m] == r[i];
            assert(bound(table, sel, terms[m], mode) is Ok);
        }
    }
}

/// Terms without those that repeat an earlier one.
spec fn merged(cs: Seq<CondView>) -> Seq<CondView>
    decreases cs.len(),
{
    if cs.len() == 0 {
        Seq::empty()
    } else {
        let done = merged(cs.drop_last());
        if has_term(done, cs.last()) {
            done
        } else {
            done.push(cs.last())
        }
    }
}

proof fn lemma_merged(cs: Seq<CondView>)
    ensures
        forall|k: int| 0 <= k < cs.len() ==> has_term(merged(cs), #[trigger] cs[k]),
        forall|i: int| 0 <= i < merged(cs).len() ==> cs.contains(#[trigger] merged(cs)[i]),
    decreases cs.len(),
{
    if cs.len() > 0 {
        let less = cs.drop_last();
        lemma_merged(less);
        let done = merged(less);
        let all = merged(cs);
        let c = cs.last();
        assert(same_term(c, c));
        assert forall|k: int| 0 <= k < cs.len() implies has_term(all, #[trigger] cs[k]) by {
            if k < less.len() {
                assert(less[k] == cs[k]);
                let i = choose|i: int| 0 <= i < done.len() && same_term(#[trigger] done[i], cs[k]);
                assert(all[i] == done[i]);
            } else if !has_term(done, c) {
                assert(all[done.len() as int] == c);
            }
        }
        assert forall|i: int| 0 <= i < all.len() implies cs.contains(#[trigger] all[i]) by {
            if i < done.len() {
                assert(all[i] == done[i]);
                let k = choose|k: int| 0 <= k < less.len() && less[k] == done[i];
                assert(cs[k] == all[i]);
            } else {
                assert(cs[cs.len() - 1] == all[i]);
            }
        }
    }
}

/// The terms of a clause, each bound to its signal.
spec fn each_bound(
    table: Seq<SignalView>,
    sel: SelectionView,
    terms: Seq<TermView>,
    mode: MatchMode,
) -> Seq<CondView> {
    Seq::new(terms.len(), |k: int| bound(table, sel, terms[k], mode)->Ok_0)
}

proof fn lemma_bound_terms(
    table: Seq<SignalView>,
    sel: SelectionView,
    terms: Seq<TermView>,
    mode: MatchMode,
)
    requires
        bound_terms(table, sel, terms, mode) is Ok,
    ensures
        bound_terms(table, sel, terms, mode)->Ok_0 == merged(each_bound(table, sel, terms, mode)),
        forall|k: int|
            0 <= k < terms.len() ==> (#[trigger] bound(table, sel, terms[k], mode)) is Ok,
    decreases terms.len(),
{
    let cs = each_bound(table, sel, terms, mode);
    if terms.len() > 0 {
        let less = terms.drop_last();
        lemma_bound_terms(table, sel, less, mode);
        assert(cs.drop_last() =~= each_bound(table, sel, less, mode));
        assert forall|k: int| 0 <= k < terms.len() implies (#[trigger] bound(
            table,
            sel,
            terms[k],
            mode,
        )) is Ok by {
            if k < less.len() {
                assert(less[k] == terms[k]);
                assert(bound(table, sel, less[k], mode) is Ok);
            }
        }
    }
}

/// Does some one of the clauses, as written, hold?
pub open spec fn some_holds(
    table: Seq<SignalView>,
    sel: SelectionView,
    texts: Seq<Seq<char>>,
    mode: MatchMode,
    state: Seq<Option<Seq<char>>>,
    changed: Seq<bool>,
) -> bool {
    exists|i: int|
        0 <= i < texts.len() && (#[trigger] clause_of(texts[i])) is Ok && all_hold(
            table,
            sel,
            clause_of(texts[i])->Ok_0,
            mode,
            state,
            changed,
        )
}

/// Several clauses are alternatives: the search's condition holds just when all
/// the terms of one of them do, though clauses that repeat another are left out.
pub proof fn bound_clauses_keep_meaning(
    table: Seq<SignalView>,
    sel: SelectionView,
    texts: Seq<Seq<char>>,
    mode: MatchMode,
    state: Seq<Option<Seq<char>>>,
    changed: Seq<bool>,
)
    requires
        bound_clauses(table, sel, texts, mode) is Ok,
    ensures
        any_clause(state, changed, bound_clauses(table, sel, texts, mode)->Ok_0) == some_holds(
            table,
            sel,
            texts,
            mode,
            state,
            changed,
        ),
    decreases texts.len(),
{
    if texts.len() > 0 {
        let less = texts.drop_last();
        bound_clauses_keep_meaning(table, sel, less, mode, state, changed);
        bound_terms_keep_meaning(table, sel, clause_of(texts.last())->Ok_0, mode, state, changed);
        lemma_any_with_last(table, sel, texts, mode, state, changed);
        lemma_some_with_last(table, sel, texts, mode, state, changed);
    }
}

proof fn lemma_any_with_last(
    table: Seq<SignalView>,
    sel: SelectionView,
    texts: Seq<Seq<char>>,
    mode: MatchMode,
    state: Seq<Option<Seq<char>>>,
    changed: Seq<bool>,
)
    requires
        texts.len() > 0,
        bound_clauses(table, sel, texts, mode) is Ok,
    ensures
        any_clause(state, changed, bound_clauses(table, sel, texts, mode)->Ok_0) == (any_clause(
            state,
            changed,
            bound_clauses(table, sel, texts.drop_last(), mode)->Ok_0,
        ) || clause_holds(state, changed, bound_clause(table, sel, texts.last(), mode)->Ok_0)),
{
    let less = texts.drop_last();
    let all = bound_clauses(table, sel, texts, mode)->Ok_0;
    let done = bound_clauses(table, sel, less, mode)->Ok_0;
    let c = bound_clause(table, sel, texts.last(), mode)->Ok_0;
    if has_clause(done, c) {
        assert(all == done);
        if clause_holds(state, changed, c) {
            let i = choose|i: int| 0 <= i < done.len() && same_clause(#[trigger] done[i], c);
            lemma_done_is_bound(table, sel, less, mode, i);
            let j = choose|j: int|
                0 <= j < less.len() && #[trigger] bound_clause(table, sel, less[j], mode) == Ok::<
                    Seq<CondView>,
                    Seq<char>,
                >(done[i]);
            lemma_same_clause_holds(
                table,
                sel,
                clause_of(less[j])->Ok_0,
                clause_of(texts.last())->Ok_0,
                mode,
                state,
                changed,
            );
            assert(clause_holds(state, changed, done[i]));
        }
    } else {
        assert(all == done.push(c));
        lemma_any_pushed(done, c, state, changed);
    }
}

proof fn lemma_any_pushed(
    done: Seq<Seq<CondView>>,
    c: Seq<CondView>,
    state: Seq<Option<Seq<char>>>,
    changed: Seq<bool>,
)
    ensures
        any_clause(state, changed, done.push(c)) == (any_clause(state, changed, done)
            || clause_holds(state, changed, c)),
{
    let all = done.push(c);
    if any_clause(state, changed, done) {
        let i = choose|i: int|
            0 <= i < done.len() && clause_holds(state, changed, #[trigger] done[i]);
        assert(all[i] == done[i]);
    }
    if clause_holds(state, changed, c) {
        assert(all[done.len() as int] == c);
    }
    if any_clause(state, changed, all) {
        let i = choose|i: int| 0 <= i < all.len() && clause_holds(state, changed, #[trigger] all[i]);
        if i < done.len() {
            assert(all[i] == done[i]);
        }
    }
}

proof fn lemma_some_with_last(
    table: Seq<SignalView>,
    sel: SelectionView,
    texts: Seq<Seq<char>>,
    mode: MatchMode,
    state: Seq<Option<Seq<char>>>,
    changed: Seq<bool>,
)
    requires
        texts.len() > 0,
    ensures
        some_holds(table, sel, texts, mode, state, changed) == (some_holds(
            table,
            sel,
            texts.drop_last(),
            mode,
            state,
            changed,
        ) || (clause_of(texts.last()) is Ok && all_hold(
            table,
            sel,
            clause_of(texts.last())->Ok_0,
            mode,
            state,
            changed,
        ))),
{
    let less = texts.drop_last();
    assert(texts[texts.len() - 1] == texts.last());
    if some_holds(table, sel, less, mode, state, changed) {
        let i = choose|i: int|
            0 <= i < less.len() && (#[trigger] clause_of(less[i])) is Ok && all_hold(
                table,
                sel,
                clause_of(less[i])->Ok_0,
                mode,
                state,
                changed,
            );
        assert(texts[i] == less[i]);
        assert(clause_of(texts[i]) is Ok);
    }
    if some_holds(table, sel, texts, mode, state, changed) {
        let i = choose|i: int|
            0 <= i < texts.len() && (#[trigger] clause_of(texts[i])) is Ok && all_hold(
                table,
                sel,
                clause_of(texts[i])->Ok_0,
                mode,
                state,
                changed,
            );
        if i < less.len() {
            assert(texts[i] == less[i]);
            assert(clause_of(less[i]) is Ok);
        }
    }
    assert(clause_of(texts[texts.len() - 1]) == clause_of(texts.last()));
}

proof fn lemma_done_is_bound(
    table: Seq<SignalView>,
    sel: SelectionView,
    texts: Seq<Seq<char>>,
    mode: MatchMode,
    i: int,
)
    requires
        bound_clauses(table, sel, texts, mode) is Ok,
        0 <= i < bound_clauses(table, sel, texts, mode)->Ok_0.len(),
    ensures
        exists|j: int|
            0 <= j < texts.len() && #[trigger] bound_clause(table, sel, texts[j], mode) == Ok::<
                Seq<CondView>,
                Seq<char>,
            >(bound_clauses(table, sel, texts, mode)->Ok_0[i]),
    decreases texts.len(),
{
    let less = texts.drop_last();
    let done = bound_clauses(table, sel, less, mode)->Ok_0;
    let all = bound_clauses(table, sel, texts, mode)->Ok_0;
    if i < done.len() {
        lemma_done_is_bound(table, sel, less, mode, i);
        let j = choose|j: int|
            0 <= j < less.len() && #[trigger] bound_clause(table, sel, less[j], mode) == Ok::<
                Seq<CondView>,
                Seq<char>,
            >(done[i]);
        assert(less[j] == texts[j]);
        assert(bound_clause(table, sel, texts[j], mode) == Ok::<Seq<CondView>, Seq<char>>(all[i]));
    } else {
        assert(texts[texts.len() - 1] == texts.last());
        assert(bound_clause(table, sel, texts[texts.len() - 1], mode) == Ok::<
            Seq<CondView>,
            Seq<char>,
        >(all[i]));
    }
}

/// Clauses with the same terms hold together.
proof fn lemma_same_clause_holds(
    table: Seq<SignalView>,
    sel: SelectionView,
    s: Seq<TermView>,
    t: Seq<TermView>,
    mode: MatchMode,
    state: Seq<Option<Seq<char>>>,
    changed: Seq<bool>,
)
    requires
        bound_terms(table, sel, s, mode) is Ok,
        bound_terms(table, sel, t, mode) is Ok,
        same_clause(
            bound_terms(table, sel, s, mode)->Ok_0,
            bound_terms(table, sel, t, mode)->Ok_0,
        ),
        clause_holds(state, changed, bound_terms(table, sel, t, mode)->Ok_0),
    ensures
        clause_holds(state, changed, bound_terms(table, sel, s, mode)->Ok_0),
{
    lemma_bound_terms(table, sel, s, mode);
    lemma_bound_terms(table, sel, t, mode);
    let xs = each_bound(table, sel, s, mode);
    let ys = each_bound(table, sel, t, mode);
    lemma_merged(xs);
    lemma_merged(ys);
    let a = merged(xs);
    let b = merged(ys);
    assert forall|i: int| 0 <= i < a.len() implies cond_holds(state, changed, #[trigger] a[i]) by {
        assert(has_term(b, a[i]));
        let k = choose|k: int| 0 <= k < b.len() && same_term(#[trigger] b[k], a[i]);
        assert(xs.contains(a[i]) && ys.contains(b[k]));
        let m = choose|m: int| 0 <= m < xs.len() && xs[m] == a[i];
        let o = choose|o: int| 0 <= o < ys.len() && ys[o] == b[k];
        assert(bound(table, sel, s[m], mode) is Ok && bound(table, sel, t[o], mode) is Ok);
        lemma_same_holds(table, sel, t[o], s[m], mode, state, changed);
        assert(cond_holds(state, changed, b[k]));
    }
}

// ---- searching for a number ----

/// A search for one comparison of a logic signal with a number finds a tick of
/// its window just when the signal has a value then, its bits are settled, and
/// they stand for the number (for `=`) or for another (for `!=`).
pub proof fn search_for_a_number(
    w: WaveView,
    c: CondView,
    op: Op,
    target: TargetView,
    value_text: Seq<char>,
    show: Seq<usize>,
    t0: int,
    t1: int,
    t: int,
    b: Seq<char>,
)
    requires
        wave_ok(w),
        c.sid < w.table.len(),
        target.int is Some,
        c.term == (BoundView::Level {
            op,
            target,
            width: w.table[c.sid as int].width,
            kind: ValueKind::Bits,
            value_text,
        }),
        search_over(w.table.len(), seq![seq![c]], show, t0, t1).changed.len() == 0,
        t0 <= t < t1,
        texts_at(w, t)[c.sid as int] == Some(b),
        settled(b),
    ensures
        op == Op::Ne ==> (is_found(
            hits_of(w, search_over(w.table.len(), seq![seq![c]], show, t0, t1)),
            t,
        ) <==> bits_value(b) != target.int->0),
        op != Op::Ne ==> (is_found(
            hits_of(w, search_over(w.table.len(), seq![seq![c]], show, t0, t1)),
            t,
        ) <==> bits_value(b) == target.int->0),
{
    let clauses = seq![seq![c]];
    let none = Seq::<bool>::empty();
    assert(crate::sweep::clauses_in(clauses, w.table.len()));
    search_finds_what_holds(w, clauses, show, t0, t1, t);
    let state = texts_at(w, t);
    let one = seq![c];
    assert(clauses[0] == one && one[0] == c);
    assert(any_clause(state, none, clauses) == cond_holds(state, none, c)) by {
        if any_clause(state, none, clauses) {
            assert(clause_holds(state, none, clauses[0]));
            assert(cond_holds(state, none, one[0]));
        }
        if cond_holds(state, none, c) {
            assert(clause_holds(state, none, clauses[0]));
        }
    }
    numbers_compare_by_value(b, b, target, w.table[c.sid as int].width as nat);
}

/// What a search asks: its condition holds when all the terms of one of the
/// clauses written do, of signals named in the selection; it shows the signals
/// that `--show` names; and it goes over its window. With `--exact` names are
/// read exactly.
pub proof fn search_asks_what_is_written<T: Timescale>(
    w: WaveView,
    a: ArgsView,
    ts: &T,
    sel: SelectionView,
    state: Seq<Option<Seq<char>>>,
    changed: Seq<bool>,
)
    requires
        choice_of(a) == Ok::<SelectionView, Seq<char>>(sel),
    ensures
        ({
            let mode = if a.exact {
                MatchMode::Exact
            } else {
                MatchMode::Substring
            };
            let clauses = bound_clauses(w.table, sel, a.condition, mode);
            let show = show_meant(w.table, sel, a.show, mode);
            &&& search_of(w, a, ts) matches Ok(d) ==> {
                &&& any_clause(state, changed, d.clauses) == some_holds(
                    w.table,
                    sel,
                    a.condition,
                    mode,
                    state,
                    changed,
                )
                &&& search_window(w, a, ts) == Ok::<(int, int), Seq<char>>((d.t0, d.t1))
                &&& show is Ok && (show->Ok_0.len() > 0 ==> d.show == show->Ok_0)
                &&& d == search_over(w.table.len(), d.clauses, show->Ok_0, d.t0, d.t1)
                &&& !is_mixed(d.clauses)
            }
            &&& search_of(w, a, ts) is Ok <==> search_window(w, a, ts) is Ok && a.condition.len()
                > 0 && clauses is Ok && !is_mixed(clauses->Ok_0) && show is Ok
        }),
{
    let mode = if a.exact {
        MatchMode::Exact
    } else {
        MatchMode::Substring
    };
    if search_of(w, a, ts) is Ok {
        bound_clauses_keep_meaning(w.table, sel, a.condition, mode, state, changed);
    }
}

} // verus!
