//! What cutting, trimming, joining and writing do to texts.

use vstd::prelude::*;

use crate::condition::{csv_items, list_items};
use crate::filter::is_separator;
use crate::json::{compact, escaped, escaped_all, quoted, JsonView};
use crate::number::{
    dec, dec_int, decimal_round_trip, decimal_value, digit_char, is_decimal, is_digit,
    literal_value, unsigned_part,
};
use crate::signal::leaf_text;
use crate::text::{
    has_char, index_from, is_space, joined, left_justified, occurs_at, pieces, pieces_from, repeated,
    right_justified, trim_back, trim_front, trimmed,
};
use crate::time::{
    exponent_parts, exponent_text, general_of, stripped_zeros, without_trailing, GeneralView,
};

verus! {

// ---- cutting and joining ----

proof fn lemma_index(s: Seq<char>, c: char, from: int)
    requires
        0 <= from <= s.len(),
    ensures
        from <= index_from(s, c, from) <= s.len(),
        index_from(s, c, from) < s.len() ==> s[index_from(s, c, from)] == c,
        forall|i: int| from <= i < index_from(s, c, from) ==> #[trigger] s[i] != c,
    decreases s.len() - from,
{
    if from < s.len() && s[from] != c {
        lemma_index(s, c, from + 1);
    }
}

proof fn lemma_index_is(s: Seq<char>, c: char, from: int, n: int)
    requires
        0 <= from <= n <= s.len(),
        n < s.len() ==> s[n] == c,
        forall|i: int| from <= i < n ==> #[trigger] s[i] != c,
    ensures
        index_from(s, c, from) == n,
{
    lemma_index(s, c, from);
    let k = index_from(s, c, from);
    if k < n {
        assert(s[k] != c);
    }
    if n < k {
        assert(s[n] != c);
    }
}

proof fn lemma_pieces_shift(front: Seq<char>, s: Seq<char>, c: char, from: int)
    requires
        0 <= from <= s.len(),
    ensures
        pieces_from(front + s, c, front.len() + from) == pieces_from(s, c, from),
    decreases s.len() - from,
{
    let all = front + s;
    let n = front.len() as int;
    lemma_index(s, c, from);
    let at = index_from(s, c, from);
    assert forall|i: int| n + from <= i < n + at implies #[trigger] all[i] != c by {
        assert(all[i] == s[i - n]);
    }
    lemma_index_is(all, c, n + from, n + at);
    if at < s.len() {
        lemma_pieces_shift(front, s, c, at + 1);
        assert(all.subrange(n + from, n + at) =~= s.subrange(from, at));
    } else {
        assert(all.subrange(n + from, all.len() as int) =~= s.subrange(from, s.len() as int));
    }
}

proof fn lemma_pieces_join(x: Seq<char>, c: char, y: Seq<char>, from: int)
    requires
        0 <= from <= x.len(),
    ensures
        pieces_from(x + seq![c] + y, c, from) == pieces_from(x, c, from) + pieces(y, c),
    decreases x.len() - from,
{
    let all = x + seq![c] + y;
    let n = x.len() as int;
    lemma_index(x, c, from);
    let at = index_from(x, c, from);
    assert forall|i: int| from <= i < at implies #[trigger] all[i] != c by {
        assert(all[i] == x[i]);
    }
    assert(all[n] == c);
    if at < n {
        assert(all[at] == x[at]);
    }
    lemma_index_is(all, c, from, at);
    if at < n {
        lemma_pieces_join(x, c, y, at + 1);
        assert(all.subrange(from, at) =~= x.subrange(from, at));
        let head = seq![x.subrange(from, at)];
        assert(head + (pieces_from(x, c, at + 1) + pieces(y, c)) =~= (head + pieces_from(
            x,
            c,
            at + 1,
        )) + pieces(y, c));
    } else {
        assert(x + seq![c] + y =~= (x + seq![c]) + y);
        lemma_pieces_shift(x + seq![c], y, c, 0);
        assert(all.subrange(from, n) =~= x.subrange(from, n));
    }
}

/// Cutting at a character: what stands before and what stands after one are cut
/// apart; a text without it stays whole.
pub proof fn pieces_join(x: Seq<char>, c: char, y: Seq<char>)
    ensures
        pieces(x + seq![c] + y, c) == pieces(x, c) + pieces(y, c),
        !has_char(x, c) ==> pieces(x, c) == seq![x],
{
    lemma_pieces_join(x, c, y, 0);
    if !has_char(x, c) {
        crate::text::uncut_text_is_one_piece(x, c);
    }
}

proof fn lemma_list_items_join(a: Seq<Seq<char>>, b: Seq<Seq<char>>)
    ensures
        list_items(a + b) == list_items(a) + list_items(b),
    decreases b.len(),
{
    if b.len() == 0 {
        assert(a + b =~= a);
        assert(list_items(a) + list_items(b) =~= list_items(a));
    } else {
        lemma_list_items_join(a, b.drop_last());
        assert((a + b).drop_last() =~= a + b.drop_last());
        assert((a + b).last() == b.last());
        let rest = list_items(b.drop_last());
        let item = trimmed(b.last());
        if item.len() > 0 {
            assert((list_items(a) + rest).push(item) =~= list_items(a) + rest.push(item));
        }
    }
}

/// A list with commas: its items are those before the comma and those after;
/// one without a comma is an item, trimmed, unless it is blank.
pub proof fn lists_are_cut_at_commas(x: Seq<char>, y: Seq<char>)
    ensures
        csv_items(x + seq![','] + y) == csv_items(x) + csv_items(y),
        !has_char(x, ',') && trimmed(x).len() > 0 ==> csv_items(x) == seq![trimmed(x)],
        !has_char(x, ',') && trimmed(x).len() == 0 ==> csv_items(x).len() == 0,
{
    pieces_join(x, ',', y);
    lemma_list_items_join(pieces(x, ','), pieces(y, ','));
    if !has_char(x, ',') {
        let one = seq![x];
        assert(one.drop_last() =~= Seq::empty());
        assert(list_items(one.drop_last()) =~= Seq::empty());
        assert(Seq::<Seq<char>>::empty().push(trimmed(x)) =~= seq![trimmed(x)]);
    }
}

/// Joining puts the separator between the parts.
pub proof fn joining_puts_separators_between(
    a: Seq<Seq<char>>,
    b: Seq<Seq<char>>,
    x: Seq<char>,
    sep: Seq<char>,
)
    ensures
        joined(seq![x], sep) == x,
        joined(Seq::empty(), sep).len() == 0,
        a.len() > 0 && b.len() > 0 ==> joined(a + b, sep) == joined(a, sep) + sep + joined(b, sep),
    decreases b.len(),
{
    if a.len() > 0 && b.len() > 0 {
        let all = a + b;
        assert(all.drop_last() =~= a + b.drop_last());
        assert(all.last() == b.last());
        if b.len() == 1 {
            assert(a + b.drop_last() =~= a);
        } else {
            joining_puts_separators_between(a, b.drop_last(), x, sep);
            assert(joined(a, sep) + sep + joined(b.drop_last(), sep) + sep + b.last() =~= joined(
                a,
                sep,
            ) + sep + (joined(b.drop_last(), sep) + sep + b.last()));
        }
    }
}

/// Trimming takes the blanks from both ends, and nothing else.
pub proof fn trimming_takes_the_blanks(a: Seq<char>, x: Seq<char>, b: Seq<char>)
    requires
        forall|i: int| 0 <= i < a.len() ==> is_space(#[trigger] a[i]),
        forall|i: int| 0 <= i < b.len() ==> is_space(#[trigger] b[i]),
        x.len() > 0,
        !is_space(x[0]),
        !is_space(x.last()),
    ensures
        trimmed(a + x + b) == x,
        trimmed(a).len() == 0,
{
    lemma_trim_front(a, x + b);
    assert((x + b)[0] == x[0]);
    assert(a + (x + b) =~= a + x + b);
    lemma_trim_back(x, b);
    lemma_trim_front(a, Seq::empty());
    assert(a + Seq::<char>::empty() =~= a);
}

proof fn lemma_trim_front(a: Seq<char>, y: Seq<char>)
    requires
        forall|i: int| 0 <= i < a.len() ==> is_space(#[trigger] a[i]),
        y.len() > 0 ==> !is_space(y[0]),
    ensures
        trim_front(a + y) == y,
    decreases a.len(),
{
    let all = a + y;
    if a.len() == 0 {
        assert(all =~= y);
    } else {
        let less = a.drop_first();
        assert(is_space(a[0]) && all[0] == a[0]);
        assert forall|i: int| 0 <= i < less.len() implies is_space(#[trigger] less[i]) by {
            assert(less[i] == a[i + 1]);
        }
        lemma_trim_front(less, y);
        assert(all.drop_first() =~= less + y);
    }
}

proof fn lemma_trim_back(x: Seq<char>, b: Seq<char>)
    requires
        forall|i: int| 0 <= i < b.len() ==> is_space(#[trigger] b[i]),
        x.len() > 0,
        !is_space(x.last()),
    ensures
        trim_back(x + b) == x,
    decreases b.len(),
{
    let all = x + b;
    if b.len() == 0 {
        assert(all =~= x);
    } else {
        let less = b.drop_last();
        assert(is_space(b[b.len() - 1]));
        assert forall|i: int| 0 <= i < less.len() implies is_space(#[trigger] less[i]) by {
            assert(less[i] == b[i]);
        }
        lemma_trim_back(x, less);
        assert(all.drop_last() =~= x + less);
    }
}

/// A text that is justified is at least so wide: the text, and blanks on the
/// one side.
pub proof fn justifying_adds_blanks(s: Seq<char>, width: nat)
    ensures
        left_justified(s, width).len() == right_justified(s, width).len(),
        left_justified(s, width).len() >= width && left_justified(s, width).len() >= s.len(),
        s.len() >= width ==> left_justified(s, width) == s && right_justified(s, width) == s,
        left_justified(s, width).take(s.len() as int) == s,
        right_justified(s, width).skip(right_justified(s, width).len() - s.len()) == s,
        forall|i: int|
            s.len() <= i < left_justified(s, width).len() ==> #[trigger] left_justified(s, width)[i]
                == ' ',
        forall|i: int|
            0 <= i < right_justified(s, width).len() - s.len() ==> #[trigger] right_justified(
                s,
                width,
            )[i] == ' ',
{
    assert(left_justified(s, width).take(s.len() as int) =~= s);
    assert(right_justified(s, width).skip(right_justified(s, width).len() - s.len()) =~= s);
}

/// The leaf of a path is what follows its scope and a separator.
pub proof fn leaves_follow_their_scope(scope: Seq<char>, c: char, name: Seq<char>)
    requires
        is_separator(c),
        scope.len() > 0,
    ensures
        leaf_text(scope + seq![c] + name, scope) == name,
        leaf_text(name, Seq::empty()) == name,
{
    let path = scope + seq![c] + name;
    assert(path.subrange(0, scope.len() as int) =~= scope);
    assert(occurs_at(path, scope, 0));
    assert(path.skip(scope.len() as int + 1) =~= name);
}

// ---- numbers ----

/// An integer that is written is read as itself.
pub proof fn integers_read_back(n: int)
    ensures
        is_decimal(unsigned_part(dec_int(n))),
        literal_value(dec_int(n)) == n,
{
    if n < 0 {
        let m = (-n) as nat;
        decimal_round_trip(m);
        assert((seq!['-'] + dec(m)).drop_first() =~= dec(m));
    } else {
        decimal_round_trip(n as nat);
        let s = dec(n as nat);
        assert(is_digit(s[0]));
    }
}

proof fn lemma_without_trailing(s: Seq<char>, c: char, n: nat)
    requires
        s.len() > 0 ==> s.last() != c,
    ensures
        without_trailing(s + repeated(c, n), c) == s,
    decreases n,
{
    let all = s + repeated(c, n);
    if n == 0 {
        assert(all =~= s);
    } else {
        lemma_without_trailing(s, c, (n - 1) as nat);
        assert(all.drop_last() =~= s + repeated(c, (n - 1) as nat));
        assert(all.last() == c);
    }
}

/// Zeros at the end of a fraction are left out, and the point with them where
/// nothing is left behind it; a whole number keeps its zeros.
pub proof fn trailing_zeros_are_left_out(whole: Seq<char>, fraction: Seq<char>, zeros: nat)
    requires
        is_decimal(whole),
        fraction.len() > 0 ==> is_decimal(fraction) && fraction.last() != '0',
    ensures
        fraction.len() > 0 ==> stripped_zeros(
            whole + seq!['.'] + fraction + repeated('0', zeros),
        ) == whole + seq!['.'] + fraction,
        stripped_zeros(whole + seq!['.'] + repeated('0', zeros)) == whole,
        stripped_zeros(whole) == whole,
{
    reveal_strlit("-");
    assert(is_digit(whole[0]));
    assert(is_digit(whole[whole.len() - 1]));
    let dotted = whole + seq!['.'];
    assert(dotted[whole.len() as int] == '.');
    if fraction.len() > 0 {
        let s = dotted + fraction;
        lemma_without_trailing(s, '0', zeros);
        assert(is_digit(fraction[fraction.len() - 1]));
        assert((s + repeated('0', zeros))[whole.len() as int] == '.');
        assert(has_char(s + repeated('0', zeros), '.'));
        assert(s[0] == whole[0]);
        assert(without_trailing(s, '.') == s);
        assert(s != "-"@) by {
            assert(s[0] != '-');
        }
    }
    lemma_without_trailing(dotted, '0', zeros);
    assert((dotted + repeated('0', zeros))[whole.len() as int] == '.');
    assert(has_char(dotted + repeated('0', zeros), '.'));
    assert(dotted.drop_last() =~= whole);
    assert(without_trailing(whole, '.') == whole);
    assert(without_trailing(dotted, '.') == whole);
    assert(whole != "-"@) by {
        assert(whole[0] != '-');
    }
    if has_char(whole, '.') {
        let i = choose|i: int| 0 <= i < whole.len() && whole[i] == '.';
        assert(is_digit(whole[i]));
    }
}

/// A number that is neither very small nor large is written out with six
/// significant digits in all; another with its exponent.
pub proof fn six_digits_are_significant(sci: Seq<char>)
    ensures
        ({
            let e = exponent_parts(sci).1;
            match general_of(sci) {
                GeneralView::Fixed(n) => -4 <= e < 6 && n + e == 5,
                GeneralView::Text(_) => e < -4 || e >= 6,
            }
        }),
{
}

/// An exponent is written with its sign and two digits at least, and reads as
/// itself.
pub proof fn exponents_read_back(e: int)
    ensures
        ({
            let s = exponent_text(e);
            &&& s.len() >= 4 && s[0] == 'e'
            &&& s[1] == (if e < 0 {
                '-'
            } else {
                '+'
            })
            &&& is_decimal(s.skip(2))
            &&& literal_value(s.skip(1)) == e
            &&& -100 < e < 100 ==> s.len() == 4
        }),
{
    let m = if e < 0 {
        (-e) as nat
    } else {
        e as nat
    };
    let s = exponent_text(e);
    decimal_round_trip(m);
    let d = s.skip(2);
    if m < 10 {
        assert(dec(m).len() == 1);
        assert(d =~= seq!['0'] + dec(m));
        let z = d.drop_last();
        assert(z =~= seq!['0']);
        assert(z.drop_last() =~= Seq::empty());
        assert(decimal_value(z.drop_last()) == 0);
        assert(decimal_value(z) == 0);
        assert(dec(m).drop_last() =~= Seq::empty());
        assert(decimal_value(dec(m).drop_last()) == 0);
        assert(decimal_value(d) == m);
        assert(is_digit(dec(m)[0]));
        assert forall|i: int| 0 <= i < d.len() implies is_digit(#[trigger] d[i]) by {}
    } else {
        assert(d =~= dec(m));
        decimal_round_trip(m / 10);
        assert(dec(m) == dec(m / 10).push(digit_char(m % 10)));
        if m < 100 {
            assert(dec(m / 10).len() == 1);
        }
    }
    assert(s.skip(1).drop_first() =~= d);
}

// ---- JSON ----

/// Is there nothing in the text to be escaped?
pub open spec fn is_plain_text(s: Seq<char>) -> bool {
    forall|i: int|
        0 <= i < s.len() ==> (#[trigger] s[i]) != '"' && s[i] != '\\' && s[i] as int >= 0x20
}

/// A plain text is written between quotes as it is.
pub proof fn plain_texts_are_quoted(s: Seq<char>)
    requires
        is_plain_text(s),
    ensures
        quoted(s) == seq!['"'] + s + seq!['"'],
{
    lemma_plain(s);
}

proof fn lemma_plain(s: Seq<char>)
    requires
        is_plain_text(s),
    ensures
        escaped_all(s) == s,
    decreases s.len(),
{
    if s.len() > 0 {
        let less = s.drop_last();
        assert forall|i: int| 0 <= i < less.len() implies (#[trigger] less[i]) != '"' && less[i]
            != '\\' && less[i] as int >= 0x20 by {
            assert(less[i] == s[i]);
        }
        lemma_plain(less);
        let c = s[s.len() - 1];
        assert(c != '"' && c != '\\' && c as int >= 0x20);
        assert(escaped(c) == seq![c]);
        assert(less + seq![c] =~= s);
    } else {
        assert(s =~= Seq::empty());
    }
}

/// A quote and a backslash are written with a backslash before them, and a line
/// break by its letter.
pub proof fn marks_are_escaped(s: Seq<char>, c: char)
    ensures
        escaped_all(s.push(c)) == escaped_all(s) + escaped(c),
        escaped('"') == seq!['\\', '"'],
        escaped('\\') == seq!['\\', '\\'],
        escaped('\n') == seq!['\\', 'n'],
        escaped('\r') == seq!['\\', 'r'],
        escaped('\t') == seq!['\\', 't'],
{
    assert(s.push(c).drop_last() =~= s);
}

/// Numbers, truth values and nothing are written as such; an array of two and
/// an object of one as their parts, with the marks between.
pub proof fn json_is_written_plainly(n: int, x: JsonView, y: JsonView, name: Seq<char>)
    ensures
        compact(JsonView::Int(n)) == dec_int(n),
        compact(JsonView::Bool(true)) == seq!['t', 'r', 'u', 'e'],
        compact(JsonView::Bool(false)) == seq!['f', 'a', 'l', 's', 'e'],
        compact(JsonView::Null) == seq!['n', 'u', 'l', 'l'],
        compact(JsonView::Array(Seq::empty())) == seq!['[', ']'],
        compact(JsonView::Array(seq![x])) == seq!['['] + compact(x) + seq![']'],
        compact(JsonView::Array(seq![x, y])) == seq!['['] + (compact(x) + seq![','] + compact(y))
            + seq![']'],
        compact(JsonView::Object(seq![(name, x)])) == seq!['{'] + (quoted(name) + seq![':']
            + compact(x)) + seq!['}'],
{
    reveal_with_fuel(crate::json::compact_items, 3);
    reveal_with_fuel(crate::json::compact_members, 3);
    let none = Seq::<JsonView>::empty();
    assert(compact(JsonView::Array(none)) =~= seq!['[', ']']);
    let one = seq![x];
    assert(one[0] == x);
    let two = seq![x, y];
    assert(two[0] == x && two[1] == y);
    assert(crate::json::compact_items(two, 1) == compact(x));
    assert(crate::json::compact_items(two, 2) == compact(x) + seq![','] + compact(y));
    let member = seq![(name, x)];
    assert(member[0] == (name, x));
}

} // verus!
