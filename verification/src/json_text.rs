//! Laws of the JSON text: each value has a text of its own, spaces occur in
//! string literals alone, and characters outside ASCII stand for themselves.

use vstd::prelude::*;

use crate::json::{
    compact, compact_items, compact_members, escaped, escaped_all, quoted, JsonView,
};
use crate::number::{dec, dec_int, decimal_round_trip, digit_char, digits};
use crate::text::has_char;

verus! {

/// Does the text end here, or does an item end here?
spec fn ended(t: Seq<char>) -> bool {
    t.len() == 0 || t[0] == ',' || t[0] == ']' || t[0] == '}'
}

/// Two values have the same text only if they are the same value.
pub proof fn json_text_is_unique(a: JsonView, b: JsonView)
    ensures
        (compact(a) == compact(b)) == (a == b),
{
    if compact(a) == compact(b) {
        let none = Seq::<char>::empty();
        lemma_reads_one_way(a, b, none, none);
    }
}

/// A character outside ASCII stands for itself in a string literal.
pub proof fn wide_characters_stay(c: char)
    requires
        c as int >= 128,
    ensures
        escaped(c) == seq![c],
{
}

spec fn is_digit(c: char) -> bool {
    '0' <= c && c <= '9'
}

spec fn all_digits(s: Seq<char>) -> bool {
    forall|i: int| 0 <= i < s.len() ==> is_digit(#[trigger] s[i])
}

proof fn lemma_all_digits(n: nat)
    ensures
        all_digits(digits(n, 10)),
        digits(n, 10).len() > 0,
    decreases n,
{
    if n >= 10 {
        lemma_all_digits(n / 10);
    }
}

/// Digits end where no digit follows.
proof fn lemma_digits_end(a: Seq<char>, b: Seq<char>, s: Seq<char>, t: Seq<char>)
    requires
        all_digits(a),
        all_digits(b),
        a + s == b + t,
        ended(s),
        ended(t),
    ensures
        a == b,
        s == t,
{
    let u = a + s;
    let w = b + t;
    if a.len() < b.len() {
        assert(w[a.len() as int] == b[a.len() as int]);
        assert(s.len() > 0);
        assert(u[a.len() as int] == s[0]);
    }
    if b.len() < a.len() {
        assert(u[b.len() as int] == a[b.len() as int]);
        assert(t.len() > 0);
        assert(w[b.len() as int] == t[0]);
    }
    lemma_same_front(a, b, s, t);
}

/// Fronts of one length are the same, and so is what follows them.
proof fn lemma_same_front(a: Seq<char>, b: Seq<char>, s: Seq<char>, t: Seq<char>)
    requires
        a.len() == b.len(),
        a + s == b + t,
    ensures
        a == b,
        s == t,
{
    let u = a + s;
    let w = b + t;
    assert(u.take(a.len() as int) =~= a);
    assert(w.take(b.len() as int) =~= b);
    assert(u.skip(a.len() as int) =~= s);
    assert(w.skip(b.len() as int) =~= t);
}

proof fn lemma_int_reads(n: int, m: int, s: Seq<char>, t: Seq<char>)
    requires
        dec_int(n) + s == dec_int(m) + t,
        ended(s),
        ended(t),
    ensures
        n == m,
        s == t,
{
    let x: nat = if n < 0 {
        (-n) as nat
    } else {
        n as nat
    };
    let y: nat = if m < 0 {
        (-m) as nat
    } else {
        m as nat
    };
    lemma_all_digits(x);
    lemma_all_digits(y);
    let u = dec_int(n) + s;
    let w = dec_int(m) + t;
    assert(u[0] == w[0]);
    assert(u[0] == dec_int(n)[0]);
    assert(w[0] == dec_int(m)[0]);
    assert((n < 0) == (dec_int(n)[0] == '-')) by {
        assert(is_digit(dec(x)[0]));
    }
    assert((m < 0) == (dec_int(m)[0] == '-')) by {
        assert(is_digit(dec(y)[0]));
    }
    assert(dec(x) + s == dec(y) + t) by {
        if n < 0 {
            assert(u.skip(1) =~= dec(x) + s);
            assert(w.skip(1) =~= dec(y) + t);
        }
    }
    lemma_digits_end(dec(x), dec(y), s, t);
    decimal_round_trip(x);
    decimal_round_trip(y);
}

proof fn lemma_escaped_front(s: Seq<char>)
    requires
        s.len() > 0,
    ensures
        escaped_all(s) == escaped(s[0]) + escaped_all(s.drop_first()),
    decreases s.len(),
{
    if s.len() == 1 {
        assert(s.drop_last() =~= Seq::empty());
        assert(s.drop_first() =~= Seq::empty());
        assert(escaped_all(s.drop_last()) =~= Seq::empty());
        assert(escaped_all(s.drop_first()) =~= Seq::empty());
        assert(escaped_all(s) =~= escaped(s[0]) + escaped_all(s.drop_first()));
    } else {
        let less = s.drop_last();
        lemma_escaped_front(less);
        assert(less.drop_first() =~= s.drop_first().drop_last());
        assert(s.drop_first().last() == s.last());
        assert(escaped_all(s) =~= escaped(s[0]) + escaped_all(s.drop_first()));
    }
}

/// One escaped character says which it is and where it ends.
proof fn lemma_escape_reads(c: char, d: char, s: Seq<char>, t: Seq<char>)
    requires
        escaped(c) + s == escaped(d) + t,
    ensures
        c == d,
        s == t,
{
    let x = escaped(c);
    let y = escaped(d);
    let u = x + s;
    let w = y + t;
    assert(u[0] == x[0] && w[0] == y[0]);
    if x[0] == '\\' {
        assert(u[1] == x[1]);
        assert(y[0] == '\\');
        assert(w[1] == y[1]);
        if x[1] == 'u' {
            assert(u[4] == x[4] && u[5] == x[5]);
            assert(w[4] == y[4] && w[5] == y[5]);
            lemma_digit_tells((c as nat) / 16, (d as nat) / 16);
            lemma_digit_tells((c as nat) % 16, (d as nat) % 16);
            assert(c as nat == d as nat);
        }
    }
    assert(c == d);
    lemma_same_front(x, y, s, t);
}

proof fn lemma_digit_tells(a: nat, b: nat)
    requires
        a < 16,
        b < 16,
        digit_char(a) == digit_char(b),
    ensures
        a == b,
{
    assert(digit_char(a) as int == if a < 10 {
        48 + a as int
    } else {
        87 + a as int
    });
    assert(digit_char(b) as int == if b < 10 {
        48 + b as int
    } else {
        87 + b as int
    });
}

/// A string literal says which text it holds and where it ends.
proof fn lemma_quoted_reads(x: Seq<char>, y: Seq<char>, s: Seq<char>, t: Seq<char>)
    requires
        quoted(x) + s == quoted(y) + t,
    ensures
        x == y,
        s == t,
{
    let q = seq!['"'];
    let u = quoted(x) + s;
    let w = quoted(y) + t;
    assert(u.skip(1) =~= escaped_all(x) + q + s);
    assert(w.skip(1) =~= escaped_all(y) + q + t);
    lemma_body_reads(x, y, s, t);
}

proof fn lemma_body_reads(x: Seq<char>, y: Seq<char>, s: Seq<char>, t: Seq<char>)
    requires
        escaped_all(x) + seq!['"'] + s == escaped_all(y) + seq!['"'] + t,
    ensures
        x == y,
        s == t,
    decreases x.len(),
{
    let q = seq!['"'];
    let u = escaped_all(x) + q + s;
    let w = escaped_all(y) + q + t;
    if x.len() == 0 || y.len() == 0 {
        if y.len() > 0 {
            lemma_escaped_front(y);
            assert(w[0] == escaped(y[0])[0]);
            assert(u[0] == '"');
        }
        if x.len() > 0 {
            lemma_escaped_front(x);
            assert(u[0] == escaped(x[0])[0]);
            assert(w[0] == '"');
        }
        assert(x =~= y);
        assert(u.skip(1) =~= s);
        assert(w.skip(1) =~= t);
    } else {
        lemma_escaped_front(x);
        lemma_escaped_front(y);
        let xr = escaped_all(x.drop_first()) + q + s;
        let yr = escaped_all(y.drop_first()) + q + t;
        assert(u =~= escaped(x[0]) + xr);
        assert(w =~= escaped(y[0]) + yr);
        lemma_escape_reads(x[0], y[0], xr, yr);
        lemma_body_reads(x.drop_first(), y.drop_first(), s, t);
        assert(x =~= seq![x[0]] + x.drop_first());
        assert(y =~= seq![y[0]] + y.drop_first());
    }
}

/// The items from the `k`th on, each but the very first behind a comma.
spec fn items_from(items: Seq<JsonView>, k: int) -> Seq<char>
    decreases items.len() - k,
{
    if k < 0 || k >= items.len() {
        Seq::empty()
    } else {
        comma(k) + compact(items[k]) + items_from(items, k + 1)
    }
}

/// The members from the `k`th on, each but the very first behind a comma.
spec fn members_from(members: Seq<(Seq<char>, JsonView)>, k: int) -> Seq<char>
    decreases members.len() - k,
{
    if k < 0 || k >= members.len() {
        Seq::empty()
    } else {
        comma(k) + quoted(members[k].0) + seq![':'] + compact(members[k].1) + members_from(
            members,
            k + 1,
        )
    }
}

spec fn comma(k: int) -> Seq<char> {
    if k > 0 {
        seq![',']
    } else {
        Seq::empty()
    }
}

proof fn lemma_items_split(items: Seq<JsonView>, k: nat)
    requires
        k <= items.len(),
    ensures
        compact_items(items, items.len()) == compact_items(items, k) + items_from(items, k as int),
    decreases items.len() - k,
{
    if k < items.len() {
        lemma_items_split(items, k + 1);
        let one = compact(items[k as int]);
        let rest = items_from(items, k as int + 1);
        assert(compact_items(items, k + 1) =~= compact_items(items, k) + comma(k as int) + one);
        assert(compact_items(items, k) + comma(k as int) + one + rest =~= compact_items(items, k)
            + items_from(items, k as int));
    } else {
        assert(items_from(items, k as int) =~= Seq::empty());
        assert(compact_items(items, k) + items_from(items, k as int) =~= compact_items(items, k));
    }
}

proof fn lemma_members_split(members: Seq<(Seq<char>, JsonView)>, k: nat)
    requires
        k <= members.len(),
    ensures
        compact_members(members, members.len()) == compact_members(members, k) + members_from(
            members,
            k as int,
        ),
    decreases members.len() - k,
{
    if k < members.len() {
        lemma_members_split(members, k + 1);
        let m = members[k as int];
        let rest = members_from(members, k as int + 1);
        let before = compact_members(members, k);
        assert(compact_members(members, k + 1) =~= before + comma(k as int) + quoted(m.0)
            + seq![':'] + compact(m.1));
        assert(before + comma(k as int) + quoted(m.0) + seq![':'] + compact(m.1) + rest =~= before
            + members_from(members, k as int));
    } else {
        assert(members_from(members, k as int) =~= Seq::empty());
        assert(compact_members(members, k) + members_from(members, k as int) =~= compact_members(
            members,
            k,
        ));
    }
}

/// The first character tells what sort of value follows.
proof fn lemma_head(j: JsonView)
    ensures
        compact(j).len() > 0,
        match j {
            JsonView::Null => compact(j)[0] == 'n',
            JsonView::Bool(_) => compact(j)[0] == 't' || compact(j)[0] == 'f',
            JsonView::Int(_) => compact(j)[0] == '-' || is_digit(compact(j)[0]),
            JsonView::Str(_) => compact(j)[0] == '"',
            JsonView::Array(_) => compact(j)[0] == '[',
            JsonView::Object(_) => compact(j)[0] == '{',
        },
{
    match j {
        JsonView::Int(n) => {
            lemma_all_digits(
                if n < 0 {
                    (-n) as nat
                } else {
                    n as nat
                },
            );
        },
        _ => {},
    }
}

/// A value's text says which value it is and where it ends.
proof fn lemma_reads_one_way(a: JsonView, b: JsonView, s: Seq<char>, t: Seq<char>)
    requires
        compact(a) + s == compact(b) + t,
        ended(s),
        ended(t),
    ensures
        a == b,
        s == t,
    decreases a, 0int,
{
    let u = compact(a) + s;
    let w = compact(b) + t;
    lemma_head(a);
    lemma_head(b);
    assert(u[0] == compact(a)[0]);
    assert(w[0] == compact(b)[0]);
    match (a, b) {
        (JsonView::Null, JsonView::Null) => {
            lemma_same_front(compact(a), compact(b), s, t);
        },
        (JsonView::Bool(x), JsonView::Bool(y)) => {
            assert(x == y);
            lemma_same_front(compact(a), compact(b), s, t);
        },
        (JsonView::Int(n), JsonView::Int(m)) => {
            lemma_int_reads(n, m, s, t);
        },
        (JsonView::Str(x), JsonView::Str(y)) => {
            lemma_quoted_reads(x, y, s, t);
        },
        (JsonView::Array(x), JsonView::Array(y)) => {
            let close = seq![']'];
            lemma_items_split(x, 0);
            lemma_items_split(y, 0);
            assert(u.skip(1) =~= items_from(x, 0) + (close + s));
            assert(w.skip(1) =~= items_from(y, 0) + (close + t));
            lemma_items_read(x, y, 0, s, t);
        },
        (JsonView::Object(x), JsonView::Object(y)) => {
            let close = seq!['}'];
            lemma_members_split(x, 0);
            lemma_members_split(y, 0);
            assert(u.skip(1) =~= members_from(x, 0) + (close + s));
            assert(w.skip(1) =~= members_from(y, 0) + (close + t));
            lemma_members_read(x, y, 0, s, t);
        },
        _ => {},
    }
}

proof fn lemma_items_read(
    x: Seq<JsonView>,
    y: Seq<JsonView>,
    k: int,
    s: Seq<char>,
    t: Seq<char>,
)
    requires
        0 <= k <= x.len(),
        k <= y.len(),
        forall|i: int| 0 <= i < k ==> #[trigger] x[i] == y[i],
        items_from(x, k) + (seq![']'] + s) == items_from(y, k) + (seq![']'] + t),
    ensures
        x == y,
        s == t,
    decreases x, x.len() - k + 1,
{
    let xs = seq![']'] + s;
    let ys = seq![']'] + t;
    let u = items_from(x, k) + xs;
    let w = items_from(y, k) + ys;
    if k < x.len() && k < y.len() {
        let xr = items_from(x, k + 1) + xs;
        let yr = items_from(y, k + 1) + ys;
        assert(u =~= comma(k) + (compact(x[k]) + xr));
        assert(w =~= comma(k) + (compact(y[k]) + yr));
        lemma_same_front(comma(k), comma(k), compact(x[k]) + xr, compact(y[k]) + yr);
        assert(ended(xr)) by {
            if k + 1 < x.len() {
                assert(xr[0] == ',');
            } else {
                assert(xr[0] == ']');
            }
        }
        assert(ended(yr)) by {
            if k + 1 < y.len() {
                assert(yr[0] == ',');
            } else {
                assert(yr[0] == ']');
            }
        }
        lemma_reads_one_way(x[k], y[k], xr, yr);
        lemma_items_read(x, y, k + 1, s, t);
    } else {
        if k < x.len() {
            lemma_head(x[k]);
            assert(u[0] == if k > 0 {
                ','
            } else {
                compact(x[k])[0]
            });
            assert(w[0] == ']');
        }
        if k < y.len() {
            lemma_head(y[k]);
            assert(w[0] == if k > 0 {
                ','
            } else {
                compact(y[k])[0]
            });
            assert(u[0] == ']');
        }
        assert(x =~= y);
        assert(u.skip(1) =~= s);
        assert(w.skip(1) =~= t);
    }
}

proof fn lemma_members_regroup(x: Seq<(Seq<char>, JsonView)>, k: int, end: Seq<char>)
    requires
        0 <= k < x.len(),
    ensures
        members_from(x, k) + end == comma(k) + (quoted(x[k].0) + (seq![':'] + (compact(x[k].1) + (
        members_from(x, k + 1) + end)))),
{
    let a = comma(k);
    let b = quoted(x[k].0);
    let c = seq![':'];
    let d = compact(x[k].1);
    let e = members_from(x, k + 1);
    assert(a + b + c + d + e + end =~= a + (b + (c + (d + (e + end)))));
}

proof fn lemma_members_read(
    x: Seq<(Seq<char>, JsonView)>,
    y: Seq<(Seq<char>, JsonView)>,
    k: int,
    s: Seq<char>,
    t: Seq<char>,
)
    requires
        0 <= k <= x.len(),
        k <= y.len(),
        forall|i: int| 0 <= i < k ==> #[trigger] x[i] == y[i],
        members_from(x, k) + (seq!['}'] + s) == members_from(y, k) + (seq!['}'] + t),
    ensures
        x == y,
        s == t,
    decreases x, x.len() - k + 1,
{
    let xs = seq!['}'] + s;
    let ys = seq!['}'] + t;
    let u = members_from(x, k) + xs;
    let w = members_from(y, k) + ys;
    if k < x.len() && k < y.len() {
        let xr = members_from(x, k + 1) + xs;
        let yr = members_from(y, k + 1) + ys;
        let xv = compact(x[k].1) + xr;
        let yv = compact(y[k].1) + yr;
        let xk = quoted(x[k].0) + (seq![':'] + xv);
        let yk = quoted(y[k].0) + (seq![':'] + yv);
        lemma_members_regroup(x, k, xs);
        lemma_members_regroup(y, k, ys);
        lemma_same_front(comma(k), comma(k), xk, yk);
        lemma_quoted_reads(x[k].0, y[k].0, seq![':'] + xv, seq![':'] + yv);
        lemma_same_front(seq![':'], seq![':'], xv, yv);
        assert(ended(xr)) by {
            if k + 1 < x.len() {
                assert(xr[0] == ',');
            } else {
                assert(xr[0] == '}');
            }
        }
        assert(ended(yr)) by {
            if k + 1 < y.len() {
                assert(yr[0] == ',');
            } else {
                assert(yr[0] == '}');
            }
        }
        lemma_reads_one_way(x[k].1, y[k].1, xr, yr);
        assert(x[k] == y[k]);
        lemma_members_read(x, y, k + 1, s, t);
    } else {
        if k < x.len() {
            assert(u[0] == if k > 0 {
                ','
            } else {
                '"'
            });
            assert(w[0] == '}');
        }
        if k < y.len() {
            assert(w[0] == if k > 0 {
                ','
            } else {
                '"'
            });
            assert(u[0] == '}');
        }
        assert(x =~= y);
        assert(u.skip(1) =~= s);
        assert(w.skip(1) =~= t);
    }
}

/// Does no string in the value, member names among them, hold a space?
pub open spec fn strings_without_spaces(j: JsonView) -> bool
    decreases j,
{
    match j {
        JsonView::Str(s) => !has_char(s, ' '),
        JsonView::Array(items) => forall|i: int|
            0 <= i < items.len() ==> strings_without_spaces(#[trigger] items[i]),
        JsonView::Object(members) => forall|i: int|
            0 <= i < members.len() ==> !has_char((#[trigger] members[i]).0, ' ')
                && strings_without_spaces(members[i].1),
        _ => true,
    }
}

/// Spaces occur in string literals alone: where no string holds one, the text
/// has none.
pub proof fn spaces_are_in_strings(j: JsonView)
    requires
        strings_without_spaces(j),
    ensures
        !has_char(compact(j), ' '),
    decreases j, 0int,
{
    match j {
        JsonView::Int(n) => {
            let x: nat = if n < 0 {
                (-n) as nat
            } else {
                n as nat
            };
            lemma_all_digits(x);
            lemma_spaceless_join(seq!['-'], dec(x));
        },
        JsonView::Str(s) => {
            lemma_quoted_spaceless(s);
        },
        JsonView::Array(items) => {
            lemma_items_spaceless(items, items.len());
            let body = compact_items(items, items.len());
            lemma_spaceless_join(seq!['['], body);
            lemma_spaceless_join(seq!['['] + body, seq![']']);
        },
        JsonView::Object(members) => {
            lemma_members_spaceless(members, members.len());
            let body = compact_members(members, members.len());
            lemma_spaceless_join(seq!['{'], body);
            lemma_spaceless_join(seq!['{'] + body, seq!['}']);
        },
        _ => {},
    }
}

proof fn lemma_spaceless_join(a: Seq<char>, b: Seq<char>)
    requires
        !has_char(a, ' '),
        !has_char(b, ' '),
    ensures
        !has_char(a + b, ' '),
{
    if has_char(a + b, ' ') {
        let i = choose|i: int| 0 <= i < (a + b).len() && (a + b)[i] == ' ';
        if i < a.len() {
            assert(a[i] == ' ');
        } else {
            assert(b[i - a.len()] == ' ');
        }
    }
}

proof fn lemma_escaped_spaceless(c: char)
    requires
        c != ' ',
    ensures
        !has_char(escaped(c), ' '),
{
    if (c as int) < 0x20 {
        assert(digit_char((c as nat) / 16) as int >= 48);
        assert(digit_char((c as nat) % 16) as int >= 48);
    }
}

proof fn lemma_quoted_spaceless(s: Seq<char>)
    requires
        !has_char(s, ' '),
    ensures
        !has_char(escaped_all(s), ' '),
        !has_char(quoted(s), ' '),
    decreases s.len(),
{
    if s.len() > 0 {
        let less = s.drop_last();
        assert forall|i: int| 0 <= i < less.len() implies less[i] != ' ' by {
            assert(s[i] == less[i]);
        }
        lemma_quoted_spaceless(less);
        let c = s.last();
        assert(c != ' ');
        lemma_escaped_spaceless(c);
        lemma_spaceless_join(escaped_all(less), escaped(c));
    }
    lemma_spaceless_join(seq!['"'], escaped_all(s));
    lemma_spaceless_join(seq!['"'] + escaped_all(s), seq!['"']);
}

proof fn lemma_items_spaceless(items: Seq<JsonView>, n: nat)
    requires
        forall|i: int| 0 <= i < items.len() ==> strings_without_spaces(#[trigger] items[i]),
    ensures
        !has_char(compact_items(items, n), ' '),
    decreases items, n + 1,
{
    if 0 < n <= items.len() {
        spaces_are_in_strings(items[n - 1]);
        if n > 1 {
            let before = compact_items(items, (n - 1) as nat);
            lemma_items_spaceless(items, (n - 1) as nat);
            lemma_spaceless_join(before, seq![',']);
            lemma_spaceless_join(before + seq![','], compact(items[n - 1]));
        }
    }
}

proof fn lemma_members_spaceless(members: Seq<(Seq<char>, JsonView)>, n: nat)
    requires
        forall|i: int|
            0 <= i < members.len() ==> !has_char((#[trigger] members[i]).0, ' ')
                && strings_without_spaces(members[i].1),
    ensures
        !has_char(compact_members(members, n), ' '),
    decreases members, n + 1,
{
    if 0 < n <= members.len() {
        let m = members[n - 1];
        lemma_quoted_spaceless(m.0);
        spaces_are_in_strings(m.1);
        if n == 1 {
            lemma_spaceless_join(quoted(m.0), seq![':']);
            lemma_spaceless_join(quoted(m.0) + seq![':'], compact(m.1));
        } else {
            let before = compact_members(members, (n - 1) as nat);
            lemma_members_spaceless(members, (n - 1) as nat);
            lemma_spaceless_join(before, seq![',']);
            lemma_spaceless_join(before + seq![','], quoted(m.0));
            lemma_spaceless_join(before + seq![','] + quoted(m.0), seq![':']);
            lemma_spaceless_join(before + seq![','] + quoted(m.0) + seq![':'], compact(m.1));
        }
    }
}

} // verus!
