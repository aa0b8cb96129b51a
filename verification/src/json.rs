//! A small JSON value model and its compact serialisation.
//!
//! Output has no spaces after `:` or `,`, keeps object members in insertion
//! order, and writes non-ASCII characters as they are.

use vstd::prelude::*;

use crate::number::{dec_int, digit_char, digit_of, digits, i64_text};
use crate::text::chars_of;

verus! {

/// A JSON value. Object members keep their insertion order.
#[derive(Debug)]
pub enum Json {
    Null,
    Bool(bool),
    Int(i64),
    Str(String),
    Array(Vec<Json>),
    Object(Vec<(String, Json)>),
}

/// A JSON value as mathematics sees it.
pub enum JsonView {
    Null,
    Bool(bool),
    Int(int),
    Str(Seq<char>),
    Array(Seq<JsonView>),
    Object(Seq<(Seq<char>, JsonView)>),
}

/// What a JSON value stands for.
pub open spec fn json_view(j: Json) -> JsonView
    decreases j,
{
    match j {
        Json::Null => JsonView::Null,
        Json::Bool(b) => JsonView::Bool(b),
        Json::Int(n) => JsonView::Int(n as int),
        Json::Str(s) => JsonView::Str(s@),
        Json::Array(items) => JsonView::Array(
            Seq::new(
                items@.len(),
                |i: int|
                    if 0 <= i < items@.len() {
                        json_view(items@[i])
                    } else {
                        JsonView::Null
                    },
            ),
        ),
        Json::Object(members) => JsonView::Object(
            Seq::new(
                members@.len(),
                |i: int|
                    if 0 <= i < members@.len() {
                        (members@[i].0@, json_view(members@[i].1))
                    } else {
                        (Seq::empty(), JsonView::Null)
                    },
            ),
        ),
    }
}

impl View for Json {
    type V = JsonView;

    open spec fn view(&self) -> JsonView {
        json_view(*self)
    }
}

/// The views of a list of values.
pub open spec fn json_views(items: Seq<Json>) -> Seq<JsonView> {
    Seq::new(items.len(), |i: int| items[i]@)
}

/// The views of a list of object members.
pub open spec fn member_views(members: Seq<(String, Json)>) -> Seq<(Seq<char>, JsonView)> {
    Seq::new(members.len(), |i: int| (members[i].0@, members[i].1@))
}

pub proof fn array_view(items: Vec<Json>)
    ensures
        Json::Array(items)@ == JsonView::Array(json_views(items@)),
{
    assert(Json::Array(items)@->Array_0 =~= json_views(items@));
}

pub proof fn object_view(members: Vec<(String, Json)>)
    ensures
        Json::Object(members)@ == JsonView::Object(member_views(members@)),
{
    assert(Json::Object(members)@->Object_0 =~= member_views(members@));
}

/// One character inside a JSON string literal.
pub open spec fn escaped(c: char) -> Seq<char> {
    if c == '"' {
        seq!['\\', '"']
    } else if c == '\\' {
        seq!['\\', '\\']
    } else if c == '\n' {
        seq!['\\', 'n']
    } else if c == '\r' {
        seq!['\\', 'r']
    } else if c == '\t' {
        seq!['\\', 't']
    } else if c == '\u{08}' {
        seq!['\\', 'b']
    } else if c == '\u{0c}' {
        seq!['\\', 'f']
    } else if (c as int) < 0x20 {
        seq!['\\', 'u', '0', '0', digit_char((c as nat) / 16), digit_char((c as nat) % 16)]
    } else {
        seq![c]
    }
}

/// The characters of `s` escaped one after another.
pub open spec fn escaped_all(s: Seq<char>) -> Seq<char>
    decreases s.len(),
{
    if s.len() == 0 {
        Seq::empty()
    } else {
        escaped_all(s.drop_last()) + escaped(s.last())
    }
}

/// A JSON string literal.
pub open spec fn quoted(s: Seq<char>) -> Seq<char> {
    seq!['"'] + escaped_all(s) + seq!['"']
}

/// The compact text of a JSON value.
pub open spec fn compact(j: JsonView) -> Seq<char>
    decreases j, 0nat,
{
    match j {
        JsonView::Null => seq!['n', 'u', 'l', 'l'],
        JsonView::Bool(b) => if b {
            seq!['t', 'r', 'u', 'e']
        } else {
            seq!['f', 'a', 'l', 's', 'e']
        },
        JsonView::Int(n) => dec_int(n),
        JsonView::Str(s) => quoted(s),
        JsonView::Array(items) => seq!['['] + compact_items(items, items.len()) + seq![']'],
        JsonView::Object(members) => seq!['{'] + compact_members(members, members.len()) + seq!['}'],
    }
}

/// The first `n` items, comma-separated.
pub open spec fn compact_items(items: Seq<JsonView>, n: nat) -> Seq<char>
    decreases items, n,
{
    if n == 0 || n > items.len() {
        Seq::empty()
    } else if n == 1 {
        compact(items[0])
    } else {
        compact_items(items, (n - 1) as nat) + seq![','] + compact(items[n - 1])
    }
}

/// The first `n` members, comma-separated.
pub open spec fn compact_members(members: Seq<(Seq<char>, JsonView)>, n: nat) -> Seq<char>
    decreases members, n,
{
    if n == 0 || n > members.len() {
        Seq::empty()
    } else if n == 1 {
        quoted(members[0].0) + seq![':'] + compact(members[0].1)
    } else {
        compact_members(members, (n - 1) as nat) + seq![','] + quoted(members[n - 1].0) + seq![':']
            + compact(members[n - 1].1)
    }
}

/// Append one character of a JSON string literal.
fn push_escaped(c: char, out: &mut String)
    ensures
        final(out)@ == old(out)@ + escaped(c),
{
    if c == '"' {
        out.push('\\');
        out.push('"');
    } else if c == '\\' {
        out.push('\\');
        out.push('\\');
    } else if c == '\n' {
        out.push('\\');
        out.push('n');
    } else if c == '\r' {
        out.push('\\');
        out.push('r');
    } else if c == '\t' {
        out.push('\\');
        out.push('t');
    } else if c == '\u{08}' {
        out.push('\\');
        out.push('b');
    } else if c == '\u{0c}' {
        out.push('\\');
        out.push('f');
    } else if (c as u32) < 0x20 {
        let n: u8 = c as u8;
        out.push('\\');
        out.push('u');
        out.push('0');
        out.push('0');
        out.push(digit_of(n / 16));
        out.push(digit_of(n % 16));
    } else {
        out.push(c);
    }
    assert(out@ =~= old(out)@ + escaped(c));
}

/// Append the JSON string literal for `s`.
fn write_json_string(s: &str, out: &mut String)
    ensures
        final(out)@ == old(out)@ + quoted(s@),
{
    out.push('"');
    let v: Vec<char> = chars_of(s);
    let mut i: usize = 0;
    assert(v@.take(0) =~= Seq::empty());
    assert(out@ =~= old(out)@ + seq!['"'] + escaped_all(v@.take(0)));
    while i < v.len()
        invariant
            i <= v.len(),
            out@ == old(out)@ + seq!['"'] + escaped_all(v@.take(i as int)),
        decreases v.len() - i,
    {
        push_escaped(v[i], out);
        proof {
            assert(v@.take(i + 1).drop_last() =~= v@.take(i as int));
            assert(v@.take(i + 1).last() == v@[i as int]);
            assert(out@ =~= old(out)@ + seq!['"'] + escaped_all(v@.take(i + 1)));
        }
        i += 1;
    }
    out.push('"');
    assert(v@.take(i as int) =~= s@);
    assert(out@ =~= old(out)@ + quoted(s@));
}

impl Json {
    pub fn str(s: &str) -> (j: Json)
        ensures
            j@ == JsonView::Str(s@),
    {
        Json::Str(s.to_owned())
    }

    /// A string, or `null` for `None`.
    pub fn opt_str(s: Option<&str>) -> (j: Json)
        ensures
            j@ == match s {
                Some(v) => JsonView::Str(v@),
                None => JsonView::Null,
            },
    {
        match s {
            Some(v) => Json::Str(v.to_owned()),
            None => Json::Null,
        }
    }

    /// An integer, or `null` for `None`.
    pub fn opt_int(v: Option<i64>) -> (j: Json)
        ensures
            j@ == match v {
                Some(n) => JsonView::Int(n as int),
                None => JsonView::Null,
            },
    {
        match v {
            Some(n) => Json::Int(n),
            None => Json::Null,
        }
    }

    /// Serialise to a compact string.
    pub fn to_compact_string(&self) -> (s: String)
        ensures
            s@ == compact(self@),
    {
        let mut out: String = String::new();
        self.write_compact(&mut out);
        assert(out@ =~= compact(self@));
        out
    }

    fn write_compact(&self, out: &mut String)
        ensures
            final(out)@ == old(out)@ + compact(self@),
        decreases self,
    {
        match self {
            Json::Null => {
                out.push('n');
                out.push('u');
                out.push('l');
                out.push('l');
                assert(out@ =~= old(out)@ + compact(self@));
            },
            Json::Bool(b) => {
                if *b {
                    out.push('t');
                    out.push('r');
                    out.push('u');
                    out.push('e');
                } else {
                    out.push('f');
                    out.push('a');
                    out.push('l');
                    out.push('s');
                    out.push('e');
                }
                assert(out@ =~= old(out)@ + compact(self@));
            },
            Json::Int(n) => {
                let t: String = i64_text(*n);
                out.push_str(t.as_str());
            },
            Json::Str(s) => {
                write_json_string(s.as_str(), out);
            },
            Json::Array(items) => {
                proof {
                    array_view(*items);
                }
                let ghost all = json_views(items@);
                out.push('[');
                let mut i: usize = 0;
                assert(out@ =~= old(out)@ + seq!['['] + compact_items(all, 0));
                while i < items.len()
                    invariant
                        i <= items.len(),
                        all == json_views(items@),
                        out@ == old(out)@ + seq!['['] + compact_items(all, i as nat),
                        *self == Json::Array(*items),
                    decreases items.len() - i,
                {
                    if i > 0 {
                        out.push(',');
                    }
                    assert(decreases_to!(*self => (*self)->Array_0));
                    assert(decreases_to!(items@ => items@[i as int]));
                    items[i].write_compact(out);
                    proof {
                        assert(all[i as int] == items@[i as int]@);
                        assert(out@ =~= old(out)@ + seq!['['] + compact_items(all, (i + 1) as nat));
                    }
                    i += 1;
                }
                out.push(']');
                assert(out@ =~= old(out)@ + compact(self@));
            },
            Json::Object(members) => {
                proof {
                    object_view(*members);
                }
                let ghost all = member_views(members@);
                out.push('{');
                let mut i: usize = 0;
                assert(out@ =~= old(out)@ + seq!['{'] + compact_members(all, 0));
                while i < members.len()
                    invariant
                        i <= members.len(),
                        all == member_views(members@),
                        out@ == old(out)@ + seq!['{'] + compact_members(all, i as nat),
                        *self == Json::Object(*members),
                    decreases members.len() - i,
                {
                    if i > 0 {
                        out.push(',');
                    }
                    write_json_string(members[i].0.as_str(), out);
                    out.push(':');
                    assert(decreases_to!(*self => (*self)->Object_0));
                    assert(decreases_to!(members@ => members@[i as int]));
                    assert(decreases_to!(members@[i as int] => members@[i as int].1));
                    members[i].1.write_compact(out);
                    proof {
                        assert(all[i as int] == (members@[i as int].0@, members@[i as int].1@));
                        assert(out@ =~= old(out)@ + seq!['{'] + compact_members(
                            all,
                            (i + 1) as nat,
                        ));
                    }
                    i += 1;
                }
                out.push('}');
                assert(out@ =~= old(out)@ + compact(self@));
            },
        }
    }
}

/// A builder for JSON objects.
pub struct Obj(Vec<(String, Json)>);

impl View for Obj {
    type V = Seq<(Seq<char>, JsonView)>;

    closed spec fn view(&self) -> Seq<(Seq<char>, JsonView)> {
        member_views(self.0@)
    }
}

impl Obj {
    pub fn new() -> (o: Obj)
        ensures
            o@ == Seq::<(Seq<char>, JsonView)>::empty(),
    {
        let o: Obj = Obj(Vec::new());
        assert(o@ =~= Seq::empty());
        o
    }

    /// Append one member.
    pub fn push(self, key: &str, value: Json) -> (o: Obj)
        ensures
            o@ == self@.push((key@, value@)),
    {
        let mut members: Vec<(String, Json)> = self.0;
        members.push((key.to_owned(), value));
        let o: Obj = Obj(members);
        assert(o@ =~= self@.push((key@, value@)));
        o
    }

    /// Append all the members of another table.
    pub fn extend(self, members: Vec<(String, Json)>) -> (o: Obj)
        ensures
            o@ == self@ + member_views(members@),
    {
        let mut all: Vec<(String, Json)> = self.0;
        let mut rest: Vec<(String, Json)> = members;
        all.append(&mut rest);
        let o: Obj = Obj(all);
        assert(o@ =~= self@ + member_views(members@));
        o
    }

    pub fn build(self) -> (j: Json)
        ensures
            j@ == JsonView::Object(self@),
    {
        proof {
            object_view(self.0);
        }
        Json::Object(self.0)
    }
}

impl Default for Obj {
    fn default() -> (o: Obj)
        ensures
            o@ == Seq::<(Seq<char>, JsonView)>::empty(),
    {
        Obj::new()
    }
}

/// An array of values.
pub fn array(items: Vec<Json>) -> (j: Json)
    ensures
        j@ == JsonView::Array(json_views(items@)),
{
    proof {
        array_view(items);
    }
    Json::Array(items)
}

/// An object with the given members.
pub fn object(members: Vec<(String, Json)>) -> (j: Json)
    ensures
        j@ == JsonView::Object(member_views(members@)),
{
    proof {
        object_view(members);
    }
    Json::Object(members)
}

/// Is there no control character, a line break among them?
pub open spec fn on_one_line(s: Seq<char>) -> bool {
    forall|i: int| 0 <= i < s.len() ==> (#[trigger] s[i]) as int >= 0x20
}

proof fn lemma_joined(a: Seq<char>, b: Seq<char>)
    requires
        on_one_line(a),
        on_one_line(b),
    ensures
        on_one_line(a + b),
{
    assert forall|i: int| 0 <= i < (a + b).len() implies (#[trigger] (a + b)[i]) as int
        >= 0x20 by {
        if i < a.len() {
            assert((a + b)[i] == a[i]);
        } else {
            assert((a + b)[i] == b[i - a.len()]);
        }
    }
}

proof fn lemma_escaped(c: char)
    ensures
        on_one_line(escaped(c)),
{
}

proof fn lemma_quoted(s: Seq<char>)
    ensures
        on_one_line(escaped_all(s)),
        on_one_line(quoted(s)),
    decreases s.len(),
{
    if s.len() > 0 {
        lemma_quoted(s.drop_last());
        lemma_escaped(s.last());
        lemma_joined(escaped_all(s.drop_last()), escaped(s.last()));
    }
    lemma_joined(seq!['"'], escaped_all(s));
    lemma_joined(seq!['"'] + escaped_all(s), seq!['"']);
}

proof fn lemma_digits(n: nat)
    ensures
        on_one_line(digits(n, 10)),
    decreases n,
{
    if n >= 10 {
        lemma_digits(n / 10);
    }
}

/// The text of a JSON value has no line break.
pub proof fn json_is_one_line(j: JsonView)
    ensures
        on_one_line(compact(j)),
    decreases j, 0nat,
{
    match j {
        JsonView::Null => {},
        JsonView::Bool(_) => {},
        JsonView::Int(n) => {
            if n < 0 {
                lemma_digits((-n) as nat);
            } else {
                lemma_digits(n as nat);
            }
        },
        JsonView::Str(s) => {
            lemma_quoted(s);
        },
        JsonView::Array(items) => {
            lemma_items(items, items.len());
            let body = compact_items(items, items.len());
            lemma_joined(seq!['['], body);
            lemma_joined(seq!['['] + body, seq![']']);
        },
        JsonView::Object(members) => {
            lemma_members(members, members.len());
            let body = compact_members(members, members.len());
            lemma_joined(seq!['{'], body);
            lemma_joined(seq!['{'] + body, seq!['}']);
        },
    }
}

proof fn lemma_items(items: Seq<JsonView>, n: nat)
    ensures
        on_one_line(compact_items(items, n)),
    decreases items, n,
{
    if n == 0 || n > items.len() {
    } else if n == 1 {
        json_is_one_line(items[0]);
    } else {
        let before = compact_items(items, (n - 1) as nat);
        lemma_items(items, (n - 1) as nat);
        json_is_one_line(items[n - 1]);
        lemma_joined(before, seq![',']);
        lemma_joined(before + seq![','], compact(items[n - 1]));
    }
}

proof fn lemma_members(members: Seq<(Seq<char>, JsonView)>, n: nat)
    ensures
        on_one_line(compact_members(members, n)),
    decreases members, n,
{
    if n == 0 || n > members.len() {
    } else {
        let m = members[n - 1];
        json_is_one_line(m.1);
        lemma_quoted(m.0);
        if n == 1 {
            lemma_joined(quoted(m.0), seq![':']);
            lemma_joined(quoted(m.0) + seq![':'], compact(m.1));
        } else {
            let before = compact_members(members, (n - 1) as nat);
            lemma_members(members, (n - 1) as nat);
            lemma_joined(before, seq![',']);
            lemma_joined(before + seq![','], quoted(m.0));
            lemma_joined(before + seq![','] + quoted(m.0), seq![':']);
            lemma_joined(before + seq![','] + quoted(m.0) + seq![':'], compact(m.1));
        }
    }
}

} // verus!
