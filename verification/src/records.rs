//! What the readers make of the values and names in a file.

use vstd::prelude::*;

use crate::clauses::{either, written};
use crate::collect::{decoded, kept, repeats, value_behind, Payload, WinKind};
use crate::decl::scope_name;
use crate::fold::{declared_kind, folded_all, logic_text, slot_of};
use crate::format::ValueKind;
use crate::history::{in_time_order, same_value, upto, value_at, ChangeView, RawView};
use crate::path::{extension, last_component, last_dot};
use crate::seek::first_bounds;
use crate::signal::{BackendSid, DeclView};
use crate::sweep::CondView;
use crate::text::{ascii_lower, byte_len, has_char, index_from, joined, pieces, pieces_from};

verus! {

// ---- values ----

/// Values are the same when they are of one kind and hold the same text or, of
/// numbers, the same bits.
pub proof fn same_values_hold_the_same(a: RawView, b: RawView, c: RawView)
    ensures
        same_value(a, a),
        same_value(a, b) == same_value(b, a),
        same_value(a, b) && same_value(b, c) ==> same_value(a, c),
        same_value(a, b) ==> (a is Bits == b is Bits) && (a is Real == b is Real) && (a is Str
            == b is Str),
        a is Bits && b is Bits ==> (same_value(a, b) <==> a == b),
        a is Str && b is Str ==> (same_value(a, b) <==> a == b),
{
}

/// The bytes of a logic value are its states, place by place, the capital
/// letters in lower case.
pub proof fn logic_bytes_are_states(bytes: Vec<u8>, i: int)
    requires
        0 <= i < bytes@.len(),
    ensures
        decoded(WinKind::Bits, Payload::Bytes(bytes)) is Some,
        ({
            let v = decoded(WinKind::Bits, Payload::Bytes(bytes))->0;
            let b = bytes@[i];
            &&& v is Bits
            &&& v->Bits_0.len() == bytes@.len()
            &&& b == 48 ==> v->Bits_0[i] == '0'
            &&& b == 49 ==> v->Bits_0[i] == '1'
            &&& b == 120 || b == 88 ==> v->Bits_0[i] == 'x'
            &&& b == 122 || b == 90 ==> v->Bits_0[i] == 'z'
            &&& b == 104 || b == 72 ==> v->Bits_0[i] == 'h'
            &&& b == 108 || b == 76 ==> v->Bits_0[i] == 'l'
            &&& b == 117 || b == 85 ==> v->Bits_0[i] == 'u'
            &&& b == 119 || b == 87 ==> v->Bits_0[i] == 'w'
        }),
{
    let b = bytes@[i];
    assert(48u8 as char == '0' && 49u8 as char == '1' && 120u8 as char == 'x' && 122u8 as char
        == 'z' && 104u8 as char == 'h' && 108u8 as char == 'l' && 117u8 as char == 'u' && 119u8
        as char == 'w');
}

/// A reported logic text is kept as it is, but for what is not ASCII.
pub proof fn logic_texts_are_kept(text: Seq<char>)
    requires
        forall|k: int| 0 <= k < text.len() ==> (#[trigger] text[k] as int) < 128,
        byte_len(text) == text.len(),
    ensures
        logic_text(text) == text,
{
    assert(logic_text(text) =~= text);
}

/// Of an event every report counts: nothing is folded away.
pub proof fn events_are_not_folded(es: Seq<ChangeView>)
    ensures
        folded_all(ValueKind::Event, es) == es,
    decreases es.len(),
{
    if es.len() > 0 {
        events_are_not_folded(es.drop_last());
        assert(es.drop_last().push(es.last()) =~= es);
    } else {
        assert(es =~= Seq::empty());
    }
}

/// Leaving repeats out leaves no two neighbours the same, and only entries that
/// were there.
pub proof fn kept_entries_differ(kind: WinKind, es: Seq<ChangeView>)
    ensures
        forall|i: int, j: int|
            0 <= i && j == i + 1 && j < kept(kind, None, es).len() ==> !repeats(
                kind,
                Some((#[trigger] kept(kind, None, es)[i]).value),
                (#[trigger] kept(kind, None, es)[j]).value,
            ),
        forall|i: int| 0 <= i < kept(kind, None, es).len() ==> es.contains(
            #[trigger] kept(kind, None, es)[i],
        ),
        es.len() > 0 ==> kept(kind, None, es).len() > 0,
    decreases es.len(),
{
    if es.len() > 0 {
        let less = es.drop_last();
        kept_entries_differ(kind, less);
        let p = kept(kind, None, less);
        let all = kept(kind, None, es);
        let e = es.last();
        assert(es[es.len() - 1] == e);
        assert forall|i: int| 0 <= i < all.len() implies es.contains(#[trigger] all[i]) by {
            if i < p.len() {
                assert(all[i] == p[i]);
                let k = choose|k: int| 0 <= k < less.len() && less[k] == p[i];
                assert(es[k] == all[i]);
            }
        }
        assert forall|i: int, j: int| 0 <= i && j == i + 1 && j < all.len() implies !repeats(
            kind,
            Some((#[trigger] all[i]).value),
            (#[trigger] all[j]).value,
        ) by {
            assert(all[i] == p[i]);
            if j < p.len() {
                assert(all[j] == p[j]);
            }
        }
    }
}

/// Leaving repeats out changes no value at any time.
pub proof fn kept_entries_keep_values(kind: WinKind, es: Seq<ChangeView>, t: int)
    requires
        in_time_order(es),
    ensures
        match value_at(es, t) {
            Some(v) => value_at(kept(kind, None, es), t) matches Some(w) && same_value(w, v),
            None => value_at(kept(kind, None, es), t) is None,
        },
        kept(kind, None, es).len() > 0 ==> es.len() > 0 && kept(kind, None, es).last().tick
            <= es.last().tick && same_value(kept(kind, None, es).last().value, es.last().value),
        es.len() > 0 ==> kept(kind, None, es).len() > 0,
    decreases es.len(),
{
    if es.len() > 0 {
        let less = es.drop_last();
        let e = es.last();
        assert forall|i: int, j: int| 0 <= i <= j < less.len() implies (#[trigger] less[i]).tick <= (
        #[trigger] less[j]).tick by {
            assert(es[i].tick <= es[j].tick);
        }
        kept_entries_keep_values(kind, less, t);
        let p = kept(kind, None, less);
        let all = kept(kind, None, es);
        if less.len() > 0 {
            assert(es[less.len() - 1].tick <= es[es.len() - 1].tick);
        }
        if repeats(kind, value_behind(None, p), e.value) {
            assert(all == p);
            assert(p.len() > 0);
            if e.tick <= t {
                assert(value_at(es, t) == Some(e.value));
                assert(p.last().tick <= t);
                assert(value_at(p, t) == Some(p.last().value));
            } else {
                assert(value_at(es, t) == value_at(less, t)) by {
                    lemma_upto_less(es, t);
                }
            }
        } else {
            assert(all == p.push(e));
            assert(all.drop_last() =~= p);
            if e.tick > t {
                lemma_upto_less(es, t);
                lemma_upto_less(all, t);
            }
        }
    }
}

proof fn lemma_upto_less(es: Seq<ChangeView>, t: int)
    requires
        es.len() > 0,
        es.last().tick > t,
    ensures
        value_at(es, t) == value_at(es.drop_last(), t),
    decreases es.len(),
{
    lemma_upto_bound(es.drop_last(), t);
    let n = upto(es.drop_last(), t);
    if n > 0 {
        assert(es.drop_last()[n - 1] == es[n - 1]);
    }
}

proof fn lemma_upto_bound(es: Seq<ChangeView>, t: int)
    ensures
        0 <= upto(es, t) <= es.len(),
    decreases es.len(),
{
    if es.len() > 0 && es.last().tick > t {
        lemma_upto_bound(es.drop_last(), t);
    }
}

/// The window that is read begins where it is asked to, within the file; and
/// ends where it is asked to, but not before it begins.
pub proof fn read_windows_are_as_asked(from: int, to: Option<int>, file_end: int)
    requires
        file_end >= 0,
    ensures
        0 <= first_bounds(from, to, file_end).0 <= file_end,
        0 <= from <= file_end ==> first_bounds(from, to, file_end).0 == from,
        from < 0 ==> first_bounds(from, to, file_end).0 == 0,
        from > file_end ==> first_bounds(from, to, file_end).0 == file_end,
        to is None ==> first_bounds(from, to, file_end).1 is None,
        to matches Some(t) ==> first_bounds(from, to, file_end).1 is Some && t <= first_bounds(
            from,
            to,
            file_end,
        ).1->0,
        to matches Some(t) ==> from <= t && 0 <= from <= file_end ==> first_bounds(
            from,
            to,
            file_end,
        ).1 == to,
{
}

// ---- handles ----

/// A handle is read into the slot that asks for it.
pub proof fn slots_are_those_asked(sids: Seq<BackendSid>, handle: usize)
    ensures
        match slot_of(sids, handle) {
            Some(k) => 0 <= k < sids.len() && sids[k].0 == handle,
            None => forall|i: int| 0 <= i < sids.len() ==> (#[trigger] sids[i]).0 != handle,
        },
    decreases sids.len(),
{
    if sids.len() > 0 && sids.last().0 != handle {
        slots_are_those_asked(sids.drop_last(), handle);
        let less = sids.drop_last();
        if slot_of(sids, handle) is None {
            assert forall|i: int| 0 <= i < sids.len() implies (#[trigger] sids[i]).0 != handle by {
                if i < less.len() {
                    assert(less[i].0 != handle);
                }
            }
        }
    }
}

/// The kind of a handle is one that is declared of it; logic where none is.
pub proof fn kinds_are_declared(decls: Seq<DeclView>, handle: usize)
    ensures
        (forall|i: int| 0 <= i < decls.len() ==> (#[trigger] decls[i]).handle != handle)
            ==> declared_kind(decls, handle) == ValueKind::Bits,
        (exists|i: int| 0 <= i < decls.len() && (#[trigger] decls[i]).handle == handle) ==> exists|
            i: int,
        |
            0 <= i < decls.len() && (#[trigger] decls[i]).handle == handle && decls[i].kind
                == declared_kind(decls, handle),
    decreases decls.len(),
{
    if decls.len() > 0 {
        let less = decls.drop_last();
        kinds_are_declared(less, handle);
        if decls.last().handle == handle {
            assert(decls[decls.len() - 1].kind == declared_kind(decls, handle));
        } else {
            if forall|i: int| 0 <= i < decls.len() ==> (#[trigger] decls[i]).handle != handle {
                assert forall|i: int| 0 <= i < less.len() implies (#[trigger] less[i]).handle
                    != handle by {
                    assert(decls[i].handle != handle);
                }
            } else {
                let i = choose|i: int| 0 <= i < decls.len() && (#[trigger] decls[i]).handle
                    == handle;
                assert(less[i].handle == handle);
                let k = choose|k: int|
                    0 <= k < less.len() && (#[trigger] less[k]).handle == handle && less[k].kind
                        == declared_kind(less, handle);
                assert(decls[k].handle == handle && decls[k].kind == declared_kind(decls, handle));
            }
        }
    }
}

// ---- names ----

/// The scope of a name is what stands before it and its point.
pub proof fn scopes_stand_before_names(scope: Seq<char>, local: Seq<char>)
    ensures
        scope.len() > 0 ==> scope_name(scope + seq!['.'] + local, local) == scope,
        scope_name(local, local).len() == 0,
{
    let full = scope + seq!['.'] + local;
    let at = full.len() - local.len() - 1;
    if scope.len() > 0 {
        assert(at == scope.len());
        assert(full.subrange(at + 1, full.len() as int) =~= local);
        assert(full.take(at) =~= scope);
    }
}

proof fn lemma_index_from(s: Seq<char>, c: char, from: int)
    requires
        0 <= from <= s.len(),
    ensures
        from <= index_from(s, c, from) <= s.len(),
        index_from(s, c, from) < s.len() ==> s[index_from(s, c, from)] == c,
        forall|i: int| from <= i < index_from(s, c, from) ==> #[trigger] s[i] != c,
    decreases s.len() - from,
{
    if from < s.len() && s[from] != c {
        lemma_index_from(s, c, from + 1);
    }
}

proof fn lemma_last_piece(x: Seq<char>, y: Seq<char>, c: char, from: int)
    requires
        !has_char(y, c),
        0 <= from <= x.len() + 1,
    ensures
        pieces_from(x + seq![c] + y, c, from).len() > 0,
        pieces_from(x + seq![c] + y, c, from).last() == y,
    decreases x.len() + 1 - from,
{
    let all = x + seq![c] + y;
    let n = x.len() as int;
    lemma_index_from(all, c, from);
    let at = index_from(all, c, from);
    assert(all[n] == c);
    if from <= n {
        if at > n {
            assert(all[n] != c);
        }
        lemma_last_piece(x, y, c, at + 1);
        let rest = pieces_from(all, c, at + 1);
        let whole = seq![all.subrange(from, at)] + rest;
        assert(whole.last() == rest.last());
    } else {
        if at < all.len() {
            assert(all[at] == y[at - n - 1]);
        }
        assert(all.subrange(from, all.len() as int) =~= y);
    }
}

proof fn lemma_last_dot(stem: Seq<char>, ext: Seq<char>)
    requires
        !has_char(ext, '.'),
    ensures
        last_dot(stem + seq!['.'] + ext) == stem.len(),
    decreases ext.len(),
{
    let all = stem + seq!['.'] + ext;
    if ext.len() > 0 {
        let less = ext.drop_last();
        assert(ext[ext.len() - 1] != '.');
        assert(!has_char(less, '.')) by {
            if has_char(less, '.') {
                let i = choose|i: int| 0 <= i < less.len() && less[i] == '.';
                assert(ext[i] == '.');
            }
        }
        lemma_last_dot(stem, less);
        assert(all.drop_last() =~= stem + seq!['.'] + less);
    }
}

/// The extension of a file is what follows the last point of its name, in lower
/// case.
pub proof fn extension_follows_the_last_point(dir: Seq<char>, stem: Seq<char>, ext: Seq<char>)
    requires
        stem.len() > 0,
        ext.len() > 0,
        !has_char(stem, '/'),
        !has_char(ext, '/'),
        !has_char(ext, '.'),
    ensures
        extension(dir + seq!['/'] + (stem + seq!['.'] + ext)) == Some(
            ext.map_values(|c: char| ascii_lower(c)),
        ),
{
    let name = stem + seq!['.'] + ext;
    let n = stem.len() as int;
    assert(!has_char(name, '/')) by {
        if has_char(name, '/') {
            let i = choose|i: int| 0 <= i < name.len() && name[i] == '/';
            if i < n {
                assert(stem[i] == '/');
            } else if i > n {
                assert(ext[i - n - 1] == '/');
            }
        }
    }
    lemma_last_piece(dir, name, '/', 0);
    lemma_last_dot(stem, ext);
    let parts = pieces(dir + seq!['/'] + name, '/');
    assert(parts.last() == name);
    reveal_strlit(".");
    reveal_strlit("..");
    assert(name != "."@) by {
        assert(name.len() >= 3);
    }
    assert(name != ".."@) by {
        assert(name.len() >= 3);
    }
    assert(last_component(parts) == Some(name));
    assert(name.skip(n + 1) =~= ext);
}

// ---- labels ----

/// The label of a condition: of one clause, its terms with commas between; of
/// several, each in brackets with `OR` between.
pub proof fn labels_spell_the_condition(a: CondView, b: CondView, x: Seq<char>, y: Seq<char>)
    ensures
        written(seq![a]) == a.original,
        written(seq![a, b]) == a.original + ","@ + b.original,
        either(seq![x]) == x,
        either(seq![x, y]) == ("("@ + x + ")"@) + " OR "@ + ("("@ + y + ")"@),
{
    let one = seq![a].map_values(|c: CondView| c.original);
    assert(one =~= seq![a.original]);
    let two = seq![a, b].map_values(|c: CondView| c.original);
    assert(two =~= seq![a.original, b.original]);
    assert(two.drop_last() =~= seq![a.original]);
    assert(joined(two.drop_last(), ","@) == a.original);
    let f = |l: Seq<char>| "("@ + l + ")"@;
    let both = seq![x, y].map_values(f);
    assert(both =~= seq!["("@ + x + ")"@, "("@ + y + ")"@]);
    assert(both.drop_last() =~= seq!["("@ + x + ")"@]);
    assert(joined(both.drop_last(), " OR "@) == "("@ + x + ")"@);
}

} // verus!
