//! What a trace is asked, and which signals its endpoints stand for.

use vstd::prelude::*;

use crate::cli::ArgsView;
use crate::design::{database_of, inside, Direction, HopView, KdbFacts, MissView};
use crate::endpoints::{endpoint_of, first_with_path, only_with_path};
use crate::model::WaveView;
use crate::path::last_component;
use crate::report::path_meant;
use crate::signal::{has_path_ci, SignalView};
use crate::text::{has_char, lowercase, pieces, trimmed};
use crate::time::{time_of, Timescale};
use crate::trace::{
    base_name, first_times, names_in, trace_asked, unknown_names, TraceFacts,
};

verus! {

/// A trace goes from the one path that its target names, to the loads with
/// `--load` and to the drivers otherwise, at the time asked for, if one is.
pub proof fn a_trace_is_as_asked<T: Timescale>(
    w: WaveView,
    a: ArgsView,
    facts: TraceFacts,
    ts: &T,
)
    ensures
        trace_asked(w, a, facts, ts) matches Ok(q) ==> {
            &&& facts.enabled && facts.supported
            &&& a.target is Some && trimmed(a.target->0).len() > 0
            &&& path_meant(w.table, trimmed(a.target->0), "signal"@) is Ok
            &&& path_meant(w.table, trimmed(a.target->0), "signal"@)->Ok_0.0 == q.path
            &&& a.load <==> q.dir == Direction::Load
            &&& !a.load <==> q.dir == Direction::Driver
            &&& q.control == a.control
            &&& a.at is None ==> q.at is None
            &&& a.at matches Some(t) ==> trimmed(t).len() == 0 ==> q.at is None
            &&& a.at matches Some(t) ==> trimmed(t).len() > 0 ==> q.at is Some && time_of(t, ts)
                == Ok::<int, Seq<char>>(q.at->0)
        },
        trace_asked(w, a, facts, ts) is Ok <==> facts.enabled && facts.supported && (
        a.target matches Some(s) && trimmed(s).len() > 0 && path_meant(
            w.table,
            trimmed(s),
            "signal"@,
        ) is Ok) && (a.at matches Some(t) ==> trimmed(t).len() > 0 ==> time_of(t, ts) is Ok),
{
}

proof fn lemma_first_with_path(table: Seq<SignalView>, path: Seq<char>, n: nat)
    requires
        n <= table.len() <= usize::MAX,
    ensures
        match first_with_path(table, path, n) {
            Some(s) => s < n && table[s as int].aliases.contains(path) && forall|i: int|
                0 <= i < s ==> !(#[trigger] table[i]).aliases.contains(path),
            None => forall|i: int| 0 <= i < n ==> !(#[trigger] table[i]).aliases.contains(path),
        },
    decreases n,
{
    if n > 0 {
        lemma_first_with_path(table, path, (n - 1) as nat);
    }
}

proof fn lemma_only_with_path(table: Seq<SignalView>, lower: Seq<char>, n: nat)
    requires
        n <= table.len() <= usize::MAX,
    ensures
        match only_with_path(table, lower, n) {
            None => forall|i: int| 0 <= i < n ==> !has_path_ci(#[trigger] table[i], lower),
            Some(Some(s)) => s < n && has_path_ci(table[s as int], lower) && forall|i: int|
                0 <= i < n && has_path_ci(#[trigger] table[i], lower) ==> i == s,
            Some(None) => exists|i: int, j: int|
                0 <= i < j < n && has_path_ci(#[trigger] table[i], lower) && has_path_ci(
                    #[trigger] table[j],
                    lower,
                ),
        },
    decreases n,
{
    if n > 0 {
        lemma_only_with_path(table, lower, (n - 1) as nat);
        if has_path_ci(table[n - 1], lower) {
            match only_with_path(table, lower, (n - 1) as nat) {
                Some(Some(s)) => {
                    assert(has_path_ci(table[s as int], lower));
                },
                _ => {},
            }
        }
    }
}

/// An endpoint stands for the first signal that has its very path; where none
/// has, for the one signal that has it but for the case of its letters; and
/// otherwise for none.
pub proof fn endpoints_stand_for_signals(table: Seq<SignalView>, name: Seq<char>, s: usize)
    requires
        table.len() <= usize::MAX,
    ensures
        endpoint_of(table, name) == Some(s) <==> s < table.len() && ((
        table[s as int].aliases.contains(name) && forall|i: int|
            0 <= i < s ==> !(#[trigger] table[i]).aliases.contains(name)) || ((forall|i: int|
            0 <= i < table.len() ==> !(#[trigger] table[i]).aliases.contains(name)) && has_path_ci(
            table[s as int],
            lowercase(name),
        ) && forall|i: int|
            0 <= i < table.len() && has_path_ci(#[trigger] table[i], lowercase(name)) ==> i == s)),
{
    lemma_first_with_path(table, name, table.len());
    lemma_only_with_path(table, lowercase(name), table.len());
    match first_with_path(table, name, table.len()) {
        Some(x) => {
            assert(table[x as int].aliases.contains(name));
            if s < table.len() && table[s as int].aliases.contains(name) {
                if x < s {
                    assert(table[x as int].aliases.contains(name));
                }
            }
        },
        None => {
            if s < table.len() {
                assert(!table[s as int].aliases.contains(name));
            }
            match only_with_path(table, lowercase(name), table.len()) {
                Some(Some(x)) => {
                    assert(has_path_ci(table[x as int], lowercase(name)));
                },
                Some(None) => {
                    let (i, j) = choose|i: int, j: int|
                        0 <= i < j < table.len() && has_path_ci(
                            #[trigger] table[i],
                            lowercase(name),
                        ) && has_path_ci(#[trigger] table[j], lowercase(name));
                    assert(has_path_ci(table[i], lowercase(name)) && has_path_ci(
                        table[j],
                        lowercase(name),
                    ));
                },
                None => {},
            }
        },
    }
}

/// The names that are looked up: each that occurs, once.
pub proof fn names_are_looked_up_once(v: Seq<Seq<char>>, x: Seq<char>)
    ensures
        first_times(v).contains(x) <==> v.contains(x),
        first_times(v).no_duplicates(),
    decreases v.len(),
{
    if v.len() > 0 {
        let less = v.drop_last();
        let y = v.last();
        names_are_looked_up_once(less, x);
        names_are_looked_up_once(less, y);
        let rest = first_times(less);
        assert(v[v.len() - 1] == y);
        if less.contains(x) {
            let k = choose|k: int| 0 <= k < less.len() && less[k] == x;
            assert(v[k] == x);
        }
        if v.contains(x) && x != y {
            let k = choose|k: int| 0 <= k < v.len() && v[k] == x;
            assert(less[k] == x);
        }
        if !rest.contains(y) {
            let all = rest.push(y);
            assert(all[rest.len() as int] == y);
            if rest.contains(x) {
                let k = choose|k: int| 0 <= k < rest.len() && rest[k] == x;
                assert(all[k] == x);
            }
            if all.contains(x) && x != y {
                let k = choose|k: int| 0 <= k < all.len() && all[k] == x;
                assert(rest[k] == x);
            }
        }
    }
}

/// The names of several hops are those of each.
pub proof fn names_come_from_hops(hops: Seq<HopView>, x: Seq<char>)
    ensures
        names_in(hops).contains(x) <==> exists|i: int|
            0 <= i < hops.len() && (#[trigger] hops[i]).signals.contains(x),
    decreases hops.len(),
{
    if hops.len() > 0 {
        let less = hops.drop_last();
        names_come_from_hops(less, x);
        let a = names_in(less);
        let b = hops.last().signals;
        let all = a + b;
        if a.contains(x) {
            let k = choose|k: int| 0 <= k < a.len() && a[k] == x;
            assert(all[k] == x);
            let i = choose|i: int| 0 <= i < less.len() && (#[trigger] less[i]).signals.contains(x);
            assert(hops[i].signals.contains(x));
        }
        if b.contains(x) {
            let k = choose|k: int| 0 <= k < b.len() && b[k] == x;
            assert(all[a.len() + k] == x);
            assert(hops[hops.len() - 1].signals.contains(x));
        }
        if all.contains(x) {
            let k = choose|k: int| 0 <= k < all.len() && all[k] == x;
            if k < a.len() {
                assert(a[k] == x);
            } else {
                assert(b[k - a.len()] == x);
            }
        }
        if exists|i: int| 0 <= i < hops.len() && (#[trigger] hops[i]).signals.contains(x) {
            let i = choose|i: int| 0 <= i < hops.len() && (#[trigger] hops[i]).signals.contains(x);
            if i < less.len() {
                assert(less[i].signals.contains(x));
            }
        }
    }
}

/// The unresolved names are those that stand for no signal.
pub proof fn unresolved_names_are_counted(table: Seq<SignalView>, names: Seq<Seq<char>>)
    ensures
        unknown_names(table, names) == names.filter(
            |x: Seq<char>| endpoint_of(table, x) is None,
        ).len(),
    decreases names.len(),
{
    reveal(Seq::filter);
    if names.len() > 0 {
        unresolved_names_are_counted(table, names.drop_last());
    }
}

/// The name of a file without its directories.
pub proof fn base_name_is_after_the_slashes(dir: Seq<char>, c: char, name: Seq<char>)
    requires
        c == '/' || c == '\\',
        !has_char(name, '/'),
        !has_char(name, '\\'),
    ensures
        base_name(dir + seq![c] + name) == name,
        base_name(name) == name,
{
    lemma_base_name(dir + seq![c], name);
    lemma_base_name(Seq::empty(), name);
    assert(Seq::<char>::empty() + name =~= name);
    assert((dir + seq![c]).last() == c);
}

proof fn lemma_base_name(front: Seq<char>, name: Seq<char>)
    requires
        front.len() == 0 || front.last() == '/' || front.last() == '\\',
        !has_char(name, '/'),
        !has_char(name, '\\'),
    ensures
        base_name(front + name) == name,
    decreases name.len(),
{
    let all = front + name;
    if name.len() == 0 {
        assert(all =~= front);
        assert(name =~= Seq::empty());
    } else {
        let less = name.drop_last();
        let c = name[name.len() - 1];
        assert(c != '/' && c != '\\');
        assert(!has_char(less, '/') && !has_char(less, '\\')) by {
            if has_char(less, '/') {
                let i = choose|i: int| 0 <= i < less.len() && less[i] == '/';
                assert(name[i] == '/');
            }
            if has_char(less, '\\') {
                let i = choose|i: int| 0 <= i < less.len() && less[i] == '\\';
                assert(name[i] == '\\');
            }
        }
        lemma_base_name(front, less);
        assert(all.drop_last() =~= front + less);
        assert(less.push(c) =~= name);
    }
}

/// The design database: `--kdb`, where it is given, or else the one recorded in
/// the file; either is the database itself or the directory that holds one.
pub proof fn database_is_where_it_is_looked_for(
    given: Option<Seq<char>>,
    recorded: Option<Seq<char>>,
    seen: KdbFacts,
    p: Seq<char>,
)
    requires
        given matches Some(k) && trimmed(k).len() > 0 ==> p == trimmed(given->0),
        !(given matches Some(k) && trimmed(k).len() > 0) ==> recorded == Some(p),
    ensures
        ({
            let is_one = last_component(pieces(p, '/')) == Some("kdb.elab++"@) && seen.exists;
            let r = database_of(given, recorded, seen);
            &&& is_one ==> r == Ok::<Seq<char>, MissView>(p)
            &&& !is_one && seen.elab_inside ==> r == Ok::<Seq<char>, MissView>(
                inside(p, "kdb.elab++"@),
            )
            &&& r is Ok <==> is_one || seen.elab_inside
            &&& r matches Err(m) ==> seen.work_inside ==> m == MissView::NotElaborated(p)
        }),
        !(given matches Some(k) && trimmed(k).len() > 0) ==> database_of(given, None, seen) == Err::<
            Seq<char>,
            MissView,
        >(MissView::NotRecorded),
{
}

} // verus!
