//! What the listings of paths hold, and which path a name stands for.

use vstd::prelude::*;

use crate::cli::ArgsView;
use crate::condition::list_items;
use crate::filter::{patterns_of, MatchMode};
use crate::info::{duration, first_time, grouped, last_time};
use crate::list::{entry_paths, list_of, listed_paths, shown_paths, sorted_entries, EntryView};
use crate::model::WaveView;
use crate::order::{
    sorting_keeps_items, stable_before, stable_order_sorts, text_at_most, text_le, text_le_is_total,
    text_order,
};
use crate::pairs::{pairs_sorted, sorted_pairs_are_the_pairs, without_doubles, PairView};
use crate::report::{
    choice_of, chosen, is_named, is_path, matched_pairs, path_meant, paths_in_signal,
    paths_in_table, report_of, sids_are_the_matches, sids_of,
};
use crate::search::search_window;
use crate::select::{first_kept, keeps, keeps_path, selects_all, shows_path, SelectionView};
use crate::signal::SignalView;
use crate::text::{has_char, lowercase, trimmed};
use crate::time::{time_of, Timescale};

verus! {

// ---- list ----

/// Is the path one of the signal's that the selection shows?
pub open spec fn shown_of(s: SelectionView, g: SignalView, path: Seq<char>) -> bool {
    exists|i: int|
        0 <= i < g.aliases.len() && (#[trigger] g.aliases[i]) == path && shows_path(
            s,
            path,
            g.scopes[i],
        )
}

proof fn lemma_shown_paths(s: SelectionView, g: SignalView, sid: usize, n: int)
    requires
        0 <= n <= g.aliases.len(),
    ensures
        forall|e: EntryView| #[trigger]
            shown_paths(s, g, sid, n).contains(e) <==> e.sid == sid && exists|i: int|
                0 <= i < n && (#[trigger] g.aliases[i]) == e.path && shows_path(
                    s,
                    e.path,
                    g.scopes[i],
                ),
        g.aliases.no_duplicates() ==> shown_paths(s, g, sid, n).no_duplicates(),
    decreases n,
{
    if n > 0 {
        lemma_shown_paths(s, g, sid, n - 1);
        let rest = shown_paths(s, g, sid, n - 1);
        let all = shown_paths(s, g, sid, n);
        let y = EntryView { path: g.aliases[n - 1], sid };
        if shows_path(s, y.path, g.scopes[n - 1]) {
            assert(all[rest.len() as int] == y);
            assert forall|e: EntryView| #[trigger] all.contains(e) <==> rest.contains(e) || e
                == y by {
                if all.contains(e) {
                    let k = choose|k: int| 0 <= k < all.len() && all[k] == e;
                    if k < rest.len() {
                        assert(rest[k] == e);
                    }
                }
                if rest.contains(e) {
                    let k = choose|k: int| 0 <= k < rest.len() && rest[k] == e;
                    assert(all[k] == e);
                }
            }
            if g.aliases.no_duplicates() {
                assert(!rest.contains(y)) by {
                    if rest.contains(y) {
                        let i = choose|i: int|
                            0 <= i < n - 1 && (#[trigger] g.aliases[i]) == y.path && shows_path(
                                s,
                                y.path,
                                g.scopes[i],
                            );
                        assert(g.aliases[i] == g.aliases[n - 1]);
                    }
                }
                lemma_push_distinct(rest, y);
            }
        }
        assert forall|e: EntryView| #[trigger] all.contains(e) <==> e.sid == sid && exists|i: int|
            0 <= i < n && (#[trigger] g.aliases[i]) == e.path && shows_path(
                s,
                e.path,
                g.scopes[i],
            ) by {
            assert(rest.contains(e) ==> all.contains(e));
            if e.sid == sid && exists|i: int|
                0 <= i < n && (#[trigger] g.aliases[i]) == e.path && shows_path(
                    s,
                    e.path,
                    g.scopes[i],
                ) {
                let i = choose|i: int|
                    0 <= i < n && (#[trigger] g.aliases[i]) == e.path && shows_path(
                        s,
                        e.path,
                        g.scopes[i],
                    );
                if i == n - 1 {
                    assert(e == y);
                } else {
                    assert(rest.contains(e));
                }
            }
            if all.contains(e) && e == y && !rest.contains(e) {
                assert(g.aliases[n - 1] == e.path);
            }
        }
    }
}

proof fn lemma_push_distinct<A>(v: Seq<A>, x: A)
    requires
        v.no_duplicates(),
        !v.contains(x),
    ensures
        v.push(x).no_duplicates(),
{
    let w = v.push(x);
    assert forall|i: int, j: int| 0 <= i < w.len() && 0 <= j < w.len() && i != j implies w[i]
        != w[j] by {
        if i < v.len() && j < v.len() {
            assert(v[i] != v[j]);
        } else if i < v.len() {
            assert(v.contains(v[i]));
        } else {
            assert(v.contains(v[j]));
        }
    }
}

proof fn lemma_listed(s: SelectionView, table: Seq<SignalView>, n: int)
    requires
        0 <= n <= table.len() <= usize::MAX,
    ensures
        forall|e: EntryView| #[trigger]
            listed_paths(s, table, n).contains(e) <==> e.sid < n && keeps(s, table[e.sid as int])
                && shown_of(s, table[e.sid as int], e.path),
        (forall|i: int| 0 <= i < n ==> (#[trigger] table[i]).aliases.no_duplicates())
            ==> listed_paths(s, table, n).no_duplicates(),
    decreases n,
{
    if n > 0 {
        lemma_listed(s, table, n - 1);
        let g = table[n - 1];
        let rest = listed_paths(s, table, n - 1);
        let more = shown_paths(s, g, (n - 1) as usize, g.aliases.len() as int);
        let all = listed_paths(s, table, n);
        lemma_shown_paths(s, g, (n - 1) as usize, g.aliases.len() as int);
        if keeps(s, g) {
            assert forall|e: EntryView| #[trigger] all.contains(e) <==> rest.contains(e)
                || more.contains(e) by {
                if all.contains(e) {
                    let k = choose|k: int| 0 <= k < all.len() && all[k] == e;
                    if k < rest.len() {
                        assert(rest[k] == e);
                    } else {
                        assert(more[k - rest.len()] == e);
                    }
                }
                if rest.contains(e) {
                    let k = choose|k: int| 0 <= k < rest.len() && rest[k] == e;
                    assert(all[k] == e);
                }
                if more.contains(e) {
                    let k = choose|k: int| 0 <= k < more.len() && more[k] == e;
                    assert(all[rest.len() + k] == e);
                }
            }
            if forall|i: int| 0 <= i < n ==> (#[trigger] table[i]).aliases.no_duplicates() {
                assert(g.aliases.no_duplicates());
                assert forall|i: int, j: int| 0 <= i < all.len() && 0 <= j < all.len() && i
                    != j implies all[i] != all[j] by {
                    if i < rest.len() && j < rest.len() {
                        assert(rest[i] != rest[j]);
                    } else if i >= rest.len() && j >= rest.len() {
                        assert(more[i - rest.len()] != more[j - rest.len()]);
                    } else if i < rest.len() {
                        assert(rest.contains(rest[i]) && more.contains(more[j - rest.len()]));
                    } else {
                        assert(rest.contains(rest[j]) && more.contains(more[i - rest.len()]));
                    }
                }
            }
        }
    }
}

/// `list` shows every path that the selection shows of every signal that it
/// keeps, and no other; in the order of the paths, and each once where no
/// signal has one twice.
pub proof fn list_shows_the_paths(table: Seq<SignalView>, a: ArgsView, s: SelectionView, e: EntryView)
    requires
        choice_of(a) == Ok::<SelectionView, Seq<char>>(s),
        table.len() <= usize::MAX,
        listed_paths(s, table, table.len() as int).len() <= usize::MAX,
    ensures
        list_of(table, a) is Ok,
        list_of(table, a)->Ok_0.contains(e) <==> e.sid < table.len() && keeps(
            s,
            table[e.sid as int],
        ) && shown_of(s, table[e.sid as int], e.path),
        forall|i: int, j: int|
            0 <= i < j < list_of(table, a)->Ok_0.len() ==> text_at_most(
                (#[trigger] list_of(table, a)->Ok_0[i]).path,
                (#[trigger] list_of(table, a)->Ok_0[j]).path,
            ),
        (forall|i: int| 0 <= i < table.len() ==> (#[trigger] table[i]).aliases.no_duplicates())
            ==> list_of(table, a)->Ok_0.no_duplicates(),
{
    let v = listed_paths(s, table, table.len() as int);
    let keys = entry_paths(v);
    lemma_listed(s, table, table.len() as int);
    text_le_is_total();
    sorting_keeps_items(v, keys, text_le());
    stable_order_sorts(text_le(), keys);
    let out = sorted_entries(v);
    assert(out.contains(e) <==> v.contains(e));
    let order = text_order(keys);
    assert forall|i: int, j: int| 0 <= i < j < out.len() implies text_at_most(
        (#[trigger] out[i]).path,
        (#[trigger] out[j]).path,
    ) by {
        assert(stable_before(text_le(), keys, order[i] as int, order[j] as int));
        assert(keys[order[i] as int] == out[i].path);
        assert(keys[order[j] as int] == out[j].path);
    }
}

// ---- what a selection matched ----

proof fn lemma_first_kept(s: SelectionView, g: SignalView, i: int)
    requires
        0 <= i <= g.aliases.len(),
    ensures
        match first_kept(s, g, i) {
            Some(m) => exists|k: int|
                i <= k < g.aliases.len() && (#[trigger] g.aliases[k]) == m && keeps_path(
                    s,
                    m,
                    g.scopes[k],
                ) && forall|j: int|
                    i <= j < k ==> !keeps_path(s, #[trigger] g.aliases[j], g.scopes[j]),
            None => forall|k: int|
                i <= k < g.aliases.len() ==> !keeps_path(s, #[trigger] g.aliases[k], g.scopes[k]),
        },
    decreases g.aliases.len() - i,
{
    if i < g.aliases.len() {
        if keeps_path(s, g.aliases[i], g.scopes[i]) {
            assert(g.aliases[i] == first_kept(s, g, i)->0);
        } else {
            lemma_first_kept(s, g, i + 1);
        }
    }
}

proof fn lemma_matched(table: Seq<SignalView>, s: SelectionView, sids: Seq<usize>)
    requires
        forall|i: int|
            0 <= i < sids.len() ==> (#[trigger] sids[i]) < table.len() && keeps(
                s,
                table[sids[i] as int],
            ),
    ensures
        matched_pairs(table, s, sids).len() == sids.len(),
        forall|i: int|
            0 <= i < sids.len() ==> first_kept(s, table[(#[trigger] sids[i]) as int], 0) == Some(
                matched_pairs(table, s, sids)[i].0,
            ) && matched_pairs(table, s, sids)[i].1 == table[sids[i] as int].path,
    decreases sids.len(),
{
    if sids.len() > 0 {
        let less = sids.drop_last();
        assert forall|i: int| 0 <= i < less.len() implies (#[trigger] less[i]) < table.len()
            && keeps(s, table[less[i] as int]) by {
            assert(less[i] == sids[i]);
        }
        lemma_matched(table, s, less);
        let x = sids.last();
        assert(sids[sids.len() - 1] == x);
        let g = table[x as int];
        lemma_first_kept(s, g, 0);
        let k = choose|k: int|
            0 <= k < g.aliases.len() && keeps_path(s, #[trigger] g.aliases[k], g.scopes[k]);
        assert(keeps_path(s, g.aliases[k], g.scopes[k]));
        let all = matched_pairs(table, s, sids);
        let rest = matched_pairs(table, s, less);
        assert forall|i: int| 0 <= i < sids.len() implies first_kept(
            s,
            table[(#[trigger] sids[i]) as int],
            0,
        ) == Some(all[i].0) && all[i].1 == table[sids[i] as int].path by {
            if i < less.len() {
                assert(less[i] == sids[i]);
                assert(all[i] == rest[i]);
            }
        }
    }
}

/// Is this the first path of the signal that the selection keeps?
pub open spec fn first_match(s: SelectionView, g: SignalView, path: Seq<char>) -> bool {
    exists|k: int|
        0 <= k < g.aliases.len() && (#[trigger] g.aliases[k]) == path && keeps_path(
            s,
            path,
            g.scopes[k],
        ) && forall|j: int| 0 <= j < k ==> !keeps_path(s, #[trigger] g.aliases[j], g.scopes[j])
}

/// What a selection matched: as many signals as it keeps, each by the first of
/// its paths that is kept and by its own path.
pub proof fn report_names_the_kept(table: Seq<SignalView>, s: SelectionView, p: PairView)
    requires
        table.len() <= usize::MAX,
        !selects_all(s),
    ensures
        report_of(table, s).selective,
        report_of(table, s).pairs.len() == chosen(table, s).len(),
        report_of(table, s).pairs.contains(p) <==> exists|i: int|
            0 <= i < table.len() && keeps(s, #[trigger] table[i]) && first_match(s, table[i], p.0)
                && table[i].path == p.1,
{
    let sids = chosen(table, s);
    let test = |g: SignalView| keeps(s, g);
    sids_are_the_matches(table, test);
    assert(sids == sids_of(table, test));
    let v = matched_pairs(table, s, sids);
    assert forall|i: int| 0 <= i < sids.len() implies (#[trigger] sids[i]) < table.len() && keeps(
        s,
        table[sids[i] as int],
    ) by {
        assert(test(table[sids[i] as int]));
    }
    lemma_matched(table, s, sids);
    sorted_pairs_are_the_pairs(v);
    if v.contains(p) {
        let k = choose|k: int| 0 <= k < v.len() && v[k] == p;
        let i = sids[k] as int;
        lemma_first_kept(s, table[i], 0);
        assert(first_kept(s, table[sids[k] as int], 0) == Some(v[k].0));
        assert(keeps(s, table[i]) && first_match(s, table[i], p.0));
    }
    if exists|i: int|
        0 <= i < table.len() && keeps(s, #[trigger] table[i]) && first_match(s, table[i], p.0)
            && table[i].path == p.1 {
        let i = choose|i: int|
            0 <= i < table.len() && keeps(s, #[trigger] table[i]) && first_match(
                s,
                table[i],
                p.0,
            ) && table[i].path == p.1;
        assert(test(table[i]));
        assert(sids.contains(i as usize));
        let k = choose|k: int| 0 <= k < sids.len() && sids[k] == i as usize;
        let g = table[i];
        lemma_first_kept(s, g, 0);
        assert(first_kept(s, table[sids[k] as int], 0) == Some(v[k].0));
        let x = choose|x: int|
            0 <= x < g.aliases.len() && (#[trigger] g.aliases[x]) == v[k].0 && keeps_path(
                s,
                v[k].0,
                g.scopes[x],
            ) && forall|j: int| 0 <= j < x ==> !keeps_path(s, #[trigger] g.aliases[j], g.scopes[j]);
        let y = choose|y: int|
            0 <= y < g.aliases.len() && (#[trigger] g.aliases[y]) == p.0 && keeps_path(
                s,
                p.0,
                g.scopes[y],
            ) && forall|j: int| 0 <= j < y ==> !keeps_path(s, #[trigger] g.aliases[j], g.scopes[j]);
        assert(keeps_path(s, g.aliases[x], g.scopes[x]) && keeps_path(
            s,
            g.aliases[y],
            g.scopes[y],
        ));
        assert(x == y);
        assert(v[k] == p);
    }
}

// ---- a path by name ----

/// Is it a path of the table, with its scope, that passes the test?
pub open spec fn path_passing(
    table: Seq<SignalView>,
    test: spec_fn(Seq<char>, Seq<char>) -> bool,
    p: PairView,
) -> bool {
    test(p.0, p.1) && exists|i: int, j: int|
        0 <= i < table.len() && 0 <= j < table[i].aliases.len() && (#[trigger] table[i].aliases[j])
            == p.0 && table[i].scopes[j] == p.1
}

proof fn lemma_paths_in_signal(
    g: SignalView,
    test: spec_fn(Seq<char>, Seq<char>) -> bool,
    from: int,
    p: PairView,
)
    requires
        0 <= from <= g.aliases.len(),
    ensures
        paths_in_signal(g, test, from).contains(p) <==> test(p.0, p.1) && exists|j: int|
            from <= j < g.aliases.len() && (#[trigger] g.aliases[j]) == p.0 && g.scopes[j] == p.1,
    decreases g.aliases.len() - from,
{
    if from < g.aliases.len() {
        lemma_paths_in_signal(g, test, from + 1, p);
        let rest = paths_in_signal(g, test, from + 1);
        let all = paths_in_signal(g, test, from);
        let y = (g.aliases[from], g.scopes[from]);
        if test(y.0, y.1) {
            assert(all =~= seq![y] + rest);
            if rest.contains(p) {
                let k = choose|k: int| 0 <= k < rest.len() && rest[k] == p;
                assert(all[k + 1] == p);
            }
            if all.contains(p) {
                let k = choose|k: int| 0 <= k < all.len() && all[k] == p;
                if k > 0 {
                    assert(rest[k - 1] == p);
                }
            }
            assert(all[0] == y);
        }
        if test(p.0, p.1) && exists|j: int|
            from <= j < g.aliases.len() && (#[trigger] g.aliases[j]) == p.0 && g.scopes[j] == p.1 {
            let j = choose|j: int|
                from <= j < g.aliases.len() && (#[trigger] g.aliases[j]) == p.0 && g.scopes[j]
                    == p.1;
            if j > from {
                assert(rest.contains(p));
            }
        }
    }
}

proof fn lemma_paths_in_table(
    table: Seq<SignalView>,
    test: spec_fn(Seq<char>, Seq<char>) -> bool,
    from: int,
    p: PairView,
)
    requires
        0 <= from <= table.len(),
    ensures
        paths_in_table(table, test, from).contains(p) <==> test(p.0, p.1) && exists|i: int, j: int|
            from <= i < table.len() && 0 <= j < table[i].aliases.len() && (
            #[trigger] table[i].aliases[j]) == p.0 && table[i].scopes[j] == p.1,
    decreases table.len() - from,
{
    if from < table.len() {
        lemma_paths_in_table(table, test, from + 1, p);
        lemma_paths_in_signal(table[from], test, 0, p);
        let a = paths_in_signal(table[from], test, 0);
        let rest = paths_in_table(table, test, from + 1);
        let all = paths_in_table(table, test, from);
        if a.contains(p) {
            let k = choose|k: int| 0 <= k < a.len() && a[k] == p;
            assert(all[k] == p);
            let j = choose|j: int|
                0 <= j < table[from].aliases.len() && (#[trigger] table[from].aliases[j]) == p.0
                    && table[from].scopes[j] == p.1;
            assert(table[from].aliases[j] == p.0);
        }
        if rest.contains(p) {
            let k = choose|k: int| 0 <= k < rest.len() && rest[k] == p;
            assert(all[a.len() + k] == p);
        }
        if all.contains(p) {
            let k = choose|k: int| 0 <= k < all.len() && all[k] == p;
            if k < a.len() {
                assert(a[k] == p);
            } else {
                assert(rest[k - a.len()] == p);
            }
        }
        if test(p.0, p.1) && exists|i: int, j: int|
            from <= i < table.len() && 0 <= j < table[i].aliases.len() && (
            #[trigger] table[i].aliases[j]) == p.0 && table[i].scopes[j] == p.1 {
            let (i, j) = choose|i: int, j: int|
                from <= i < table.len() && 0 <= j < table[i].aliases.len() && (
                #[trigger] table[i].aliases[j]) == p.0 && table[i].scopes[j] == p.1;
            if i == from {
                assert(a.contains(p));
            } else {
                assert(rest.contains(p));
            }
        }
    }
}

/// Is it the one path of the table that passes the test?
pub open spec fn only_path(
    table: Seq<SignalView>,
    test: spec_fn(Seq<char>, Seq<char>) -> bool,
    p: PairView,
) -> bool {
    path_passing(table, test, p) && forall|q: PairView| #[trigger]
        path_passing(table, test, q) ==> q == p
}

proof fn lemma_only_path(
    table: Seq<SignalView>,
    test: spec_fn(Seq<char>, Seq<char>) -> bool,
    p: PairView,
)
    requires
        paths_in_table(table, test, 0).len() <= usize::MAX,
    ensures
        ({
            let found = without_doubles(pairs_sorted(paths_in_table(table, test, 0)));
            found.len() == 1 && found[0] == p <==> only_path(table, test, p)
        }),
{
    let v = paths_in_table(table, test, 0);
    let found = without_doubles(pairs_sorted(v));
    sorted_pairs_are_the_pairs(v);
    assert forall|q: PairView| #[trigger] found.contains(q) <==> path_passing(table, test, q) by {
        lemma_paths_in_table(table, test, 0, q);
        assert(found.contains(q) <==> v.contains(q));
    }
    if found.len() == 1 && found[0] == p {
        assert(found.contains(p));
        assert forall|q: PairView| #[trigger] path_passing(table, test, q) implies q == p by {
            assert(found.contains(q));
        }
    }
    if only_path(table, test, p) {
        assert(found.contains(p));
        let k = choose|k: int| 0 <= k < found.len() && found[k] == p;
        if found.len() > 1 {
            let o = if k == 0 {
                1int
            } else {
                0int
            };
            assert(found.contains(found[o]));
            assert(path_passing(table, test, found[o]));
            assert(found[o] != found[k]);
        }
    }
}

/// A name stands for a path just when it spells that one and no other; or, where
/// it does not spell just one, when that path alone is matched.
pub proof fn a_name_stands_for_one_path(
    table: Seq<SignalView>,
    pattern: Seq<char>,
    role: Seq<char>,
    p: PairView,
)
    requires
        paths_in_table(table, is_path(lowercase(trimmed(pattern))), 0).len() <= usize::MAX,
        patterns_of(list_items(seq![trimmed(pattern)]), MatchMode::Substring) matches Ok(pats)
            ==> paths_in_table(table, is_named(pats), 0).len() <= usize::MAX,
    ensures
        ({
            let spelled = is_path(lowercase(trimmed(pattern)));
            let pats = patterns_of(list_items(seq![trimmed(pattern)]), MatchMode::Substring);
            path_meant(table, pattern, role) == Ok::<PairView, Seq<char>>(p) <==> only_path(
                table,
                spelled,
                p,
            ) || ((forall|q: PairView| !#[trigger] only_path(table, spelled, q)) && pats is Ok
                && only_path(table, is_named(pats->Ok_0), p))
        }),
{
    let spelled = is_path(lowercase(trimmed(pattern)));
    let exact = without_doubles(pairs_sorted(paths_in_table(table, spelled, 0)));
    lemma_only_path(table, spelled, p);
    if exact.len() == 1 {
        lemma_only_path(table, spelled, exact[0]);
    } else {
        assert forall|q: PairView| !#[trigger] only_path(table, spelled, q) by {
            lemma_only_path(table, spelled, q);
        }
    }
    match patterns_of(list_items(seq![trimmed(pattern)]), MatchMode::Substring) {
        Ok(pats) => {
            lemma_only_path(table, is_named(pats), p);
        },
        Err(_) => {},
    }
}

// ---- times of a file and of a search ----

/// A file lasts from its first tick to its last.
pub proof fn a_file_lasts_from_first_to_last(w: WaveView, a: i64, b: i64)
    requires
        w.meta.time_range == Some((a, b)),
        0 <= a <= b,
    ensures
        duration(w) == Some(b - a),
        first_time(w) == Some(a as int),
        last_time(w) == Some(b as int),
{
}

/// A search begins where it is asked to, and at zero otherwise; it ends where
/// it is asked to, and at the last tick of the file otherwise.
pub proof fn a_search_goes_to_the_last_tick<T: Timescale>(w: WaveView, a: ArgsView, ts: &T)
    ensures
        search_window(w, a, ts) matches Ok((t0, t1)) ==> {
            &&& a.begin matches Some(b) ==> time_of(b, ts) == Ok::<int, Seq<char>>(t0)
            &&& a.begin is None ==> t0 == 0
            &&& a.end matches Some(e) ==> time_of(e, ts) == Ok::<int, Seq<char>>(t1)
            &&& a.end is None ==> last_time(w) == Some(t1)
            &&& t0 <= t1
        },
        search_window(w, a, ts) is Err <==> (a.begin matches Some(b) && time_of(b, ts) is Err) || (
        a.end matches Some(e) && time_of(e, ts) is Err) || (a.end is None && last_time(w)
            is None) || (match a.end {
            Some(e) => time_of(e, ts)->Ok_0,
            None => last_time(w)->0,
        }) < (match a.begin {
            Some(b) => time_of(b, ts)->Ok_0,
            None => 0,
        }),
{
}

// ---- thousands ----

/// A text without its commas.
pub open spec fn without_commas(s: Seq<char>) -> Seq<char> {
    s.filter(|c: char| c != ',')
}

/// A number in groups of three: without the commas it is the number, and every
/// fourth character from the right is a comma.
pub proof fn thousands_are_the_digits(s: Seq<char>)
    requires
        !has_char(s, ','),
    ensures
        without_commas(grouped(s)) == s,
        forall|k: int|
            0 <= k < grouped(s).len() ==> ((#[trigger] grouped(s)[grouped(s).len() - 1 - k]) == ','
                <==> k % 4 == 3),
    decreases s.len(),
{
    reveal_strlit(",");
    let keep = |c: char| c != ',';
    if s.len() <= 3 {
        lemma_no_commas(s);
    } else {
        let n = s.len() - 3;
        let front = s.take(n);
        let tail = s.skip(n);
        assert(!has_char(front, ',')) by {
            if has_char(front, ',') {
                let i = choose|i: int| 0 <= i < front.len() && front[i] == ',';
                assert(s[i] == ',');
            }
        }
        assert(!has_char(tail, ',')) by {
            if has_char(tail, ',') {
                let i = choose|i: int| 0 <= i < tail.len() && tail[i] == ',';
                assert(s[n + i] == ',');
            }
        }
        thousands_are_the_digits(front);
        lemma_no_commas(tail);
        let g = grouped(front);
        let all = grouped(s);
        assert(all == (g + ","@) + tail);
        Seq::filter_distributes_over_add(g + ","@, tail, keep);
        Seq::filter_distributes_over_add(g, ","@, keep);
        assert(","@.filter(keep) =~= Seq::empty()) by {
            reveal(Seq::filter);
            let one = seq![','];
            assert(","@ =~= one);
            assert(one.drop_last() =~= Seq::empty());
            assert(Seq::<char>::empty().filter(keep) =~= Seq::empty());
            assert(!keep(','));
        }
        assert(front + Seq::<char>::empty() =~= front);
        assert(front + tail =~= s);
        assert forall|k: int| 0 <= k < all.len() implies ((#[trigger] all[all.len() - 1 - k]) == ','
            <==> k % 4 == 3) by {
            if k < 3 {
                assert(all[all.len() - 1 - k] == tail[2 - k]);
            } else if k > 3 {
                assert(all[all.len() - 1 - k] == g[g.len() - 1 - (k - 4)]);
                assert(k % 4 == (k - 4) % 4);
            }
        }
    }
}

proof fn lemma_no_commas(s: Seq<char>)
    requires
        !has_char(s, ','),
    ensures
        without_commas(s) == s,
        forall|i: int| 0 <= i < s.len() ==> #[trigger] s[i] != ',',
    decreases s.len(),
{
    reveal(Seq::filter);
    if s.len() > 0 {
        let less = s.drop_last();
        assert(!has_char(less, ',')) by {
            if has_char(less, ',') {
                let i = choose|i: int| 0 <= i < less.len() && less[i] == ',';
                assert(s[i] == ',');
            }
        }
        lemma_no_commas(less);
        assert(s[s.len() - 1] != ',');
        assert(less.push(s.last()) =~= s);
    } else {
        assert(s =~= Seq::empty());
    }
    assert forall|i: int| 0 <= i < s.len() implies #[trigger] s[i] != ',' by {}
}

} // verus!
