//! The laws of the search: where its rows lie, said of the values that the
//! signals have and of the changes in their histories.

use vstd::prelude::*;

use crate::clauses::{asks_change, is_mixed, is_used, is_watched, watched};
use crate::dump::window_events;
use crate::format::ValueKind;
use crate::history::{
    changes_in, in_time_order, raw_text, upto, upto_is_unique, upto_splits, value_at, ChangeView,
};
use crate::model::{decl_at, decl_orders, event_lists, seen_of, WaveView};
use crate::replay::{
    events_in, in_replay_order, merged, no_later, replay, replay_is_ordered, replay_keeps_signals,
    signal_events, EventView,
};
use crate::resolve::{numbers_in_range, numbers_where};
use crate::search::{
    hit_of_firing, hit_of_span, hits_of, question_of, search_over, HitView,
};
use crate::sweep::{
    any_clause, applied, changes_then, clause_holds, clauses_in, cond_holds, covered, fires_with,
    firings_are_changes, firings_are_ordered, first_after, is_change, rows_show_their_beginning,
    search_firings, search_rows_are_disjoint, search_rows_cover_matches, search_spans, show_raws,
    show_texts, shown_text, span_covers, state_at, ticks_ordered, upto_first_after, CondView,
    Question,
};

verus! {

/// Is there a history in time order, from tick zero on, for each signal?
pub open spec fn wave_ok(w: WaveView) -> bool {
    &&& w.traces.len() == w.table.len() <= usize::MAX
    &&& forall|s: int| 0 <= s < w.traces.len() ==> in_time_order(#[trigger] w.traces[s])
    &&& forall|s: int, i: int|
        0 <= s < w.traces.len() && 0 <= i < w.traces[s].len() ==> (#[trigger] w.traces[s][i]).tick
            >= 0
}

/// The recorded texts of all signals at a tick.
pub open spec fn texts_at(w: WaveView, t: int) -> Seq<Option<Seq<char>>> {
    Seq::new(
        w.table.len(),
        |s: int|
            match value_at(w.traces[s], t) {
                Some(v) => Some(raw_text(v)),
                None => None,
            },
    )
}

/// Does the row take in the tick?
pub open spec fn hit_covers(h: HitView, t: int) -> bool {
    h.begin <= t && (h.end matches Some(e) && t < e)
}

/// Does some row take in the tick?
pub open spec fn is_found(rows: Seq<HitView>, t: int) -> bool {
    exists|i: int| 0 <= i < rows.len() && #[trigger] hit_covers(rows[i], t)
}

/// An interval search finds a tick of its window just when the condition holds
/// of the values that the signals have then, whether or not anything changes at
/// that tick.
pub proof fn search_finds_what_holds(
    w: WaveView,
    clauses: Seq<Seq<CondView>>,
    show: Seq<usize>,
    t0: int,
    t1: int,
    t: int,
)
    requires
        wave_ok(w),
        clauses_in(clauses, w.table.len()),
        search_over(w.table.len(), clauses, show, t0, t1).changed.len() == 0,
        t0 <= t < t1,
    ensures
        is_found(hits_of(w, search_over(w.table.len(), clauses, show, t0, t1)), t) <==> any_clause(
            texts_at(w, t),
            Seq::empty(),
            clauses,
        ),
{
    let n = w.table.len();
    let d = search_over(n, clauses, show, t0, t1);
    let q = question_of(w, d);
    let ev = window_events(w, d.selected, 0, Some(t1));
    let used = |s: int| is_used(clauses, s) || d.show.contains(s as usize);
    assert(d.selected == numbers_where(n, used));
    lemma_numbers(n, used);
    lemma_window_events(w, d.selected, t1);
    search_rows_cover_matches(q, ev, t0, t1, t);
    let state = state_at(n, ev, t);
    assert forall|i: int, j: int| 0 <= i < clauses.len() && 0 <= j < clauses[i].len() implies state[(
    #[trigger] clauses[i][j]).sid as int] == texts_at(w, t)[clauses[i][j].sid as int] by {
        let s = clauses[i][j].sid as int;
        assert(s < n);
        assert(is_used(clauses, s));
        assert(used(s));
        assert(d.selected.contains(s as usize));
        lemma_state_is_value(w, d.selected, t1, t, s);
    }
    lemma_clauses_agree(state, texts_at(w, t), clauses);
    let rows = search_spans(q, ev, t0, t1);
    let hits = hits_of(w, d);
    assert(hits.len() == rows.len());
    if is_found(hits, t) {
        let i = choose|i: int| 0 <= i < hits.len() && #[trigger] hit_covers(hits[i], t);
        assert(hits[i] == hit_of_span(rows[i]));
        assert(span_covers(rows[i], t));
    }
    if covered(rows, t) {
        let i = choose|i: int| 0 <= i < rows.len() && #[trigger] span_covers(rows[i], t);
        assert(hits[i] == hit_of_span(rows[i]));
        assert(hit_covers(hits[i], t));
    }
}

/// The numbers with a property: all of them, each once.
proof fn lemma_numbers(n: nat, p: spec_fn(int) -> bool)
    requires
        n <= usize::MAX,
    ensures
        numbers_where(n, p).no_duplicates(),
        forall|i: int|
            0 <= i < numbers_where(n, p).len() ==> (#[trigger] numbers_where(n, p)[i]) < n,
        forall|s: int|
            0 <= s < n && #[trigger] p(s) ==> numbers_where(n, p).contains(s as usize),
    decreases n,
{
    if n > 0 {
        let m = (n - 1) as nat;
        lemma_numbers(m, p);
        let rest = numbers_where(m, p);
        let all = numbers_where(n, p);
        assert forall|i: int| 0 <= i < all.len() implies (#[trigger] all[i]) < n by {
            if i < rest.len() {
                assert(all[i] == rest[i]);
            }
        }
        assert forall|i: int, j: int| 0 <= i < all.len() && 0 <= j < all.len() && i != j implies
            all[i] != all[j] by {
            if i < rest.len() {
                assert(all[i] == rest[i]);
            }
            if j < rest.len() {
                assert(all[j] == rest[j]);
            }
        }
        assert forall|s: int| 0 <= s < n && #[trigger] p(s) implies all.contains(s as usize) by {
            if s < m {
                let i = rest.index_of(s as usize);
                assert(rest[i] == s as usize);
                assert(all[i] == s as usize);
            } else {
                assert(all[all.len() - 1] == s as usize);
            }
        }
    }
}

/// Clauses see no more of a state than the signals they name.
proof fn lemma_clauses_agree(
    a: Seq<Option<Seq<char>>>,
    b: Seq<Option<Seq<char>>>,
    clauses: Seq<Seq<CondView>>,
)
    requires
        forall|i: int, j: int|
            0 <= i < clauses.len() && 0 <= j < clauses[i].len() ==> a[(
            #[trigger] clauses[i][j]).sid as int] == b[clauses[i][j].sid as int],
    ensures
        any_clause(a, Seq::empty(), clauses) == any_clause(b, Seq::empty(), clauses),
{
    let none = Seq::<bool>::empty();
    assert forall|i: int| 0 <= i < clauses.len() implies #[trigger] clause_holds(
        a,
        none,
        clauses[i],
    ) == clause_holds(b, none, clauses[i]) by {
        let c = clauses[i];
        assert forall|j: int| 0 <= j < c.len() implies #[trigger] cond_holds(a, none, c[j])
            == cond_holds(b, none, c[j]) by {
            assert(a[clauses[i][j].sid as int] == b[clauses[i][j].sid as int]);
        }
        if clause_holds(a, none, c) {
            assert forall|j: int| 0 <= j < c.len() implies cond_holds(b, none, #[trigger] c[j]) by {
                assert(cond_holds(a, none, c[j]));
            }
        }
        if clause_holds(b, none, c) {
            assert forall|j: int| 0 <= j < c.len() implies cond_holds(a, none, #[trigger] c[j]) by {
                assert(cond_holds(a, none, c[j]) == cond_holds(b, none, c[j]));
            }
        }
    }
    if any_clause(a, none, clauses) {
        let i = choose|i: int| 0 <= i < clauses.len() && clause_holds(a, none, #[trigger] clauses[i]);
        assert(clause_holds(b, none, clauses[i]));
    }
    if any_clause(b, none, clauses) {
        let i = choose|i: int| 0 <= i < clauses.len() && clause_holds(b, none, #[trigger] clauses[i]);
        assert(clause_holds(a, none, clauses[i]));
    }
}

/// The events of one signal.
pub open spec fn own(events: Seq<EventView>, s: int) -> Seq<EventView>
    decreases events.len(),
{
    if events.len() == 0 {
        Seq::empty()
    } else {
        own_one(events[0], s) + own(events.drop_first(), s)
    }
}

/// The event, if it is of that signal.
pub open spec fn own_one(e: EventView, s: int) -> Seq<EventView> {
    if e.sid == s {
        seq![e]
    } else {
        Seq::empty()
    }
}

/// The events of one signal in two lists are those of the first and then those
/// of the second.
pub proof fn lemma_own_joins(a: Seq<EventView>, b: Seq<EventView>, s: int)
    ensures
        own(a + b, s) == own(a, s) + own(b, s),
    decreases a.len(),
{
    if a.len() == 0 {
        assert(a + b =~= b);
        assert(own(a, s) + own(b, s) =~= own(b, s));
    } else {
        lemma_own_joins(a.drop_first(), b, s);
        assert((a + b).drop_first() =~= a.drop_first() + b);
        assert((a + b)[0] == a[0]);
        assert(own_one(a[0], s) + (own(a.drop_first(), s) + own(b, s)) =~= own_one(a[0], s) + own(
            a.drop_first(),
            s,
        ) + own(b, s));
    }
}

/// Merging with a list that has none of a signal's events leaves those of the
/// other list in their order.
proof fn lemma_own_merged(a: Seq<EventView>, b: Seq<EventView>, s: int)
    requires
        own(a, s).len() == 0 || own(b, s).len() == 0,
    ensures
        own(merged(a, b), s) == own(a, s) + own(b, s),
    decreases a.len() + b.len(),
{
    if a.len() == 0 {
        assert(own(a, s) + own(b, s) =~= own(b, s));
    } else if b.len() == 0 {
        assert(own(a, s) + own(b, s) =~= own(a, s));
    } else if no_later(a[0], b[0]) {
        let a1 = a.drop_first();
        lemma_own_merged(a1, b, s);
        let m = merged(a, b);
        assert(m.drop_first() =~= merged(a1, b));
        assert(m[0] == a[0]);
        assert(own_one(a[0], s) + (own(a1, s) + own(b, s)) =~= own(a, s) + own(b, s));
    } else {
        let b1 = b.drop_first();
        lemma_own_merged(a, b1, s);
        let m = merged(a, b);
        assert(m.drop_first() =~= merged(a, b1));
        assert(m[0] == b[0]);
        assert(own_one(b[0], s) + (own(a, s) + own(b1, s)) =~= own(a, s) + own(b, s)) by {
            if own(a, s).len() == 0 {
                assert(own(a, s) =~= Seq::empty());
            } else {
                assert(own(b, s) =~= Seq::empty());
            }
        }
    }
}

/// Are these events of signal `x`?
pub open spec fn all_of(events: Seq<EventView>, x: int) -> bool {
    forall|i: int| 0 <= i < events.len() ==> (#[trigger] events[i]).sid == x
}

proof fn lemma_own_single(events: Seq<EventView>, x: int, s: int)
    requires
        all_of(events, x),
    ensures
        own(events, s) == if s == x {
            events
        } else {
            Seq::empty()
        },
    decreases events.len(),
{
    if events.len() > 0 {
        let rest = events.drop_first();
        assert forall|i: int| 0 <= i < rest.len() implies (#[trigger] rest[i]).sid == x by {
            assert(rest[i] == events[i + 1]);
        }
        lemma_own_single(rest, x, s);
        assert(events[0].sid == x);
        assert(seq![events[0]] + rest =~= events);
        assert(Seq::<EventView>::empty() + Seq::<EventView>::empty() =~= Seq::empty());
    } else {
        assert(events =~= Seq::empty());
    }
}

/// A replay of one list for each of several signals keeps each list in its
/// order.
pub proof fn lemma_own_replayed(lists: Seq<Seq<EventView>>, sids: Seq<usize>, s: int)
    requires
        lists.len() == sids.len(),
        sids.no_duplicates(),
        forall|i: int| 0 <= i < lists.len() ==> all_of(#[trigger] lists[i], sids[i] as int),
    ensures
        forall|k: int|
            0 <= k < sids.len() && sids[k] == s ==> own(replay(lists), s) == #[trigger] lists[k],
        (forall|k: int| 0 <= k < sids.len() ==> sids[k] != s) ==> own(replay(lists), s).len() == 0,
    decreases lists.len(),
{
    if lists.len() > 0 {
        let less = lists.drop_last();
        let fewer = sids.drop_last();
        let x = sids.last() as int;
        assert forall|i: int| 0 <= i < less.len() implies all_of(
            #[trigger] less[i],
            fewer[i] as int,
        ) by {
            assert(all_of(lists[i], sids[i] as int));
        }
        lemma_own_replayed(less, fewer, s);
        assert(all_of(lists[lists.len() - 1], sids[lists.len() - 1] as int));
        lemma_own_single(lists.last(), x, s);
        let front = own(replay(less), s);
        assert(x == s ==> front.len() == 0) by {
            if x == s {
                assert forall|k: int| 0 <= k < fewer.len() implies fewer[k] != s by {
                    assert(sids[k] != sids[sids.len() - 1]);
                }
            }
        }
        lemma_own_merged(replay(less), lists.last(), s);
        assert forall|k: int| 0 <= k < sids.len() && sids[k] == s implies own(replay(lists), s)
            == #[trigger] lists[k] by {
            if k < less.len() {
                assert(fewer[k] == s);
                assert(less[k] == lists[k]);
                assert(sids[k] != sids[sids.len() - 1]);
                assert(front + Seq::<EventView>::empty() =~= front);
            } else {
                assert(front =~= Seq::empty());
                assert(front + lists.last() =~= lists.last());
            }
        }
        if forall|k: int| 0 <= k < sids.len() ==> sids[k] != s {
            assert forall|k: int| 0 <= k < fewer.len() implies fewer[k] != s by {
                assert(sids[k] != s);
            }
            assert(sids[sids.len() - 1] != s);
        }
    }
}

/// The last event of a signal gives its recorded text.
proof fn lemma_applied(n: nat, events: Seq<EventView>, s: int)
    requires
        0 <= s < n,
        events_in(events, n),
    ensures
        applied(n, events).len() == n,
        applied(n, events)[s] == if own(events, s).len() == 0 {
            None
        } else {
            Some(raw_text(own(events, s).last().value))
        },
    decreases events.len(),
{
    if events.len() > 0 {
        let less = events.drop_last();
        let e = events.last();
        assert(events[events.len() - 1].sid < n);
        assert forall|i: int| 0 <= i < less.len() implies (#[trigger] less[i]).sid < n by {
            assert(less[i] == events[i]);
        }
        lemma_applied(n, less, s);
        assert(events =~= less + seq![e]);
        lemma_own_joins(less, seq![e], s);
        assert(seq![e].drop_first() =~= Seq::empty());
        assert(own(seq![e].drop_first(), s) =~= Seq::empty());
        assert(own(seq![e], s) =~= own_one(e, s));
        if e.sid == s {
            assert(own(events, s).last() == e);
        } else {
            assert(own(less, s) + own_one(e, s) =~= own(less, s));
        }
    }
}

/// The events of one signal are among all events.
pub proof fn lemma_own_within(events: Seq<EventView>, s: int, k: int) -> (i: int)
    requires
        0 <= k < own(events, s).len(),
    ensures
        0 <= i < events.len(),
        events[i] == own(events, s)[k],
    decreases events.len(),
{
    let rest = events.drop_first();
    let head = own_one(events[0], s);
    if k < head.len() {
        0
    } else {
        let i = lemma_own_within(rest, s, k - head.len());
        assert(own(events, s)[k] == own(rest, s)[k - head.len()]);
        assert(rest[i] == events[i + 1]);
        i + 1
    }
}

proof fn lemma_merge_upto(a: Seq<EventView>, b: Seq<EventView>, t: int)
    requires
        forall|i: int| 0 <= i < a.len() ==> (#[trigger] a[i]).tick <= t,
        forall|i: int| 0 <= i < b.len() ==> (#[trigger] b[i]).tick <= t,
    ensures
        forall|i: int| 0 <= i < merged(a, b).len() ==> (#[trigger] merged(a, b)[i]).tick <= t,
    decreases a.len() + b.len(),
{
    if a.len() == 0 || b.len() == 0 {
    } else if no_later(a[0], b[0]) {
        let a1 = a.drop_first();
        assert forall|i: int| 0 <= i < a1.len() implies (#[trigger] a1[i]).tick <= t by {
            assert(a1[i] == a[i + 1]);
        }
        lemma_merge_upto(a1, b, t);
        let m = merged(a, b);
        assert forall|i: int| 0 <= i < m.len() implies (#[trigger] m[i]).tick <= t by {
            if i > 0 {
                assert(m[i] == merged(a1, b)[i - 1]);
            }
        }
    } else {
        let b1 = b.drop_first();
        assert forall|i: int| 0 <= i < b1.len() implies (#[trigger] b1[i]).tick <= t by {
            assert(b1[i] == b[i + 1]);
        }
        lemma_merge_upto(a, b1, t);
        let m = merged(a, b);
        assert forall|i: int| 0 <= i < m.len() implies (#[trigger] m[i]).tick <= t by {
            if i > 0 {
                assert(m[i] == merged(a, b1)[i - 1]);
            }
        }
    }
}

proof fn lemma_replay_upto(lists: Seq<Seq<EventView>>, t: int)
    requires
        forall|k: int, i: int|
            0 <= k < lists.len() && 0 <= i < lists[k].len() ==> (#[trigger] lists[k][i]).tick <= t,
    ensures
        forall|i: int| 0 <= i < replay(lists).len() ==> (#[trigger] replay(lists)[i]).tick <= t,
    decreases lists.len(),
{
    if lists.len() > 0 {
        let less = lists.drop_last();
        assert forall|k: int, i: int| 0 <= k < less.len() && 0 <= i < less[k].len() implies (
        #[trigger] less[k][i]).tick <= t by {
            assert(lists[k][i].tick <= t);
        }
        lemma_replay_upto(less, t);
        let last = lists.last();
        assert forall|i: int| 0 <= i < last.len() implies (#[trigger] last[i]).tick <= t by {
            assert(lists[lists.len() - 1][i].tick <= t);
        }
        lemma_merge_upto(replay(less), last, t);
    }
}

/// The list of one signal's events for a search up to `t1`.
proof fn lemma_list(w: WaveView, sel: Seq<usize>, t1: int, k: int)
    requires
        wave_ok(w),
        0 <= k < sel.len(),
        sel[k] < w.table.len(),
    ensures
        ({
            let list = event_lists(seen_of(w, sel), decl_orders(w.table), 0, Some(t1))[k];
            let h = w.traces[sel[k] as int];
            &&& list.len() == upto(h, t1)
            &&& forall|i: int|
                0 <= i < list.len() ==> (#[trigger] list[i]).tick == h[i].tick && list[i].value
                    == h[i].value && list[i].sid == sel[k] && list[i].tick <= t1
            &&& in_replay_order(list)
            &&& all_of(list, sel[k] as int)
        }),
{
    let s = sel[k];
    let h = w.traces[s as int];
    let decls = decl_orders(w.table);
    let lists = event_lists(seen_of(w, sel), decls, 0, Some(t1));
    let list = lists[k];
    assert(seen_of(w, sel)[k] == (s, h));
    assert(list == signal_events(s as nat, decl_at(decls, s), h, 0, Some(t1)));
    assert(in_time_order(h));
    assert forall|i: int| 0 <= i < h.len() implies (#[trigger] h[i]).tick > -1 by {
        assert(w.traces[s as int][i].tick >= 0);
    }
    upto_is_unique(h, -1, 0);
    upto_splits(h, t1);
    let part = changes_in(h, 0, Some(t1));
    assert(part =~= h.subrange(0, upto(h, t1)));
    assert forall|i: int| 0 <= i < list.len() implies (#[trigger] list[i]).tick == h[i].tick
        && list[i].value == h[i].value && list[i].sid == s && list[i].tick <= t1 by {
        assert(part[i] == h[i]);
    }
    assert forall|i: int, j: int| 0 <= i <= j < list.len() implies no_later(
        #[trigger] list[i],
        #[trigger] list[j],
    ) by {
        assert(h[i].tick <= h[j].tick);
        assert(part[i] == h[i] && part[j] == h[j]);
    }
}

/// The events of a search come in time order and are of the signals chosen.
proof fn lemma_window_events(w: WaveView, sel: Seq<usize>, t1: int)
    requires
        wave_ok(w),
        forall|i: int| 0 <= i < sel.len() ==> (#[trigger] sel[i]) < w.table.len(),
    ensures
        ticks_ordered(window_events(w, sel, 0, Some(t1)), t1),
        events_in(window_events(w, sel, 0, Some(t1)), w.table.len()),
{
    let lists = event_lists(seen_of(w, sel), decl_orders(w.table), 0, Some(t1));
    let ev = window_events(w, sel, 0, Some(t1));
    assert forall|k: int| 0 <= k < lists.len() implies in_replay_order(#[trigger] lists[k]) by {
        lemma_list(w, sel, t1, k);
    }
    replay_is_ordered(lists);
    assert forall|k: int| 0 <= k < lists.len() implies events_in(
        #[trigger] lists[k],
        w.table.len(),
    ) by {
        lemma_list(w, sel, t1, k);
        let list = lists[k];
        assert forall|i: int| 0 <= i < list.len() implies (#[trigger] list[i]).sid
            < w.table.len() by {
            assert(list[i].sid == sel[k]);
        }
    }
    replay_keeps_signals(lists, w.table.len());
    assert forall|k: int, i: int| 0 <= k < lists.len() && 0 <= i < lists[k].len() implies (
    #[trigger] lists[k][i]).tick <= t1 by {
        lemma_list(w, sel, t1, k);
    }
    lemma_replay_upto(lists, t1);
    assert forall|i: int, j: int| 0 <= i <= j < ev.len() implies (#[trigger] ev[i]).tick <= (
    #[trigger] ev[j]).tick by {
        assert(no_later(ev[i], ev[j]));
    }
}

/// The state that a search goes by at a tick holds the values of the signals
/// chosen.
proof fn lemma_state_is_value(w: WaveView, sel: Seq<usize>, t1: int, t: int, s: int)
    requires
        wave_ok(w),
        sel.no_duplicates(),
        forall|i: int| 0 <= i < sel.len() ==> (#[trigger] sel[i]) < w.table.len(),
        0 <= s < w.table.len(),
        sel.contains(s as usize),
        t <= t1,
    ensures
        state_at(w.table.len(), window_events(w, sel, 0, Some(t1)), t)[s] == texts_at(w, t)[s],
{
    let n = w.table.len();
    let h = w.traces[s];
    let lists = event_lists(seen_of(w, sel), decl_orders(w.table), 0, Some(t1));
    let ev = window_events(w, sel, 0, Some(t1));
    let k = sel.index_of(s as usize);
    assert(sel[k] == s);
    assert forall|i: int| 0 <= i < lists.len() implies all_of(
        #[trigger] lists[i],
        sel[i] as int,
    ) by {
        lemma_list(w, sel, t1, i);
    }
    lemma_own_replayed(lists, sel, s);
    lemma_list(w, sel, t1, k);
    assert(own(ev, s) == lists[k]);
    lemma_window_events(w, sel, t1);
    let f = first_after(ev, t, 0);
    upto_first_after(ev, t);
    let front = ev.take(f);
    let back = ev.skip(f);
    assert(front + back =~= ev);
    lemma_own_joins(front, back, s);
    let g = own(front, s).len() as int;
    let list = lists[k];
    assert(in_time_order(h));
    assert forall|i: int| 0 <= i < g implies (#[trigger] h[i]).tick <= t by {
        let m = lemma_own_within(front, s, i);
        assert(own(front, s)[i] == list[i]);
        assert(front[m] == ev[m]);
    }
    upto_splits(h, t1);
    assert forall|i: int| g <= i < h.len() implies (#[trigger] h[i]).tick > t by {
        if i < list.len() {
            let m = lemma_own_within(back, s, i - g);
            assert(own(back, s)[i - g] == list[i]);
            assert(back[m] == ev[f + m]);
            assert(ev[f].tick <= ev[f + m].tick);
        }
    }
    upto_is_unique(h, t, g);
    assert forall|i: int| 0 <= i < front.len() implies (#[trigger] front[i]).sid < n by {
        assert(front[i] == ev[i]);
    }
    lemma_applied(n, front, s);
    if g > 0 {
        assert(own(front, s).last() == list[g - 1]);
    }
}

proof fn lemma_selected(w: WaveView, clauses: Seq<Seq<CondView>>, show: Seq<usize>, t0: int, t1: int)
    requires
        wave_ok(w),
        clauses_in(clauses, w.table.len()),
    ensures
        ({
            let d = search_over(w.table.len(), clauses, show, t0, t1);
            &&& d.selected.no_duplicates()
            &&& forall|i: int|
                0 <= i < d.selected.len() ==> (#[trigger] d.selected[i]) < w.table.len()
            &&& forall|i: int, j: int|
                0 <= i < clauses.len() && 0 <= j < clauses[i].len() ==> d.selected.contains(
                    (#[trigger] clauses[i][j]).sid as usize,
                )
            &&& forall|k: int|
                0 <= k < d.show.len() && d.show[k] < w.table.len() ==> d.selected.contains(
                    #[trigger] d.show[k],
                )
        }),
{
    let n = w.table.len();
    let d = search_over(n, clauses, show, t0, t1);
    let used = |s: int| is_used(clauses, s) || d.show.contains(s as usize);
    assert(d.selected == numbers_where(n, used));
    lemma_numbers(n, used);
    assert forall|i: int, j: int| 0 <= i < clauses.len() && 0 <= j < clauses[i].len() implies
        d.selected.contains((#[trigger] clauses[i][j]).sid as usize) by {
        let s = clauses[i][j].sid as int;
        assert(is_used(clauses, s));
        assert(used(s));
    }
    assert forall|k: int| 0 <= k < d.show.len() && d.show[k] < n implies d.selected.contains(
        #[trigger] d.show[k],
    ) by {
        assert(used(d.show[k] as int));
    }
}

/// The rows of an interval search: they lie in the window, in time order and
/// without overlap; each shows the values in force at its beginning; and the
/// texts shown are those of every tick that the row takes in.
pub proof fn search_rows_show_values(
    w: WaveView,
    clauses: Seq<Seq<CondView>>,
    show: Seq<usize>,
    t0: int,
    t1: int,
    i: int,
    k: int,
    t: int,
)
    requires
        wave_ok(w),
        clauses_in(clauses, w.table.len()),
        search_over(w.table.len(), clauses, show, t0, t1).changed.len() == 0,
        t0 <= t1,
        0 <= i < hits_of(w, search_over(w.table.len(), clauses, show, t0, t1)).len(),
        0 <= k < show.len(),
        show[k] < w.table.len(),
    ensures
        ({
            let row = hits_of(w, search_over(w.table.len(), clauses, show, t0, t1))[i];
            let signal = w.table[show[k] as int];
            &&& row.end is Some
            &&& t0 <= row.begin <= row.end->0 <= t1
            &&& row.raws.len() == show.len()
            &&& row.raws[k] == texts_at(w, row.begin)[show[k] as int]
            &&& hit_covers(row, t) ==> shown_text(row.raws[k], signal) == shown_text(
                texts_at(w, t)[show[k] as int],
                signal,
            )
        }),
{
    let n = w.table.len();
    let d = search_over(n, clauses, show, t0, t1);
    let q = question_of(w, d);
    let ev = window_events(w, d.selected, 0, Some(t1));
    lemma_selected(w, clauses, show, t0, t1);
    lemma_window_events(w, d.selected, t1);
    let rows = search_spans(q, ev, t0, t1);
    let row = hits_of(w, d)[i];
    assert(row == hit_of_span(rows[i]));
    rows_show_their_beginning(q, ev, t0, t1);
    search_rows_are_disjoint(q, ev, t0, t1);
    assert(rows[i].begin <= t1);
    assert(d.show[k] == show[k]);
    lemma_state_is_value(w, d.selected, t1, row.begin, show[k] as int);
    if hit_covers(row, t) {
        lemma_state_is_value(w, d.selected, t1, t, show[k] as int);
        assert(span_covers(rows[i], t));
        search_rows_cover_matches(q, ev, t0, t1, t);
        assert(rows[i].begin < t1);
        search_rows_cover_matches(q, ev, t0, t1, row.begin);
        assert(span_covers(rows[i], row.begin));
        let now = show_texts(q, show_raws(q, state_at(n, ev, t)));
        let first = show_texts(q, show_raws(q, state_at(n, ev, row.begin)));
        assert(now == first);
        assert(now[k] == first[k]);
    }
}

/// Of two rows of an interval search the earlier one ends before the later one
/// begins; and where they touch, some value shown changes in between.
pub proof fn search_rows_are_apart(
    w: WaveView,
    clauses: Seq<Seq<CondView>>,
    show: Seq<usize>,
    t0: int,
    t1: int,
    i: int,
    j: int,
)
    requires
        wave_ok(w),
        clauses_in(clauses, w.table.len()),
        search_over(w.table.len(), clauses, show, t0, t1).changed.len() == 0,
        t0 <= t1,
        0 <= i < j < hits_of(w, search_over(w.table.len(), clauses, show, t0, t1)).len(),
    ensures
        ({
            let rows = hits_of(w, search_over(w.table.len(), clauses, show, t0, t1));
            &&& rows[i].end is Some && rows[i].end->0 <= rows[j].begin
            &&& j == i + 1 && rows[i].end->0 == rows[j].begin && rows[i].begin < rows[i].end->0
                && rows[j].begin < rows[j].end->0 ==> exists|k: int|
                0 <= k < show.len() && shown_text(
                    rows[i].raws[k],
                    w.table[(#[trigger] show[k]) as int],
                ) != shown_text(rows[j].raws[k], w.table[show[k] as int])
        }),
{
    let n = w.table.len();
    let d = search_over(n, clauses, show, t0, t1);
    let q = question_of(w, d);
    let ev = window_events(w, d.selected, 0, Some(t1));
    lemma_selected(w, clauses, show, t0, t1);
    lemma_window_events(w, d.selected, t1);
    let rows = search_spans(q, ev, t0, t1);
    let hits = hits_of(w, d);
    assert(hits[i] == hit_of_span(rows[i]) && hits[j] == hit_of_span(rows[j]));
    search_rows_are_disjoint(q, ev, t0, t1);
    if j == i + 1 && rows[i].end == rows[j].begin && rows[i].begin < rows[i].end && rows[j].begin
        < rows[j].end {
        assert(rows[i].texts != rows[i + 1].texts);
        rows_show_their_beginning(q, ev, t0, t1);
        search_rows_cover_matches(q, ev, t0, t1, rows[i].begin);
        search_rows_cover_matches(q, ev, t0, t1, rows[j].begin);
        assert(span_covers(rows[i], rows[i].begin) && span_covers(rows[j], rows[j].begin));
        assert(d.show == show) by {
            if show.len() == 0 {
                assert(d.show =~= show);
            }
        }
        let a = rows[i].texts;
        let b = rows[j].texts;
        assert(a == show_texts(q, rows[i].raws) && b == show_texts(q, rows[j].raws));
        if forall|k: int| 0 <= k < show.len() ==> #[trigger] a[k] == b[k] {
            assert(a =~= b);
        }
        let k = choose|k: int| 0 <= k < show.len() && #[trigger] a[k] != b[k];
        assert(shown_text(rows[i].raws[k], w.table[show[k] as int]) != shown_text(
            rows[j].raws[k],
            w.table[show[k] as int],
        ));
    }
}

/// Does a history hold a change at a tick? Of an event every entry is one,
/// after tick zero; of another signal, an entry whose text is not that of the
/// value before the tick.
pub open spec fn turns_at(h: Seq<ChangeView>, kind: ValueKind, t: int) -> bool {
    exists|i: int|
        0 <= i < h.len() && (#[trigger] h[i]).tick == t && if kind == ValueKind::Event {
            t > 0
        } else {
            value_at(h, t - 1) is Some && raw_text(value_at(h, t - 1)->0) != raw_text(h[i].value)
        }
}

/// The signals of a design that change at a tick.
pub open spec fn turns(w: WaveView, t: int) -> Seq<bool> {
    Seq::new(w.table.len(), |s: int| turns_at(w.traces[s], w.table[s].kind, t))
}

/// Is there a row at this tick alone?
pub open spec fn fires_at(rows: Seq<HitView>, t: int) -> bool {
    exists|i: int| 0 <= i < rows.len() && (#[trigger] rows[i]).begin == t && rows[i].end is None
}

proof fn lemma_own_holds(events: Seq<EventView>, s: int, i: int) -> (k: int)
    requires
        0 <= i < events.len(),
        events[i].sid == s,
    ensures
        0 <= k < own(events, s).len(),
        own(events, s)[k] == events[i],
    decreases events.len(),
{
    let head = own_one(events[0], s);
    if i == 0 {
        0
    } else {
        let rest = events.drop_first();
        assert(rest[i - 1] == events[i]);
        let k = lemma_own_holds(rest, s, i - 1);
        assert(own(events, s)[head.len() + k] == own(rest, s)[k]);
        head.len() + k
    }
}

proof fn lemma_change_is_turn(
    w: WaveView,
    sel: Seq<usize>,
    show: Seq<usize>,
    clauses: Seq<Seq<CondView>>,
    t1: int,
    t: int,
    s: int,
)
    requires
        wave_ok(w),
        sel.no_duplicates(),
        forall|i: int| 0 <= i < sel.len() ==> (#[trigger] sel[i]) < w.table.len(),
        0 <= s < w.table.len(),
        sel.contains(s as usize),
        0 <= t <= t1,
    ensures
        changes_then(
            Question { clauses, table: w.table, show },
            window_events(w, sel, 0, Some(t1)),
            t,
            s,
        ) <==> turns_at(w.traces[s], w.table[s].kind, t),
{
    let q = Question { clauses, table: w.table, show };
    let n = w.table.len();
    let h = w.traces[s];
    let lists = event_lists(seen_of(w, sel), decl_orders(w.table), 0, Some(t1));
    let ev = window_events(w, sel, 0, Some(t1));
    let k = sel.index_of(s as usize);
    assert(sel[k] == s);
    assert forall|i: int| 0 <= i < lists.len() implies all_of(
        #[trigger] lists[i],
        sel[i] as int,
    ) by {
        lemma_list(w, sel, t1, i);
    }
    lemma_own_replayed(lists, sel, s);
    lemma_list(w, sel, t1, k);
    let list = lists[k];
    assert(own(ev, s) == list);
    lemma_state_is_value(w, sel, t1, t - 1, s);
    let before = state_at(n, ev, t - 1);
    assert(before[s] == texts_at(w, t - 1)[s]);
    upto_splits(h, t1);
    upto_splits(h, t - 1);
    if changes_then(q, ev, t, s) {
        let e = choose|e: int|
            0 <= e < ev.len() && (#[trigger] ev[e]).tick == t && is_change(q, ev[e], before, s);
        let m = lemma_own_holds(ev, s, e);
        assert(list[m] == ev[e]);
        assert(h[m].tick == t && h[m].value == ev[e].value);
        if t == 0 {
            lemma_nothing_before_zero(w, s);
        }
    }
    if turns_at(h, w.table[s].kind, t) {
        let m = choose|m: int|
            0 <= m < h.len() && (#[trigger] h[m]).tick == t && if w.table[s].kind
                == ValueKind::Event {
                t > 0
            } else {
                value_at(h, t - 1) is Some && raw_text(value_at(h, t - 1)->0) != raw_text(
                    h[m].value,
                )
            };
        assert(m < list.len());
        let e = lemma_own_within(ev, s, m);
        assert(ev[e] == list[m]);
        assert(list[m].sid == s);
        assert(ev[e].tick == t && is_change(q, ev[e], before, s));
    }
}

proof fn lemma_nothing_before_zero(w: WaveView, s: int)
    requires
        wave_ok(w),
        0 <= s < w.table.len(),
    ensures
        value_at(w.traces[s], -1) is None,
{
    let h = w.traces[s];
    upto_splits(h, -1);
    if upto(h, -1) > 0 {
        assert(w.traces[s][0].tick >= 0);
    }
}

/// A search for changes has a row at a tick of its window just when all the
/// terms of some clause hold then: those on values, of the values in force; and
/// those on changes, of the signals whose histories change there.
pub proof fn search_fires_on_changes(
    w: WaveView,
    clauses: Seq<Seq<CondView>>,
    show: Seq<usize>,
    t0: int,
    t1: int,
    t: int,
)
    requires
        wave_ok(w),
        clauses_in(clauses, w.table.len()),
        search_over(w.table.len(), clauses, show, t0, t1).changed.len() > 0,
        !is_mixed(clauses),
        0 <= t0 <= t <= t1,
    ensures
        fires_at(hits_of(w, search_over(w.table.len(), clauses, show, t0, t1)), t) <==> any_clause(
            texts_at(w, t),
            turns(w, t),
            clauses,
        ),
{
    let n = w.table.len();
    let d = search_over(n, clauses, show, t0, t1);
    let q = question_of(w, d);
    let ev = window_events(w, d.selected, 0, Some(t1));
    lemma_selected(w, clauses, show, t0, t1);
    lemma_window_events(w, d.selected, t1);
    let state = state_at(n, ev, t);
    let changed = Seq::new(n, |s: int| changes_then(q, ev, t, s));
    assert forall|i: int, j: int| 0 <= i < clauses.len() && 0 <= j < clauses[i].len() implies state[(
    #[trigger] clauses[i][j]).sid as int] == texts_at(w, t)[clauses[i][j].sid as int]
        && changed[clauses[i][j].sid as int] == turns(w, t)[clauses[i][j].sid as int] by {
        let s = clauses[i][j].sid as int;
        assert(s < n);
        lemma_state_is_value(w, d.selected, t1, t, s);
        lemma_change_is_turn(w, d.selected, d.show, clauses, t1, t, s);
    }
    lemma_terms_agree(state, changed, texts_at(w, t), turns(w, t), clauses);
    let raws = show_raws(q, state);
    firings_are_changes(q, ev, t0, t1, t, raws);
    let rows = search_firings(q, ev, t0);
    let hits = hits_of(w, d);
    assert(hits.len() == rows.len());
    if any_clause(state, changed, clauses) {
        lemma_something_happens(q, ev, t, d.changed);
        let i = choose|i: int|
            0 <= i < rows.len() && (#[trigger] rows[i]).tick == t && rows[i].raws == raws;
        assert(hits[i] == hit_of_firing(rows[i]));
        assert(hits[i].begin == t && hits[i].end is None);
    }
    if fires_at(hits, t) {
        let i = choose|i: int|
            0 <= i < hits.len() && (#[trigger] hits[i]).begin == t && hits[i].end is None;
        assert(hits[i] == hit_of_firing(rows[i]));
        firings_are_changes(q, ev, t0, t1, t, rows[i].raws);
        assert(fires_with(rows, t, rows[i].raws));
    }
}

/// A clause that asks for a change holds only at a tick with an event.
proof fn lemma_something_happens(q: Question, ev: Seq<EventView>, t: int, watching: Seq<usize>)
    requires
        watching == watched(q.clauses, q.table.len()),
        watching.len() > 0,
        q.table.len() <= usize::MAX,
        !is_mixed(q.clauses),
        any_clause(
            state_at(q.table.len(), ev, t),
            Seq::new(q.table.len(), |s: int| changes_then(q, ev, t, s)),
            q.clauses,
        ),
    ensures
        exists|k: int| 0 <= k < ev.len() && (#[trigger] ev[k]).tick == t,
{
    let n = q.table.len();
    let state = state_at(n, ev, t);
    let changed = Seq::new(n, |s: int| changes_then(q, ev, t, s));
    let clauses = q.clauses;
    numbers_in_range(n, |s: int| is_watched(clauses, s));
    let x = watching[0] as int;
    assert(is_watched(clauses, x));
    let (a, b) = choose|i: int, j: int|
        0 <= i < clauses.len() && 0 <= j < clauses[i].len() && (#[trigger] clauses[i][j]).sid == x
            && clauses[i][j].term is Changed;
    assert(asks_change(clauses[a])) by {
        assert(clauses[a][b].term is Changed);
    }
    let i = choose|i: int|
        0 <= i < clauses.len() && clause_holds(state, changed, #[trigger] clauses[i]);
    assert(asks_change(clauses[i]));
    let j = choose|j: int| 0 <= j < clauses[i].len() && (#[trigger] clauses[i][j]).term is Changed;
    assert(cond_holds(state, changed, clauses[i][j]));
    let s = clauses[i][j].sid as int;
    assert(changes_then(q, ev, t, s));
}

proof fn lemma_terms_agree(
    a: Seq<Option<Seq<char>>>,
    ca: Seq<bool>,
    b: Seq<Option<Seq<char>>>,
    cb: Seq<bool>,
    clauses: Seq<Seq<CondView>>,
)
    requires
        ca.len() == cb.len(),
        forall|i: int, j: int|
            0 <= i < clauses.len() && 0 <= j < clauses[i].len() ==> a[(
            #[trigger] clauses[i][j]).sid as int] == b[clauses[i][j].sid as int]
                && ca[clauses[i][j].sid as int] == cb[clauses[i][j].sid as int],
    ensures
        any_clause(a, ca, clauses) == any_clause(b, cb, clauses),
{
    assert forall|i: int| 0 <= i < clauses.len() implies #[trigger] clause_holds(a, ca, clauses[i])
        == clause_holds(b, cb, clauses[i]) by {
        let c = clauses[i];
        assert forall|j: int| 0 <= j < c.len() implies #[trigger] cond_holds(a, ca, c[j])
            == cond_holds(b, cb, c[j]) by {
            assert(a[clauses[i][j].sid as int] == b[clauses[i][j].sid as int]);
        }
        if clause_holds(a, ca, c) {
            assert forall|j: int| 0 <= j < c.len() implies cond_holds(b, cb, #[trigger] c[j]) by {
                assert(cond_holds(a, ca, c[j]));
            }
        }
        if clause_holds(b, cb, c) {
            assert forall|j: int| 0 <= j < c.len() implies cond_holds(a, ca, #[trigger] c[j]) by {
                assert(cond_holds(b, cb, c[j]));
            }
        }
    }
    if any_clause(a, ca, clauses) {
        let i = choose|i: int| 0 <= i < clauses.len() && clause_holds(a, ca, #[trigger] clauses[i]);
        assert(clause_holds(b, cb, clauses[i]));
    }
    if any_clause(b, cb, clauses) {
        let i = choose|i: int| 0 <= i < clauses.len() && clause_holds(b, cb, #[trigger] clauses[i]);
        assert(clause_holds(a, ca, clauses[i]));
    }
}

/// The rows of a search for changes lie in the window, one at a tick at most
/// and in time order; each shows the values in force at its tick. Where no
/// signal is asked to be shown, those are shown whose changes are asked for.
pub proof fn search_events_show_values(
    w: WaveView,
    clauses: Seq<Seq<CondView>>,
    show: Seq<usize>,
    t0: int,
    t1: int,
    i: int,
    k: int,
)
    requires
        wave_ok(w),
        clauses_in(clauses, w.table.len()),
        search_over(w.table.len(), clauses, show, t0, t1).changed.len() > 0,
        0 <= t0 <= t1,
        forall|m: int| 0 <= m < show.len() ==> (#[trigger] show[m]) < w.table.len(),
        0 <= i < hits_of(w, search_over(w.table.len(), clauses, show, t0, t1)).len(),
        0 <= k < search_over(w.table.len(), clauses, show, t0, t1).show.len(),
    ensures
        ({
            let d = search_over(w.table.len(), clauses, show, t0, t1);
            let rows = hits_of(w, d);
            &&& t0 <= rows[i].begin <= t1 && rows[i].end is None
            &&& forall|j: int|
                i < j < rows.len() ==> rows[i].begin < (#[trigger] rows[j]).begin
            &&& rows[i].raws.len() == d.show.len()
            &&& rows[i].raws[k] == texts_at(w, rows[i].begin)[d.show[k] as int]
            &&& show.len() > 0 ==> d.show == show
            &&& show.len() == 0 ==> is_watched(clauses, d.show[k] as int)
        }),
{
    let n = w.table.len();
    let d = search_over(n, clauses, show, t0, t1);
    let q = question_of(w, d);
    let ev = window_events(w, d.selected, 0, Some(t1));
    lemma_selected(w, clauses, show, t0, t1);
    lemma_window_events(w, d.selected, t1);
    let rows = search_firings(q, ev, t0);
    let hits = hits_of(w, d);
    assert(forall|j: int| 0 <= j < rows.len() ==> #[trigger] hits[j] == hit_of_firing(rows[j]));
    firings_are_ordered(q, ev, t0, t1);
    let t = rows[i].tick;
    firings_are_changes(q, ev, t0, t1, t, rows[i].raws);
    assert(fires_with(rows, t, rows[i].raws));
    numbers_in_range(n, |s: int| is_watched(clauses, s));
    let s = d.show[k];
    assert(s < n);
    lemma_state_is_value(w, d.selected, t1, t, s as int);
    assert(rows[i].raws[k] == state_at(n, ev, t)[s as int]);
    assert(hits[i] == hit_of_firing(rows[i]));
}

} // verus!
