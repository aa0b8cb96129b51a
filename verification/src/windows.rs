//! What the commands on instants and time windows find, said of the entries of
//! the recorded histories themselves.

use vstd::prelude::*;

use crate::activity::{
    all_stats, flips, initial_tick, opt_list, stats_of, unknown_in, value_key, StatsView,
};
use crate::cli::ArgsView;
use crate::compare::{compare_of, defined_count, diffs_of, CompareView, DiffView};
use crate::dump::{dump_of, window_events, DumpView};
use crate::format::{four_state, four_states};
use crate::history::{
    changes_in, in_time_order, raw_text, upto, upto_splits, value_at, ChangeView, RawView,
};
use crate::model::{decl_at, decl_orders, event_lists, seen_of, WaveView};
use crate::replay::{
    in_replay_order, merged, no_later, replay, replay_is_ordered, signal_events, EventView,
};
use crate::report::{chosen, choice_of, sids_are_the_matches};
use crate::search_rows::{all_of, own, lemma_own_replayed, own_one};
use crate::select::{keeps, selects_all, SelectionView};
use crate::signal::SignalView;
use crate::snapshot::{rows_with, snapshot_of, SnapRowView, SnapView};
use crate::summary::{kind_of, of_kind, summary_of, RowKind, SummaryView};
use crate::text::{has_char, trimmed, two_pieces};
use crate::time::{time_of, Timescale};

verus! {

/// Is there a history in time order for each signal of the table?
pub open spec fn histories_ok(w: WaveView) -> bool {
    &&& w.traces.len() == w.table.len() <= usize::MAX
    &&& forall|s: int| 0 <= s < w.traces.len() ==> in_time_order(#[trigger] w.traces[s])
}

/// Is the tick in the window? A window without an end goes on for ever.
pub open spec fn between(t: int, lo: int, hi: Option<int>) -> bool {
    lo <= t && (hi matches Some(h) ==> t <= h)
}

/// The entries of a history that fall in a window.
pub open spec fn entries_between(h: Seq<ChangeView>, lo: int, hi: Option<int>) -> Seq<ChangeView> {
    h.filter(|c: ChangeView| between(c.tick, lo, hi))
}

/// Is entry `i` the last one at or before tick `t`?
pub open spec fn last_by(h: Seq<ChangeView>, t: int, i: int) -> bool {
    &&& 0 <= i < h.len()
    &&& h[i].tick <= t
    &&& forall|j: int| i < j < h.len() ==> (#[trigger] h[j]).tick > t
}

/// Is `v` what the history gives for tick `t`: the value of the last entry at
/// or before it, or nothing where every entry comes later?
pub open spec fn in_force(h: Seq<ChangeView>, t: int, v: Option<RawView>) -> bool {
    match v {
        Some(x) => exists|i: int| #[trigger] last_by(h, t, i) && h[i].value == x,
        None => forall|i: int| 0 <= i < h.len() ==> (#[trigger] h[i]).tick > t,
    }
}

/// The value at a tick is that of the last entry at or before it.
pub proof fn value_at_is_in_force(h: Seq<ChangeView>, t: int)
    requires
        in_time_order(h),
    ensures
        in_force(h, t, value_at(h, t)),
{
    upto_splits(h, t);
    let n = upto(h, t);
    if n > 0 {
        assert(last_by(h, t, n - 1));
    }
}

/// A history has just one value in force at a tick.
pub proof fn one_value_in_force(h: Seq<ChangeView>, t: int, a: Option<RawView>, b: Option<RawView>)
    requires
        in_force(h, t, a),
        in_force(h, t, b),
    ensures
        a == b,
{
    match (a, b) {
        (Some(x), Some(y)) => {
            let i = choose|i: int| #[trigger] last_by(h, t, i) && h[i].value == x;
            let j = choose|j: int| #[trigger] last_by(h, t, j) && h[j].value == y;
            if i < j {
                assert(h[j].tick > t);
            }
            if j < i {
                assert(h[i].tick > t);
            }
        },
        (Some(x), None) => {
            let i = choose|i: int| #[trigger] last_by(h, t, i) && h[i].value == x;
            assert(h[i].tick > t);
        },
        (None, Some(y)) => {
            let j = choose|j: int| #[trigger] last_by(h, t, j) && h[j].value == y;
            assert(h[j].tick > t);
        },
        (None, None) => {},
    }
}

proof fn lemma_filter_all<A>(s: Seq<A>, p: spec_fn(A) -> bool)
    requires
        forall|i: int| 0 <= i < s.len() ==> p(#[trigger] s[i]),
    ensures
        s.filter(p) == s,
    decreases s.len(),
{
    reveal(Seq::filter);
    if s.len() > 0 {
        let less = s.drop_last();
        assert forall|i: int| 0 <= i < less.len() implies p(#[trigger] less[i]) by {
            assert(less[i] == s[i]);
        }
        lemma_filter_all(less, p);
        assert(p(s[s.len() - 1]));
        assert(less.push(s.last()) =~= s);
    }
}

proof fn lemma_filter_none<A>(s: Seq<A>, p: spec_fn(A) -> bool)
    requires
        forall|i: int| 0 <= i < s.len() ==> !p(#[trigger] s[i]),
    ensures
        s.filter(p) == Seq::<A>::empty(),
    decreases s.len(),
{
    reveal(Seq::filter);
    if s.len() > 0 {
        let less = s.drop_last();
        assert forall|i: int| 0 <= i < less.len() implies !p(#[trigger] less[i]) by {
            assert(less[i] == s[i]);
        }
        lemma_filter_none(less, p);
        assert(!p(s[s.len() - 1]));
    } else {
        assert(s =~= Seq::empty());
    }
}

/// The changes in a window are the entries that fall in it, all of them and in
/// their order.
pub proof fn changes_are_the_entries(h: Seq<ChangeView>, lo: int, hi: Option<int>)
    requires
        in_time_order(h),
    ensures
        changes_in(h, lo, hi) == entries_between(h, lo, hi),
{
    let p = |c: ChangeView| between(c.tick, lo, hi);
    upto_splits(h, lo - 1);
    let a = upto(h, lo - 1);
    let b = match hi {
        Some(t) => {
            upto_splits(h, t);
            upto(h, t)
        },
        None => h.len() as int,
    };
    if a <= b {
        let x = h.subrange(0, a);
        let y = h.subrange(a, b);
        let z = h.subrange(b, h.len() as int);
        assert(h =~= x + y + z);
        lemma_filter_none(x, p);
        lemma_filter_all(y, p);
        lemma_filter_none(z, p);
        Seq::filter_distributes_over_add(x, y, p);
        Seq::filter_distributes_over_add(x + y, z, p);
        assert(h.filter(p) =~= y);
    } else {
        assert forall|i: int| 0 <= i < h.len() implies !p(#[trigger] h[i]) by {
            if i >= a {
                assert(h[i].tick > hi->0);
            } else {
                assert(h[i].tick <= lo - 1);
            }
        }
        lemma_filter_none(h, p);
    }
}

/// The signals chosen: those of the table that the choice keeps, each once, in
/// the order of the table.
pub proof fn chosen_are_the_kept(table: Seq<SignalView>, s: SelectionView)
    requires
        table.len() <= usize::MAX,
        forall|k: int| 0 <= k < table.len() ==> (#[trigger] table[k]).aliases.len() > 0,
    ensures
        forall|k: usize|
            #[trigger] chosen(table, s).contains(k) <==> k < table.len() && keeps(
                s,
                table[k as int],
            ),
        forall|i: int, j: int|
            0 <= i < j < chosen(table, s).len() ==> (#[trigger] chosen(table, s)[i]) < (
            #[trigger] chosen(table, s)[j]),
        forall|i: int| 0 <= i < chosen(table, s).len() ==> (#[trigger] chosen(table, s)[i]) < table.len(),
        chosen(table, s).no_duplicates(),
{
    let c = chosen(table, s);
    if selects_all(s) {
        assert forall|k: usize| #[trigger] c.contains(k) <==> k < table.len() && keeps(
            s,
            table[k as int],
        ) by {
            if k < table.len() {
                assert(c[k as int] == k);
                let g = table[k as int];
                assert(g.aliases.len() > 0);
                assert(crate::select::keeps_path(s, g.aliases[0], g.scopes[0]));
            }
        }
    } else {
        let pred = |g: SignalView| keeps(s, g);
        sids_are_the_matches(table, pred);
        assert forall|k: usize| #[trigger] c.contains(k) <==> k < table.len() && keeps(
            s,
            table[k as int],
        ) by {
            if c.contains(k) {
                let i = choose|i: int| 0 <= i < c.len() && c[i] == k;
                assert(pred(table[c[i] as int]));
            }
            if k < table.len() && keeps(s, table[k as int]) {
                assert(pred(table[k as int]));
            }
        }
    }
}

proof fn lemma_chosen_in_table(table: Seq<SignalView>, s: SelectionView)
    requires
        table.len() <= usize::MAX,
    ensures
        forall|i: int| 0 <= i < chosen(table, s).len() ==> (#[trigger] chosen(table, s)[i]) < table.len(),
        forall|i: int, j: int|
            0 <= i < j < chosen(table, s).len() ==> (#[trigger] chosen(table, s)[i]) < (
            #[trigger] chosen(table, s)[j]),
        chosen(table, s).no_duplicates(),
{
    if !selects_all(s) {
        sids_are_the_matches(table, |g: SignalView| keeps(s, g));
    }
}

// ---- dump ----

/// The entries that the events of one signal stand for, in their order.
pub open spec fn event_entries(events: Seq<EventView>, s: int) -> Seq<ChangeView> {
    events.filter(|e: EventView| e.sid == s).map_values(
        |e: EventView| ChangeView { tick: e.tick, value: e.value },
    )
}

proof fn lemma_own_is_filter(events: Seq<EventView>, s: int)
    ensures
        own(events, s) == events.filter(|e: EventView| e.sid == s),
    decreases events.len(),
{
    let p = |e: EventView| e.sid == s;
    reveal(Seq::filter);
    if events.len() > 0 {
        let head = seq![events[0]];
        let rest = events.drop_first();
        lemma_own_is_filter(rest, s);
        assert(events =~= head + rest);
        Seq::filter_distributes_over_add(head, rest, p);
        assert(head.drop_last() =~= Seq::empty());
        assert(head.drop_last().filter(p) =~= Seq::empty());
        assert(head.filter(p) =~= own_one(events[0], s));
    } else {
        assert(events =~= Seq::empty());
    }
}

proof fn lemma_merge_keeps(a: Seq<EventView>, b: Seq<EventView>, p: spec_fn(EventView) -> bool)
    requires
        forall|i: int| 0 <= i < a.len() ==> p(#[trigger] a[i]),
        forall|i: int| 0 <= i < b.len() ==> p(#[trigger] b[i]),
    ensures
        forall|i: int| 0 <= i < merged(a, b).len() ==> p(#[trigger] merged(a, b)[i]),
    decreases a.len() + b.len(),
{
    if a.len() == 0 || b.len() == 0 {
    } else if no_later(a[0], b[0]) {
        let a1 = a.drop_first();
        assert forall|i: int| 0 <= i < a1.len() implies p(#[trigger] a1[i]) by {
            assert(a1[i] == a[i + 1]);
        }
        lemma_merge_keeps(a1, b, p);
        let m = merged(a, b);
        assert forall|i: int| 0 <= i < m.len() implies p(#[trigger] m[i]) by {
            if i > 0 {
                assert(m[i] == merged(a1, b)[i - 1]);
            } else {
                assert(m[0] == a[0]);
            }
        }
    } else {
        let b1 = b.drop_first();
        assert forall|i: int| 0 <= i < b1.len() implies p(#[trigger] b1[i]) by {
            assert(b1[i] == b[i + 1]);
        }
        lemma_merge_keeps(a, b1, p);
        let m = merged(a, b);
        assert forall|i: int| 0 <= i < m.len() implies p(#[trigger] m[i]) by {
            if i > 0 {
                assert(m[i] == merged(a, b1)[i - 1]);
            } else {
                assert(m[0] == b[0]);
            }
        }
    }
}

proof fn lemma_replay_keeps(lists: Seq<Seq<EventView>>, p: spec_fn(EventView) -> bool)
    requires
        forall|k: int, i: int|
            0 <= k < lists.len() && 0 <= i < lists[k].len() ==> p(#[trigger] lists[k][i]),
    ensures
        forall|i: int| 0 <= i < replay(lists).len() ==> p(#[trigger] replay(lists)[i]),
    decreases lists.len(),
{
    if lists.len() > 0 {
        let less = lists.drop_last();
        assert forall|k: int, i: int| 0 <= k < less.len() && 0 <= i < less[k].len() implies p(
            #[trigger] less[k][i],
        ) by {
            assert(p(lists[k][i]));
        }
        lemma_replay_keeps(less, p);
        let last = lists.last();
        assert forall|i: int| 0 <= i < last.len() implies p(#[trigger] last[i]) by {
            assert(p(lists[lists.len() - 1][i]));
        }
        lemma_merge_keeps(replay(less), last, p);
    }
}

/// The events of a window: each falls in it and is of a signal asked for, they
/// come in time order (and within a tick in declaration order), and for every
/// signal asked for they are just the entries of its history in the window.
pub proof fn window_events_are_the_entries(w: WaveView, sids: Seq<usize>, t0: int, t1: Option<int>)
    requires
        histories_ok(w),
        sids.no_duplicates(),
        forall|i: int| 0 <= i < sids.len() ==> (#[trigger] sids[i]) < w.table.len(),
    ensures
        forall|k: int|
            0 <= k < window_events(w, sids, t0, t1).len() ==> between(
                (#[trigger] window_events(w, sids, t0, t1)[k]).tick,
                t0,
                t1,
            ) && sids.contains(window_events(w, sids, t0, t1)[k].sid as usize),
        forall|i: int, j: int|
            0 <= i <= j < window_events(w, sids, t0, t1).len() ==> (#[trigger] window_events(
                w,
                sids,
                t0,
                t1,
            )[i]).tick <= (#[trigger] window_events(w, sids, t0, t1)[j]).tick,
        in_replay_order(window_events(w, sids, t0, t1)),
        forall|s: usize|
            sids.contains(s) ==> #[trigger] event_entries(window_events(w, sids, t0, t1), s as int)
                == entries_between(w.traces[s as int], t0, t1),
{
    let lists = event_lists(seen_of(w, sids), decl_orders(w.table), t0, t1);
    let ev = window_events(w, sids, t0, t1);
    let decls = decl_orders(w.table);
    let p = |e: EventView| between(e.tick, t0, t1) && sids.contains(e.sid as usize);
    assert forall|k: int| 0 <= k < lists.len() implies #[trigger] lists[k] == signal_events(
        sids[k] as nat,
        decl_at(decls, sids[k]),
        w.traces[sids[k] as int],
        t0,
        t1,
    ) && in_time_order(w.traces[sids[k] as int]) by {
        assert(seen_of(w, sids)[k] == (sids[k], w.traces[sids[k] as int]));
    }
    assert forall|k: int, i: int| 0 <= k < lists.len() && 0 <= i < lists[k].len() implies p(
        #[trigger] lists[k][i],
    ) by {
        let h = w.traces[sids[k] as int];
        lemma_part(h, t0, t1);
        let c = changes_in(h, t0, t1);
        assert(lists[k][i].tick == c[i].tick);
        assert(sids[k] == lists[k][i].sid);
    }
    lemma_replay_keeps(lists, p);
    assert forall|k: int| 0 <= k < lists.len() implies in_replay_order(#[trigger] lists[k]) by {
        let h = w.traces[sids[k] as int];
        lemma_part(h, t0, t1);
    }
    replay_is_ordered(lists);
    assert forall|i: int, j: int| 0 <= i <= j < ev.len() implies (#[trigger] ev[i]).tick <= (
    #[trigger] ev[j]).tick by {
        assert(no_later(ev[i], ev[j]));
    }
    assert forall|k: int| 0 <= k < ev.len() implies between((#[trigger] ev[k]).tick, t0, t1)
        && sids.contains(ev[k].sid as usize) by {
        assert(p(ev[k]));
    }
    assert forall|k: int| 0 <= k < lists.len() implies all_of(#[trigger] lists[k], sids[k] as int) by {
    }
    assert forall|s: usize| sids.contains(s) implies #[trigger] event_entries(ev, s as int)
        == entries_between(w.traces[s as int], t0, t1) by {
        let k = sids.index_of(s);
        let h = w.traces[s as int];
        lemma_own_replayed(lists, sids, s as int);
        lemma_own_is_filter(ev, s as int);
        assert(sids[k] == s);
        assert(own(ev, s as int) == lists[k]);
        changes_are_the_entries(h, t0, t1);
        assert(event_entries(ev, s as int) =~= changes_in(h, t0, t1));
    }
}

proof fn lemma_part(h: Seq<ChangeView>, lo: int, hi: Option<int>)
    requires
        in_time_order(h),
    ensures
        in_time_order(changes_in(h, lo, hi)),
        forall|i: int|
            0 <= i < changes_in(h, lo, hi).len() ==> between(
                (#[trigger] changes_in(h, lo, hi)[i]).tick,
                lo,
                hi,
            ),
{
    upto_splits(h, lo - 1);
    let a = upto(h, lo - 1);
    match hi {
        Some(t) => {
            upto_splits(h, t);
        },
        None => {},
    }
    let c = changes_in(h, lo, hi);
    assert forall|i: int, j: int| 0 <= i <= j < c.len() implies (#[trigger] c[i]).tick <= (
    #[trigger] c[j]).tick by {
        assert(c[i] == h[a + i] && c[j] == h[a + j]);
    }
    assert forall|i: int| 0 <= i < c.len() implies between((#[trigger] c[i]).tick, lo, hi) by {
        assert(c[i] == h[a + i]);
    }
}

/// The window that an invocation asks for: from `--begin` (or tick zero) to
/// `--end` (or for ever), which must not come before.
pub open spec fn window_asked<T: Timescale>(a: ArgsView, ts: &T, t0: int, t1: Option<int>) -> bool {
    &&& a.begin is None ==> t0 == 0
    &&& a.begin matches Some(b) ==> time_of(b, ts) == Ok::<int, Seq<char>>(t0)
    &&& a.end is None ==> t1 is None
    &&& a.end matches Some(e) ==> t1 is Some && time_of(e, ts) == Ok::<int, Seq<char>>(t1->0)
    &&& t1 matches Some(e) ==> t0 <= e
}

/// What `dump` shows: the window is the one asked for and the signals are those
/// of the choice; every event falls in the window and is of such a signal, in
/// time order; and where the limit leaves none out, every entry of such a
/// signal in the window is among them, as often as it was recorded.
pub proof fn dump_shows_the_window<T: Timescale>(w: WaveView, a: ArgsView, ts: &T, d: DumpView)
    requires
        histories_ok(w),
        dump_of(w, a, ts) == Ok::<DumpView, Seq<char>>(d),
    ensures
        window_asked(a, ts, d.t0, d.t1),
        choice_of(a) is Ok,
        d.selected == chosen(w.table, choice_of(a)->Ok_0),
        forall|k: int|
            0 <= k < d.events.len() ==> between((#[trigger] d.events[k]).tick, d.t0, d.t1)
                && d.selected.contains(d.events[k].sid as usize),
        forall|i: int, j: int|
            0 <= i <= j < d.events.len() ==> (#[trigger] d.events[i]).tick <= (
            #[trigger] d.events[j]).tick,
        !d.truncated && w_small(w, d) ==> forall|s: usize|
            d.selected.contains(s) ==> #[trigger] event_entries(d.events, s as int)
                == entries_between(w.traces[s as int], d.t0, d.t1),
{
    let s = choice_of(a)->Ok_0;
    lemma_chosen_in_table(w.table, s);
    let all = window_events(w, d.selected, d.t0, d.t1);
    window_events_are_the_entries(w, d.selected, d.t0, d.t1);
    assert(d.events =~= all.take(d.events.len() as int));
    assert forall|k: int| 0 <= k < d.events.len() implies d.events[k] == all[k] by {}
    if !d.truncated && w_small(w, d) {
        assert(d.events =~= all);
    }
}

/// Can the events of the window be counted in a machine integer?
pub open spec fn w_small(w: WaveView, d: DumpView) -> bool {
    window_events(w, d.selected, d.t0, d.t1).len() < usize::MAX
}

/// A limit of `n` cuts the events of a dump after the first `n`, and says that
/// there are more just when there are; zero cuts nothing. Without a limit it is
/// 500, or none for a verbose dump.
pub proof fn dump_limit_cuts<T: Timescale>(w: WaveView, a: ArgsView, ts: &T, n: int)
    requires
        0 < n < usize::MAX,
        dump_of(w, ArgsView { limit: Some(0), ..a }, ts) is Ok,
    ensures
        ({
            let all = dump_of(w, ArgsView { limit: Some(0), ..a }, ts)->Ok_0;
            let cut = dump_of(w, ArgsView { limit: Some(n), ..a }, ts);
            &&& !all.truncated
            &&& cut is Ok
            &&& cut->Ok_0.truncated == (all.events.len() > n)
            &&& cut->Ok_0.truncated ==> cut->Ok_0.events == all.events.take(n)
            &&& !cut->Ok_0.truncated ==> cut->Ok_0.events == all.events
            &&& cut->Ok_0.selected == all.selected && cut->Ok_0.t0 == all.t0 && cut->Ok_0.t1
                == all.t1
        }),
        a.limit is None && !a.verbose ==> dump_of(w, a, ts) == dump_of(
            w,
            ArgsView { limit: Some(500), ..a },
            ts,
        ),
        a.limit is None && a.verbose ==> dump_of(w, a, ts) == dump_of(
            w,
            ArgsView { limit: Some(0), ..a },
            ts,
        ),
{
    let all = dump_of(w, ArgsView { limit: Some(0), ..a }, ts)->Ok_0;
    let ev = window_events(w, all.selected, all.t0, all.t1);
    assert(all.events == ev);
    if ev.len() <= n {
        assert(ev.take(ev.len() as int) =~= ev);
    }
}

/// An outer window and an inner one: the inner dump shows of the outer just the
/// events that fall in it.
pub proof fn dump_of_a_part<T: Timescale>(
    w: WaveView,
    a: ArgsView,
    b: ArgsView,
    ts: &T,
    d: DumpView,
    e: DumpView,
    s: usize,
)
    requires
        histories_ok(w),
        dump_of(w, a, ts) == Ok::<DumpView, Seq<char>>(d),
        dump_of(w, b, ts) == Ok::<DumpView, Seq<char>>(e),
        !d.truncated && !e.truncated && w_small(w, d) && w_small(w, e),
        d.t0 <= e.t0,
        d.t1 matches Some(x) ==> e.t1 is Some && e.t1->0 <= x,
        d.selected.contains(s) && e.selected.contains(s),
    ensures
        event_entries(e.events, s as int) == event_entries(d.events, s as int).filter(
            |c: ChangeView| between(c.tick, e.t0, e.t1),
        ),
{
    dump_shows_the_window(w, a, ts, d);
    dump_shows_the_window(w, b, ts, e);
    let h = w.traces[s as int];
    lemma_filter_twice(h, d.t0, d.t1, e.t0, e.t1);
}

proof fn lemma_filter_twice(
    h: Seq<ChangeView>,
    lo: int,
    hi: Option<int>,
    lo2: int,
    hi2: Option<int>,
)
    requires
        lo <= lo2,
        hi matches Some(x) ==> hi2 is Some && hi2->0 <= x,
    ensures
        entries_between(h, lo, hi).filter(|c: ChangeView| between(c.tick, lo2, hi2))
            == entries_between(h, lo2, hi2),
    decreases h.len(),
{
    reveal(Seq::filter);
    let p = |c: ChangeView| between(c.tick, lo, hi);
    let q = |c: ChangeView| between(c.tick, lo2, hi2);
    if h.len() > 0 {
        let less = h.drop_last();
        lemma_filter_twice(less, lo, hi, lo2, hi2);
        let part = less.filter(p);
        if p(h.last()) {
            assert(part.push(h.last()).drop_last() =~= part);
        }
    }
}

// ---- snapshot ----

proof fn lemma_rows_with(w: WaveView, sids: Seq<usize>, t: int, known: bool)
    requires
        forall|i: int, j: int| 0 <= i < j < sids.len() ==> (#[trigger] sids[i]) < (#[trigger] sids[j]),
    ensures
        forall|i: int|
            0 <= i < rows_with(w, sids, t, known).len() ==> {
                let r = #[trigger] rows_with(w, sids, t, known)[i];
                sids.contains(r.sid) && r.value == value_at(w.traces[r.sid as int], t) && (
                r.value is Some) == known
            },
        forall|s: usize|
            #[trigger] sids.contains(s) && (value_at(w.traces[s as int], t) is Some) == known
                ==> exists|i: int|
                0 <= i < rows_with(w, sids, t, known).len() && (#[trigger] rows_with(
                    w,
                    sids,
                    t,
                    known,
                )[i]).sid == s,
        forall|i: int, j: int|
            0 <= i < j < rows_with(w, sids, t, known).len() ==> (#[trigger] rows_with(
                w,
                sids,
                t,
                known,
            )[i]).sid < (#[trigger] rows_with(w, sids, t, known)[j]).sid,
    decreases sids.len(),
{
    if sids.len() > 0 {
        let less = sids.drop_last();
        let x = sids.last();
        assert forall|i: int, j: int| 0 <= i < j < less.len() implies (#[trigger] less[i]) < (
        #[trigger] less[j]) by {
            assert(sids[i] < sids[j]);
        }
        lemma_rows_with(w, less, t, known);
        let rest = rows_with(w, less, t, known);
        let all = rows_with(w, sids, t, known);
        assert(sids[sids.len() - 1] == x);
        assert forall|i: int| 0 <= i < all.len() implies {
            let r = #[trigger] all[i];
            sids.contains(r.sid) && r.value == value_at(w.traces[r.sid as int], t) && (r.value is Some)
                == known
        } by {
            if i < rest.len() {
                assert(all[i] == rest[i]);
                let k = choose|k: int| 0 <= k < less.len() && less[k] == rest[i].sid;
                assert(sids[k] == rest[i].sid);
            }
        }
        assert forall|s: usize| #[trigger]
            sids.contains(s) && (value_at(w.traces[s as int], t) is Some) == known implies exists|
            i: int,
        | 0 <= i < all.len() && (#[trigger] all[i]).sid == s by {
            if s == x {
                assert(all[all.len() - 1].sid == s);
            } else {
                let k = choose|k: int| 0 <= k < sids.len() && sids[k] == s;
                assert(less[k] == s);
                assert(less.contains(s));
                let i = choose|i: int| 0 <= i < rest.len() && (#[trigger] rest[i]).sid == s;
                assert(all[i] == rest[i]);
            }
        }
        assert forall|i: int, j: int| 0 <= i < j < all.len() implies (#[trigger] all[i]).sid < (
        #[trigger] all[j]).sid by {
            assert(all[i] == rest[i]);
            if j < rest.len() {
                assert(all[j] == rest[j]);
            } else {
                assert(less.contains(rest[i].sid));
                let k = choose|k: int| 0 <= k < less.len() && less[k] == rest[i].sid;
                assert(sids[k] < sids[sids.len() - 1]);
            }
        }
    }
}

/// What `snapshot` shows: at the instant asked for, a row for each chosen
/// signal that has a value then, with that value, and none for the others; a
/// verbose snapshot has the others behind them, without a value. The signals
/// come in the order of the table, and the counts say how many have a value.
pub proof fn snapshot_shows_values_in_force<T: Timescale>(
    w: WaveView,
    a: ArgsView,
    ts: &T,
    d: SnapView,
)
    requires
        histories_ok(w),
        snapshot_of(w, a, ts) == Ok::<SnapView, Seq<char>>(d),
    ensures
        a.at is Some && time_of(a.at->0, ts) == Ok::<int, Seq<char>>(d.t_at),
        choice_of(a) is Ok,
        ({
            let sel = chosen(w.table, choice_of(a)->Ok_0);
            &&& forall|i: int|
                0 <= i < d.rows.len() ==> sel.contains((#[trigger] d.rows[i]).sid) && in_force(
                    w.traces[d.rows[i].sid as int],
                    d.t_at,
                    d.rows[i].value,
                )
            &&& forall|s: usize, k: int|
                sel.contains(s) && 0 <= k < w.traces[s as int].len() && (
                #[trigger] w.traces[s as int][k]).tick <= d.t_at ==> shown_in(d.rows, s)
            &&& a.verbose ==> forall|s: usize| #[trigger] sel.contains(s) ==> shown_in(d.rows, s)
            &&& !a.verbose ==> d.rows.len() == d.known
            &&& forall|i: int|
                0 <= i < d.rows.len() ==> ((#[trigger] d.rows[i]).value is Some <==> i < d.known)
            &&& forall|i: int, j: int|
                0 <= i < j < d.rows.len() && (j < d.known || d.known <= i) ==> (
                #[trigger] d.rows[i]).sid < (#[trigger] d.rows[j]).sid
            &&& d.selected == sel.len()
            &&& d.known + d.undef == d.selected
        }),
{
    let sel = chosen(w.table, choice_of(a)->Ok_0);
    let t = d.t_at;
    lemma_chosen_in_table(w.table, choice_of(a)->Ok_0);
    lemma_rows_with(w, sel, t, true);
    lemma_rows_with(w, sel, t, false);
    crate::snapshot::snapshot_counts_add_up(w, sel, t);
    let known = rows_with(w, sel, t, true);
    let undef = rows_with(w, sel, t, false);
    assert forall|i: int| 0 <= i < d.rows.len() implies sel.contains((#[trigger] d.rows[i]).sid)
        && in_force(w.traces[d.rows[i].sid as int], t, d.rows[i].value) && (d.rows[i].value is Some
        <==> i < d.known) by {
        let r = d.rows[i];
        if i < known.len() {
            assert(r == known[i]);
        } else {
            assert(r == undef[i - known.len()]);
        }
        let k = choose|k: int| 0 <= k < sel.len() && sel[k] == r.sid;
        assert(sel[k] < w.table.len());
        assert(in_time_order(w.traces[r.sid as int]));
        value_at_is_in_force(w.traces[r.sid as int], t);
    }
    assert forall|s: usize| sel.contains(s) && value_at(w.traces[s as int], t) is Some implies #[trigger] shown_in(
        d.rows,
        s,
    ) by {
        let i = choose|i: int| 0 <= i < known.len() && (#[trigger] known[i]).sid == s;
        assert(d.rows[i] == known[i]);
    }
    assert forall|s: usize, k: int|
        sel.contains(s) && 0 <= k < w.traces[s as int].len() && (
        #[trigger] w.traces[s as int][k]).tick <= t implies shown_in(d.rows, s) by {
        let i = choose|i: int| 0 <= i < sel.len() && sel[i] == s;
        assert(sel[i] < w.table.len());
        assert(in_time_order(w.traces[s as int]));
        upto_splits(w.traces[s as int], t);
        assert(value_at(w.traces[s as int], t) is Some);
    }
    if a.verbose {
        assert forall|s: usize| #[trigger] sel.contains(s) implies shown_in(d.rows, s) by {
            if value_at(w.traces[s as int], t) is None {
                let i = choose|i: int| 0 <= i < undef.len() && (#[trigger] undef[i]).sid == s;
                assert(d.rows[known.len() + i] == undef[i]);
            }
        }
    }
    assert forall|i: int, j: int|
        0 <= i < j < d.rows.len() && (j < d.known || d.known <= i) implies (
    #[trigger] d.rows[i]).sid < (#[trigger] d.rows[j]).sid by {
        if j < d.known {
            assert(d.rows[i] == known[i] && d.rows[j] == known[j]);
        } else {
            assert(d.rows[i] == undef[i - known.len()] && d.rows[j] == undef[j - known.len()]);
        }
    }
}

/// Is there a row for the signal?
pub open spec fn shown_in(rows: Seq<SnapRowView>, s: usize) -> bool {
    exists|i: int| 0 <= i < rows.len() && (#[trigger] rows[i]).sid == s
}

// ---- compare ----

/// Do two values that may be absent differ: is only one there, or are their
/// recorded texts different?
pub open spec fn apart(a: Option<RawView>, b: Option<RawView>) -> bool {
    ||| a is Some && b is None
    ||| a is None && b is Some
    ||| a is Some && b is Some && raw_text(a->0) != raw_text(b->0)
}

/// The recorded text of a value is what was recorded.
pub proof fn recorded_text(s: Seq<char>, bits: u64)
    ensures
        raw_text(RawView::Bits(s)) == s,
        raw_text(RawView::Str(s)) == s,
        raw_text(RawView::Real { bits, text: s }) == s,
        raw_text(RawView::Event) == Seq::<char>::empty(),
{
}

/// Is there a difference for the signal?
pub open spec fn differs_in(diffs: Seq<DiffView>, s: usize) -> bool {
    exists|i: int| 0 <= i < diffs.len() && (#[trigger] diffs[i]).sid == s
}

/// Has the history an entry at or before either tick?
pub open spec fn begun_by(h: Seq<ChangeView>, ta: int, tb: int) -> bool {
    exists|i: int| 0 <= i < h.len() && ((#[trigger] h[i]).tick <= ta || h[i].tick <= tb)
}

proof fn lemma_diffs(w: WaveView, sids: Seq<usize>, ta: int, tb: int)
    requires
        forall|i: int, j: int| 0 <= i < j < sids.len() ==> (#[trigger] sids[i]) < (#[trigger] sids[j]),
        forall|i: int| 0 <= i < sids.len() ==> in_time_order(w.traces[#[trigger] sids[i] as int]),
    ensures
        forall|i: int|
            0 <= i < diffs_of(w, sids, ta, tb).len() ==> {
                let r = #[trigger] diffs_of(w, sids, ta, tb)[i];
                sids.contains(r.sid) && r.a == value_at(w.traces[r.sid as int], ta) && r.b
                    == value_at(w.traces[r.sid as int], tb) && apart(r.a, r.b)
            },
        forall|s: usize|
            #[trigger] sids.contains(s) && apart(
                value_at(w.traces[s as int], ta),
                value_at(w.traces[s as int], tb),
            ) ==> differs_in(diffs_of(w, sids, ta, tb), s),
        forall|i: int, j: int|
            0 <= i < j < diffs_of(w, sids, ta, tb).len() ==> (#[trigger] diffs_of(
                w,
                sids,
                ta,
                tb,
            )[i]).sid < (#[trigger] diffs_of(w, sids, ta, tb)[j]).sid,
        defined_count(w, sids, ta, tb) == sids.filter(
            |s: usize| begun_by(w.traces[s as int], ta, tb),
        ).len(),
    decreases sids.len(),
{
    reveal(Seq::filter);
    if sids.len() > 0 {
        let less = sids.drop_last();
        let x = sids.last();
        let h = w.traces[x as int];
        assert forall|i: int, j: int| 0 <= i < j < less.len() implies (#[trigger] less[i]) < (
        #[trigger] less[j]) by {
            assert(sids[i] < sids[j]);
        }
        assert forall|i: int| 0 <= i < less.len() implies in_time_order(
            w.traces[#[trigger] less[i] as int],
        ) by {
            assert(less[i] == sids[i]);
        }
        lemma_diffs(w, less, ta, tb);
        assert(sids[sids.len() - 1] == x);
        assert(in_time_order(h));
        upto_splits(h, ta);
        upto_splits(h, tb);
        assert(begun_by(h, ta, tb) == (value_at(h, ta) is Some || value_at(h, tb) is Some)) by {
            if value_at(h, ta) is Some {
                assert(h[upto(h, ta) - 1].tick <= ta);
            }
            if value_at(h, tb) is Some {
                assert(h[upto(h, tb) - 1].tick <= tb);
            }
        }
        let rest = diffs_of(w, less, ta, tb);
        let all = diffs_of(w, sids, ta, tb);
        assert forall|i: int| 0 <= i < all.len() implies {
            let r = #[trigger] all[i];
            sids.contains(r.sid) && r.a == value_at(w.traces[r.sid as int], ta) && r.b == value_at(
                w.traces[r.sid as int],
                tb,
            ) && apart(r.a, r.b)
        } by {
            if i < rest.len() {
                assert(all[i] == rest[i]);
                let k = choose|k: int| 0 <= k < less.len() && less[k] == rest[i].sid;
                assert(sids[k] == rest[i].sid);
            }
        }
        assert forall|s: usize| #[trigger]
            sids.contains(s) && apart(
                value_at(w.traces[s as int], ta),
                value_at(w.traces[s as int], tb),
            ) implies differs_in(all, s) by {
            if s == x {
                assert(all[all.len() - 1].sid == s);
            } else {
                let k = choose|k: int| 0 <= k < sids.len() && sids[k] == s;
                assert(less[k] == s);
                assert(less.contains(s));
                let i = choose|i: int| 0 <= i < rest.len() && (#[trigger] rest[i]).sid == s;
                assert(all[i] == rest[i]);
            }
        }
        assert forall|i: int, j: int| 0 <= i < j < all.len() implies (#[trigger] all[i]).sid < (
        #[trigger] all[j]).sid by {
            assert(all[i] == rest[i]);
            if j < rest.len() {
                assert(all[j] == rest[j]);
            } else {
                assert(less.contains(rest[i].sid));
                let k = choose|k: int| 0 <= k < less.len() && less[k] == rest[i].sid;
                assert(sids[k] < sids[sids.len() - 1]);
            }
        }
    }
}

/// What `compare` shows: a chosen signal is among the differences just when its
/// recorded texts at the two instants differ or it has a value at only one of
/// them; each difference carries the two values in force; and the count of
/// signals compared is that of the chosen ones with a value at either instant.
pub proof fn compare_shows_what_differs<T: Timescale>(
    w: WaveView,
    a: ArgsView,
    ts: &T,
    d: CompareView,
)
    requires
        histories_ok(w),
        compare_of(w, a, ts) == Ok::<CompareView, Seq<char>>(d),
    ensures
        choice_of(a) is Ok,
        d.ta <= d.tb,
        ({
            let sel = chosen(w.table, choice_of(a)->Ok_0);
            &&& forall|s: usize, x: Option<RawView>, y: Option<RawView>|
                sel.contains(s) && #[trigger] in_force(w.traces[s as int], d.ta, x)
                    && #[trigger] in_force(w.traces[s as int], d.tb, y) ==> (differs_in(d.diffs, s)
                    <==> apart(x, y))
            &&& forall|i: int|
                0 <= i < d.diffs.len() ==> sel.contains((#[trigger] d.diffs[i]).sid) && in_force(
                    w.traces[d.diffs[i].sid as int],
                    d.ta,
                    d.diffs[i].a,
                ) && in_force(w.traces[d.diffs[i].sid as int], d.tb, d.diffs[i].b)
            &&& forall|i: int, j: int|
                0 <= i < j < d.diffs.len() ==> (#[trigger] d.diffs[i]).sid < (
                #[trigger] d.diffs[j]).sid
            &&& d.selected == sel.len()
            &&& d.union_len == sel.filter(
                |s: usize| begun_by(w.traces[s as int], d.ta, d.tb),
            ).len()
        }),
{
    let sel = chosen(w.table, choice_of(a)->Ok_0);
    lemma_chosen_in_table(w.table, choice_of(a)->Ok_0);
    assert forall|i: int| 0 <= i < sel.len() implies in_time_order(
        w.traces[#[trigger] sel[i] as int],
    ) by {}
    lemma_diffs(w, sel, d.ta, d.tb);
    assert forall|s: usize, x: Option<RawView>, y: Option<RawView>|
        sel.contains(s) && #[trigger] in_force(w.traces[s as int], d.ta, x) && #[trigger] in_force(
            w.traces[s as int],
            d.tb,
            y,
        ) implies (differs_in(d.diffs, s) <==> apart(x, y)) by {
        let h = w.traces[s as int];
        let k = choose|k: int| 0 <= k < sel.len() && sel[k] == s;
        assert(in_time_order(w.traces[sel[k] as int]));
        value_at_is_in_force(h, d.ta);
        value_at_is_in_force(h, d.tb);
        one_value_in_force(h, d.ta, x, value_at(h, d.ta));
        one_value_in_force(h, d.tb, y, value_at(h, d.tb));
        if differs_in(d.diffs, s) {
            let i = choose|i: int| 0 <= i < d.diffs.len() && (#[trigger] d.diffs[i]).sid == s;
            assert(apart(d.diffs[i].a, d.diffs[i].b));
        }
    }
    assert forall|i: int| 0 <= i < d.diffs.len() implies sel.contains((#[trigger] d.diffs[i]).sid)
        && in_force(w.traces[d.diffs[i].sid as int], d.ta, d.diffs[i].a) && in_force(
        w.traces[d.diffs[i].sid as int],
        d.tb,
        d.diffs[i].b,
    ) by {
        let r = d.diffs[i];
        let k = choose|k: int| 0 <= k < sel.len() && sel[k] == r.sid;
        assert(in_time_order(w.traces[sel[k] as int]));
        value_at_is_in_force(w.traces[r.sid as int], d.ta);
        value_at_is_in_force(w.traces[r.sid as int], d.tb);
    }
}

/// The two instants of a comparison are those on either side of the comma.
pub proof fn compare_takes_two_times<T: Timescale>(
    w: WaveView,
    a: ArgsView,
    ts: &T,
    d: CompareView,
    x: Seq<char>,
    y: Seq<char>,
)
    requires
        compare_of(w, a, ts) == Ok::<CompareView, Seq<char>>(d),
        a.at == Some(x + seq![','] + y),
        !has_char(x, ','),
        !has_char(y, ','),
    ensures
        time_of(trimmed(x), ts) == Ok::<int, Seq<char>>(d.ta),
        time_of(trimmed(y), ts) == Ok::<int, Seq<char>>(d.tb),
{
    two_pieces(x, y, ',');
}

/// The order of two values does not matter to whether they differ.
pub proof fn differing_is_symmetric(a: Option<RawView>, b: Option<RawView>)
    ensures
        crate::compare::values_differ(a, b) == crate::compare::values_differ(b, a),
        crate::compare::values_differ(a, b) == apart(a, b),
{
}

// ---- summary ----

/// How often, among the first `n` entries, one that falls in the window takes
/// the bit `y` where the entry before it had the bit `x`.
pub open spec fn steps_between(
    h: Seq<ChangeView>,
    n: int,
    lo: int,
    hi: Option<int>,
    x: Seq<char>,
    y: Seq<char>,
) -> nat
    decreases n,
{
    if n < 2 {
        0
    } else {
        steps_between(h, n - 1, lo, hi, x, y) + (if between(h[n - 1].tick, lo, hi) && h[n - 2].value
            == RawView::Bits(x) && h[n - 1].value == RawView::Bits(y) {
            1nat
        } else {
            0nat
        })
    }
}

/// Is there a character among the bits that is neither `0` nor `1`, nor the
/// weak form of one?
pub open spec fn has_odd_bit(v: RawView) -> bool {
    match v {
        RawView::Bits(s) => exists|i: int|
            0 <= i < s.len() && (#[trigger] s[i]) != '0' && s[i] != '1' && s[i] != 'h' && s[i] != 'H'
                && s[i] != 'l' && s[i] != 'L',
        _ => false,
    }
}

/// Does entry `i` count for a window: does it fall in it, or is it the one in
/// force just before?
pub open spec fn counts_for(h: Seq<ChangeView>, lo: int, hi: Option<int>, i: int) -> bool {
    0 <= i < h.len() && (between(h[i].tick, lo, hi) || last_by(h, lo - 1, i))
}

/// What a summary says of a signal, the window taken to begin at `lo`: the
/// changes are the entries in the window, the initial value is the one in force
/// just before it, and so on.
pub open spec fn sums_up(r: StatsView, h: Seq<ChangeView>, lo: int, hi: Option<int>) -> bool {
    let e = entries_between(h, lo, hi);
    &&& r.changes == e.len()
    &&& r.first_at == (if e.len() > 0 {
        Some(e[0].tick)
    } else {
        None
    })
    &&& r.last_at == (if e.len() > 0 {
        Some(e.last().tick)
    } else {
        None
    })
    &&& in_force(h, lo - 1, r.initial)
    &&& r.last == (if e.len() > 0 {
        Some(e.last().value)
    } else {
        r.initial
    })
    &&& r.rises == steps_between(h, h.len() as int, lo, hi, "0"@, "1"@)
    &&& r.falls == steps_between(h, h.len() as int, lo, hi, "1"@, "0"@)
    &&& r.unknown <==> exists|i: int| #[trigger] counts_for(h, lo, hi, i) && has_odd_bit(h[i].value)
    &&& r.first_at matches Some(f) ==> between(f, lo, hi)
    &&& r.last_at matches Some(l) ==> between(l, lo, hi)
}

/// A summary of a window that begins behind tick zero sums up just what lies in
/// the window.
pub proof fn summary_counts_the_window(sid: usize, h: Seq<ChangeView>, t0: int, t1: Option<int>)
    requires
        in_time_order(h),
        t0 > 0,
        t1 matches Some(t) ==> t0 <= t,
    ensures
        stats_of(sid, h, t0, t1).sid == sid,
        sums_up(stats_of(sid, h, t0, t1), h, t0, t1),
{
    lemma_sums_up(sid, h, t0, t1, t0);
}

/// In a window from tick zero the value at tick zero is the initial one, and
/// what comes later are changes.
pub proof fn summary_from_zero(sid: usize, h: Seq<ChangeView>, t1: Option<int>)
    requires
        in_time_order(h),
        t1 matches Some(t) ==> 0 <= t,
    ensures
        stats_of(sid, h, 0, t1).sid == sid,
        sums_up(stats_of(sid, h, 0, t1), h, 1, t1),
{
    lemma_sums_up(sid, h, 0, t1, 1);
}

/// The part of a history that counts for a window: it begins at the entry in
/// force before the window, and the window's own entries begin at `a`.
spec fn is_part(
    h: Seq<ChangeView>,
    lo: int,
    hi: Option<int>,
    from: int,
    a: int,
    b: int,
) -> bool {
    &&& 0 <= from <= a <= b <= h.len()
    &&& from == (if a > 0 {
        a - 1
    } else {
        0
    })
    &&& forall|i: int| 0 <= i < a ==> (#[trigger] h[i]).tick < lo
    &&& forall|i: int| a <= i < b ==> between((#[trigger] h[i]).tick, lo, hi)
    &&& forall|i: int| b <= i < h.len() ==> !between((#[trigger] h[i]).tick, lo, hi)
    &&& forall|i: int| a <= i < h.len() ==> (#[trigger] h[i]).tick >= lo
}

proof fn lemma_find_part(h: Seq<ChangeView>, lo: int, hi: Option<int>) -> (r: (int, int, int))
    requires
        in_time_order(h),
        hi matches Some(t) ==> lo - 1 <= t,
    ensures
        is_part(h, lo, hi, r.0, r.1, r.2),
        changes_in(h, lo, hi) == h.subrange(r.1, r.2),
        opt_list(value_at(h, lo - 1)) + changes_in(h, lo, hi).map_values(|x: ChangeView| x.value)
            == h.subrange(r.0, r.2).map_values(|x: ChangeView| x.value),
{
    upto_splits(h, lo - 1);
    let a = upto(h, lo - 1);
    let b = match hi {
        Some(t) => {
            upto_splits(h, t);
            upto(h, t)
        },
        None => h.len() as int,
    };
    assert(a <= b) by {
        if a > b {
            assert(h[b].tick <= lo - 1);
        }
    }
    let from = if a > 0 {
        a - 1
    } else {
        0
    };
    let c = changes_in(h, lo, hi);
    assert(c =~= h.subrange(a, b));
    assert(opt_list(value_at(h, lo - 1)) + c.map_values(|x: ChangeView| x.value) =~= h.subrange(
        from,
        b,
    ).map_values(|x: ChangeView| x.value));
    (from, a, b)
}

proof fn lemma_counting(
    h: Seq<ChangeView>,
    lo: int,
    hi: Option<int>,
    from: int,
    a: int,
    b: int,
    i: int,
)
    requires
        is_part(h, lo, hi, from, a, b),
    ensures
        counts_for(h, lo, hi, i) == (from <= i < b),
{
    if from <= i < b {
        if i < a {
            assert(last_by(h, lo - 1, i));
        }
    }
    if counts_for(h, lo, hi, i) {
        if last_by(h, lo - 1, i) {
            if i < a - 1 {
                assert(h[a - 1].tick > lo - 1);
                assert(h[a - 1].tick < lo);
            }
            if i >= a {
                assert(h[i].tick >= lo);
            }
        } else {
            if i < a {
                assert(h[i].tick < lo);
            }
            if i >= b {
                assert(!between(h[i].tick, lo, hi));
            }
        }
    }
}

proof fn lemma_sums_up(sid: usize, h: Seq<ChangeView>, t0: int, t1: Option<int>, lo: int)
    requires
        in_time_order(h),
        t1 matches Some(t) ==> t0 <= t,
        t0 == 0 ==> lo == 1,
        t0 != 0 ==> t0 > 0 && lo == t0,
    ensures
        sums_up(stats_of(sid, h, t0, t1), h, lo, t1),
{
    let r = stats_of(sid, h, t0, t1);
    assert(initial_tick(t0) == lo - 1);
    assert(initial_tick(t0) + 1 == lo);
    changes_are_the_entries(h, lo, t1);
    value_at_is_in_force(h, lo - 1);
    lemma_part(h, lo, t1);
    let (from, a, b) = lemma_find_part(h, lo, t1);
    let vals = h.subrange(from, b).map_values(|x: ChangeView| x.value);
    assert(r.rises == flips(vals, "0"@, "1"@));
    assert(r.falls == flips(vals, "1"@, "0"@));
    assert(r.unknown == exists|i: int| 0 <= i < vals.len() && unknown_in(#[trigger] vals[i]));
    lemma_steps(h, from, a, b, lo, t1, "0"@, "1"@);
    lemma_steps(h, from, a, b, lo, t1, "1"@, "0"@);
    lemma_unknown(h, from, a, b, lo, t1);
}

proof fn lemma_steps(
    h: Seq<ChangeView>,
    from: int,
    a: int,
    b: int,
    lo: int,
    hi: Option<int>,
    x: Seq<char>,
    y: Seq<char>,
)
    requires
        is_part(h, lo, hi, from, a, b),
    ensures
        steps_between(h, h.len() as int, lo, hi, x, y) == flips(
            h.subrange(from, b).map_values(|c: ChangeView| c.value),
            x,
            y,
        ),
{
    let vals = h.subrange(from, b).map_values(|c: ChangeView| c.value);
    lemma_flips(h, from, a, b, h.len() as int, lo, hi, x, y);
    assert(vals.take(b - from) =~= vals);
}

proof fn lemma_unknown(h: Seq<ChangeView>, from: int, a: int, b: int, lo: int, hi: Option<int>)
    requires
        is_part(h, lo, hi, from, a, b),
    ensures
        ({
            let vals = h.subrange(from, b).map_values(|c: ChangeView| c.value);
            (exists|i: int| 0 <= i < vals.len() && unknown_in(#[trigger] vals[i])) == (exists|i: int|
                #[trigger] counts_for(h, lo, hi, i) && has_odd_bit(h[i].value))
        }),
{
    let vals = h.subrange(from, b).map_values(|c: ChangeView| c.value);
    if exists|i: int| 0 <= i < vals.len() && unknown_in(#[trigger] vals[i]) {
        let k = choose|k: int| 0 <= k < vals.len() && unknown_in(#[trigger] vals[k]);
        lemma_odd_bit(vals[k]);
        lemma_counting(h, lo, hi, from, a, b, from + k);
        assert(counts_for(h, lo, hi, from + k) && has_odd_bit(h[from + k].value));
    }
    if exists|i: int| #[trigger] counts_for(h, lo, hi, i) && has_odd_bit(h[i].value) {
        let i = choose|i: int| #[trigger] counts_for(h, lo, hi, i) && has_odd_bit(h[i].value);
        lemma_counting(h, lo, hi, from, a, b, i);
        lemma_odd_bit(h[i].value);
        assert(unknown_in(vals[i - from]));
    }
}

proof fn lemma_odd_bit(v: RawView)
    ensures
        unknown_in(v) == has_odd_bit(v),
{
    match v {
        RawView::Bits(s) => {
            let f = four_states(s);
            assert forall|i: int| 0 <= i < s.len() implies (#[trigger] f[i] == 'x' || f[i] == 'z')
                == (s[i] != '0' && s[i] != '1' && s[i] != 'h' && s[i] != 'H' && s[i] != 'l' && s[i]
                != 'L') by {
                let c = s[i];
                assert(f[i] == four_state(c));
                if 'A' <= c && c <= 'Z' {
                    assert(crate::text::ascii_lower(c) as int == c as int + 32);
                }
            }
            if unknown_in(v) {
                let i = if has_char(f, 'x') {
                    choose|i: int| 0 <= i < f.len() && f[i] == 'x'
                } else {
                    choose|i: int| 0 <= i < f.len() && f[i] == 'z'
                };
                assert(f[i] == 'x' || f[i] == 'z');
                assert(s[i] != '0');
            }
            if has_odd_bit(v) {
                let i = choose|i: int|
                    0 <= i < s.len() && (#[trigger] s[i]) != '0' && s[i] != '1' && s[i] != 'h'
                        && s[i] != 'H' && s[i] != 'l' && s[i] != 'L';
                assert(f[i] == 'x' || f[i] == 'z');
            }
        },
        _ => {},
    }
}

proof fn lemma_flips(
    h: Seq<ChangeView>,
    from: int,
    a: int,
    b: int,
    n: int,
    lo: int,
    hi: Option<int>,
    x: Seq<char>,
    y: Seq<char>,
)
    requires
        0 <= from <= a <= b <= h.len(),
        from == (if a > 0 {
            a - 1
        } else {
            0
        }),
        0 <= n <= h.len(),
        forall|i: int| 0 <= i < a ==> (#[trigger] h[i]).tick < lo,
        forall|i: int| a <= i < b ==> between((#[trigger] h[i]).tick, lo, hi),
        forall|i: int| b <= i < h.len() ==> !between((#[trigger] h[i]).tick, lo, hi),
    ensures
        ({
            let vals = h.subrange(from, b).map_values(|c: ChangeView| c.value);
            let m = if n <= from {
                0
            } else if n <= b {
                n - from
            } else {
                b - from
            };
            steps_between(h, n, lo, hi, x, y) == flips(vals.take(m), x, y)
        }),
    decreases n,
{
    let vals = h.subrange(from, b).map_values(|c: ChangeView| c.value);
    if n >= 2 {
        lemma_flips(h, from, a, b, n - 1, lo, hi, x, y);
        let m = if n <= from {
            0
        } else if n <= b {
            n - from
        } else {
            b - from
        };
        if from < n <= b {
            let part = vals.take(m);
            assert(part.drop_last() =~= vals.take(m - 1));
            if m >= 2 {
                assert(part.last() == h[n - 1].value);
                assert(part[m - 2] == h[n - 2].value);
                assert(n - 1 >= a);
                assert(between(h[n - 1].tick, lo, hi));
            } else {
                assert(n - 1 == from);
                assert(n - 1 < a || a == 0);
                if a == 0 {
                    assert(n == 1);
                }
            }
        } else if n > b {
            assert(!between(h[n - 1].tick, lo, hi));
            if n - 1 < b {
                assert(n - 1 == b);
            }
            assert(n - 1 >= b);
        } else {
            assert(h[n - 1].tick < lo);
        }
    } else {
        let m = if n <= from {
            0
        } else if n <= b {
            n - from
        } else {
            b - from
        };
        assert(vals.take(m).len() < 2);
    }
}

/// The number of different values is the number of texts among those that count
/// for the window, for a signal that is no event variable.
pub proof fn unique_counts_texts(
    sid: usize,
    h: Seq<ChangeView>,
    t0: int,
    t1: Option<int>,
    u: Seq<Seq<char>>,
)
    requires
        in_time_order(h),
        t0 > 0,
        t1 matches Some(t) ==> t0 <= t,
        forall|i: int| 0 <= i < h.len() ==> !((#[trigger] h[i]).value is Event),
        u.no_duplicates(),
        forall|k: Seq<char>| #[trigger]
            u.contains(k) <==> exists|i: int|
                #[trigger] counts_for(h, t0, t1, i) && raw_text(h[i].value) == k,
    ensures
        stats_of(sid, h, t0, t1).unique == u.len(),
{
    let (from, a, b) = lemma_find_part(h, t0, t1);
    assert(initial_tick(t0) + 1 == t0);
    let vals = h.subrange(from, b).map_values(|x: ChangeView| x.value);
    let keys = vals.map_values(|v: RawView| value_key(v));
    assert(stats_of(sid, h, t0, t1).unique == keys.to_set().len());
    assert forall|k: Seq<char>| keys.to_set().contains(k) == u.to_set().contains(k) by {
        if keys.contains(k) {
            let j = choose|j: int| 0 <= j < keys.len() && keys[j] == k;
            lemma_counting(h, t0, t1, from, a, b, from + j);
            assert(vals[j] == h[from + j].value);
            assert(counts_for(h, t0, t1, from + j) && raw_text(h[from + j].value) == k);
        }
        if u.contains(k) {
            let i = choose|i: int| #[trigger] counts_for(h, t0, t1, i) && raw_text(h[i].value) == k;
            lemma_counting(h, t0, t1, from, a, b, i);
            assert(vals[i - from] == h[i].value);
            assert(keys[i - from] == k);
        }
    }
    assert(keys.to_set() =~= u.to_set());
    u.unique_seq_to_set();
}

/// Where a signal stands in a summary: in front if it changes in the window,
/// then if it has a value, last if it has none.
pub open spec fn group_of(r: StatsView) -> int {
    if r.changes > 0 {
        0
    } else if r.initial is Some {
        1
    } else {
        2
    }
}

/// Is there a row for the signal?
pub open spec fn summed_in(rows: Seq<StatsView>, s: usize) -> bool {
    exists|i: int| 0 <= i < rows.len() && (#[trigger] rows[i]).sid == s
}

proof fn lemma_of_kind(all: Seq<StatsView>, k: RowKind)
    requires
        forall|i: int, j: int|
            0 <= i < j < all.len() ==> (#[trigger] all[i]).sid < (#[trigger] all[j]).sid,
    ensures
        forall|i: int|
            0 <= i < of_kind(all, k).len() ==> all.contains(#[trigger] of_kind(all, k)[i])
                && kind_of(of_kind(all, k)[i]) == k,
        forall|i: int|
            0 <= i < all.len() && kind_of(#[trigger] all[i]) == k ==> of_kind(all, k).contains(
                all[i],
            ),
        forall|i: int, j: int|
            0 <= i < j < of_kind(all, k).len() ==> (#[trigger] of_kind(all, k)[i]).sid < (
            #[trigger] of_kind(all, k)[j]).sid,
    decreases all.len(),
{
    if all.len() > 0 {
        let less = all.drop_last();
        let x = all.last();
        assert forall|i: int, j: int| 0 <= i < j < less.len() implies (#[trigger] less[i]).sid < (
        #[trigger] less[j]).sid by {
            assert(all[i].sid < all[j].sid);
        }
        lemma_of_kind(less, k);
        let rest = of_kind(less, k);
        let r = of_kind(all, k);
        assert(all[all.len() - 1] == x);
        assert forall|i: int| 0 <= i < r.len() implies all.contains(#[trigger] r[i]) && kind_of(
            r[i],
        ) == k by {
            if i < rest.len() {
                assert(r[i] == rest[i]);
                let m = choose|m: int| 0 <= m < less.len() && less[m] == rest[i];
                assert(all[m] == rest[i]);
            }
        }
        assert forall|i: int| 0 <= i < all.len() && kind_of(#[trigger] all[i]) == k implies r.contains(
            all[i],
        ) by {
            if i < less.len() {
                assert(less[i] == all[i]);
                let m = choose|m: int| 0 <= m < rest.len() && rest[m] == all[i];
                assert(r[m] == all[i]);
            } else {
                assert(r[r.len() - 1] == x);
            }
        }
        assert forall|i: int, j: int| 0 <= i < j < r.len() implies (#[trigger] r[i]).sid < (
        #[trigger] r[j]).sid by {
            assert(r[i] == rest[i]);
            if j < rest.len() {
                assert(r[j] == rest[j]);
            } else {
                let m = choose|m: int| 0 <= m < less.len() && less[m] == rest[i];
                assert(all[m].sid < all[all.len() - 1].sid);
            }
        }
    }
}

/// What `summary` shows: the window is the one asked for; each row sums up a
/// chosen signal over it; there is a row for every chosen signal with a value
/// (in a verbose summary for every chosen one); those that change come first,
/// those without a value last, each group in the order of the table; and the
/// counts are those of the groups.
pub proof fn summary_shows_the_chosen<T: Timescale>(
    w: WaveView,
    a: ArgsView,
    ts: &T,
    d: SummaryView,
)
    requires
        histories_ok(w),
        summary_of(w, a, ts) == Ok::<SummaryView, Seq<char>>(d),
    ensures
        window_asked(a, ts, d.t0, d.t1),
        choice_of(a) is Ok,
        ({
            let sel = chosen(w.table, choice_of(a)->Ok_0);
            &&& forall|i: int|
                0 <= i < d.rows.len() ==> sel.contains((#[trigger] d.rows[i]).sid) && d.rows[i]
                    == stats_of(d.rows[i].sid, w.traces[d.rows[i].sid as int], d.t0, d.t1)
            &&& forall|s: usize|
                #[trigger] sel.contains(s) && (a.verbose || group_of(
                    stats_of(s, w.traces[s as int], d.t0, d.t1),
                ) < 2) ==> summed_in(d.rows, s)
            &&& !a.verbose ==> forall|i: int|
                0 <= i < d.rows.len() ==> group_of(#[trigger] d.rows[i]) < 2
            &&& forall|i: int, j: int|
                0 <= i < j < d.rows.len() ==> group_of(#[trigger] d.rows[i]) < group_of(
                    #[trigger] d.rows[j],
                ) || (group_of(d.rows[i]) == group_of(d.rows[j]) && d.rows[i].sid < d.rows[j].sid)
            &&& d.selected == sel.len()
            &&& d.active + d.static_ + d.undefined == d.selected
            &&& forall|i: int|
                0 <= i < d.rows.len() ==> (group_of(#[trigger] d.rows[i]) == 0 <==> i < d.active)
                    && (group_of(d.rows[i]) == 2 <==> i >= d.active + d.static_)
            &&& d.rows.len() == d.active + d.static_ + (if a.verbose {
                d.undefined
            } else {
                0
            })
        }),
{
    let sel = chosen(w.table, choice_of(a)->Ok_0);
    lemma_chosen_in_table(w.table, choice_of(a)->Ok_0);
    let all = all_stats(w, sel, d.t0, d.t1);
    assert forall|i: int, j: int| 0 <= i < j < all.len() implies (#[trigger] all[i]).sid < (
    #[trigger] all[j]).sid by {
        assert(sel[i] < sel[j]);
    }
    crate::summary::kinds_partition_signals(all);
    lemma_of_kind(all, RowKind::Active);
    lemma_of_kind(all, RowKind::Static);
    lemma_of_kind(all, RowKind::Undefined);
    let x = of_kind(all, RowKind::Active);
    let y = of_kind(all, RowKind::Static);
    let z = of_kind(all, RowKind::Undefined);
    let rows = d.rows;
    assert forall|i: int| 0 <= i < rows.len() implies #[trigger] rows[i] == (if i < x.len() {
        x[i]
    } else if i < x.len() + y.len() {
        y[i - x.len()]
    } else {
        z[i - x.len() - y.len()]
    }) by {}
    assert forall|i: int| 0 <= i < rows.len() implies all.contains(#[trigger] rows[i]) && (
    group_of(rows[i]) == (if i < x.len() {
        0int
    } else if i < x.len() + y.len() {
        1int
    } else {
        2int
    })) by {}
    assert forall|i: int| 0 <= i < rows.len() implies sel.contains((#[trigger] rows[i]).sid)
        && rows[i] == stats_of(rows[i].sid, w.traces[rows[i].sid as int], d.t0, d.t1) by {
        let k = choose|k: int| 0 <= k < all.len() && all[k] == rows[i];
        assert(all[k] == stats_of(sel[k], w.traces[sel[k] as int], d.t0, d.t1));
    }
    assert forall|s: usize| #[trigger]
        sel.contains(s) && (a.verbose || group_of(stats_of(s, w.traces[s as int], d.t0, d.t1))
            < 2) implies summed_in(rows, s) by {
        let k = choose|k: int| 0 <= k < sel.len() && sel[k] == s;
        let r = all[k];
        assert(r == stats_of(s, w.traces[s as int], d.t0, d.t1));
        if kind_of(r) == RowKind::Active {
            let m = choose|m: int| 0 <= m < x.len() && x[m] == r;
            assert(rows[m] == r);
        } else if kind_of(r) == RowKind::Static {
            let m = choose|m: int| 0 <= m < y.len() && y[m] == r;
            assert(rows[x.len() + m] == r);
        } else {
            let m = choose|m: int| 0 <= m < z.len() && z[m] == r;
            assert(rows[x.len() + y.len() + m] == r);
        }
    }
}

// ---- the order of events ----

/// The events of a window come in the order of their ticks; those of one tick
/// in the order in which their signals are declared.
pub proof fn events_come_as_declared(w: WaveView, sids: Seq<usize>, t0: int, t1: Option<int>)
    requires
        histories_ok(w),
        sids.no_duplicates(),
        forall|i: int| 0 <= i < sids.len() ==> (#[trigger] sids[i]) < w.table.len(),
    ensures
        ({
            let ev = window_events(w, sids, t0, t1);
            forall|i: int, j: int|
                0 <= i < j < ev.len() ==> (#[trigger] ev[i]).tick < (#[trigger] ev[j]).tick || (
                ev[i].tick == ev[j].tick && w.table[ev[i].sid as int].decl_order
                    <= w.table[ev[j].sid as int].decl_order)
        }),
{
    let ev = window_events(w, sids, t0, t1);
    let decls = decl_orders(w.table);
    let lists = event_lists(seen_of(w, sids), decls, t0, t1);
    let p = |e: EventView| e.sid < w.table.len() && e.decl == w.table[e.sid as int].decl_order;
    window_events_are_the_entries(w, sids, t0, t1);
    assert forall|k: int, i: int| 0 <= k < lists.len() && 0 <= i < lists[k].len() implies p(
        #[trigger] lists[k][i],
    ) by {
        let s = sids[k];
        assert(seen_of(w, sids)[k] == (s, w.traces[s as int]));
        assert(lists[k] == signal_events(
            s as nat,
            decl_at(decls, s),
            w.traces[s as int],
            t0,
            t1,
        ));
        assert(decls[s as int] == w.table[s as int].decl_order);
    }
    lemma_replay_keeps(lists, p);
    assert forall|i: int, j: int| 0 <= i < j < ev.len() implies (#[trigger] ev[i]).tick < (
    #[trigger] ev[j]).tick || (ev[i].tick == ev[j].tick && w.table[ev[i].sid as int].decl_order
        <= w.table[ev[j].sid as int].decl_order) by {
        assert(p(ev[i]) && p(ev[j]));
        assert(no_later(ev[i], ev[j]));
    }
}

} // verus!
