//! Replaying changes of several signals in time order.

use vstd::prelude::*;

use crate::history::{changes_in, ChangeView, RawValue, RawView, SignalTrace};

verus! {

/// One value change with the signal it belongs to.
#[derive(Debug)]
pub struct DumpEvent {
    pub tick: i64,
    pub sid: usize,
    /// The position of the signal's first declaration; orders events of one
    /// tick.
    pub decl_order: usize,
    pub value: RawValue,
}

pub struct EventView {
    pub tick: int,
    pub sid: nat,
    pub decl: nat,
    pub value: RawView,
}

impl View for DumpEvent {
    type V = EventView;

    open spec fn view(&self) -> EventView {
        EventView {
            tick: self.tick as int,
            sid: self.sid as nat,
            decl: self.decl_order as nat,
            value: self.value@,
        }
    }
}

pub open spec fn event_views(v: Seq<DumpEvent>) -> Seq<EventView> {
    v.map_values(|e: DumpEvent| e@)
}

/// Does `a` come no later than `b`? Events go by tick, and within one tick by
/// declaration order.
pub open spec fn no_later(a: EventView, b: EventView) -> bool {
    a.tick < b.tick || (a.tick == b.tick && a.decl <= b.decl)
}

/// Are the events in replay order?
pub open spec fn in_replay_order(s: Seq<EventView>) -> bool {
    forall|i: int, j: int| 0 <= i <= j < s.len() ==> no_later(#[trigger] s[i], #[trigger] s[j])
}

/// Two event lists merged into one; of two events with equal places the one
/// from `a` comes first.
pub open spec fn merged(a: Seq<EventView>, b: Seq<EventView>) -> Seq<EventView>
    decreases a.len() + b.len(),
{
    if a.len() == 0 {
        b
    } else if b.len() == 0 {
        a
    } else if no_later(a[0], b[0]) {
        seq![a[0]] + merged(a.drop_first(), b)
    } else {
        seq![b[0]] + merged(a, b.drop_first())
    }
}

/// Several event lists merged into one.
pub open spec fn replay(lists: Seq<Seq<EventView>>) -> Seq<EventView>
    decreases lists.len(),
{
    if lists.len() == 0 {
        Seq::empty()
    } else {
        merged(replay(lists.drop_last()), lists.last())
    }
}

/// The changes of one signal from `lo` to `hi` as events.
pub open spec fn signal_events(
    sid: nat,
    decl: nat,
    h: Seq<ChangeView>,
    lo: int,
    hi: Option<int>,
) -> Seq<EventView> {
    changes_in(h, lo, hi).map_values(
        |c: ChangeView| EventView { tick: c.tick, sid, decl, value: c.value },
    )
}

/// Are the events of the first `n` signals?
pub open spec fn events_in(events: Seq<EventView>, n: nat) -> bool {
    forall|i: int| 0 <= i < events.len() ==> (#[trigger] events[i]).sid < n
}

proof fn lemma_merge_in(a: Seq<EventView>, b: Seq<EventView>, n: nat)
    requires
        events_in(a, n),
        events_in(b, n),
    ensures
        events_in(merged(a, b), n),
    decreases a.len() + b.len(),
{
    if a.len() == 0 || b.len() == 0 {
    } else if no_later(a[0], b[0]) {
        let a1 = a.drop_first();
        assert forall|i: int| 0 <= i < a1.len() implies (#[trigger] a1[i]).sid < n by {
            assert(a1[i] == a[i + 1]);
        }
        lemma_merge_in(a1, b, n);
        let m = merged(a, b);
        assert forall|i: int| 0 <= i < m.len() implies (#[trigger] m[i]).sid < n by {
            if i == 0 {
                assert(m[0] == a[0]);
            } else {
                assert(m[i] == merged(a1, b)[i - 1]);
            }
        }
    } else {
        let b1 = b.drop_first();
        assert forall|i: int| 0 <= i < b1.len() implies (#[trigger] b1[i]).sid < n by {
            assert(b1[i] == b[i + 1]);
        }
        lemma_merge_in(a, b1, n);
        let m = merged(a, b);
        assert forall|i: int| 0 <= i < m.len() implies (#[trigger] m[i]).sid < n by {
            if i == 0 {
                assert(m[0] == b[0]);
            } else {
                assert(m[i] == merged(a, b1)[i - 1]);
            }
        }
    }
}

/// A replay adds no signals.
pub proof fn replay_keeps_signals(lists: Seq<Seq<EventView>>, n: nat)
    requires
        forall|i: int| 0 <= i < lists.len() ==> events_in(#[trigger] lists[i], n),
    ensures
        events_in(replay(lists), n),
    decreases lists.len(),
{
    if lists.len() > 0 {
        let less = lists.drop_last();
        assert forall|i: int| 0 <= i < less.len() implies events_in(#[trigger] less[i], n) by {
            assert(events_in(lists[i], n));
        }
        replay_keeps_signals(less, n);
        assert(events_in(lists[lists.len() - 1], n));
        lemma_merge_in(replay(less), lists.last(), n);
    }
}

/// Merging is associative.
pub proof fn merge_is_associative(a: Seq<EventView>, b: Seq<EventView>, c: Seq<EventView>)
    ensures
        merged(merged(a, b), c) == merged(a, merged(b, c)),
    decreases a.len() + b.len() + c.len(),
{
    if a.len() == 0 || b.len() == 0 || c.len() == 0 {
    } else {
        let ab = merged(a, b);
        let bc = merged(b, c);
        if no_later(a[0], b[0]) {
            assert(ab[0] == a[0]);
            assert(ab.drop_first() =~= merged(a.drop_first(), b));
            if no_later(a[0], c[0]) {
                merge_is_associative(a.drop_first(), b, c);
                assert(no_later(a[0], bc[0]));
            } else {
                merge_is_associative(a, b, c.drop_first());
                assert(!no_later(b[0], c[0]));
                assert(bc[0] == c[0]);
                assert(bc.drop_first() =~= merged(b, c.drop_first()));
            }
        } else {
            assert(ab[0] == b[0]);
            assert(ab.drop_first() =~= merged(a, b.drop_first()));
            if no_later(b[0], c[0]) {
                merge_is_associative(a, b.drop_first(), c);
                assert(bc[0] == b[0]);
                assert(bc.drop_first() =~= merged(b.drop_first(), c));
            } else {
                merge_is_associative(a, b, c.drop_first());
                assert(bc[0] == c[0]);
                assert(bc.drop_first() =~= merged(b, c.drop_first()));
            }
        }
    }
}

/// A replay of two groups of lists is the merge of the two replays.
pub proof fn replay_splits(a: Seq<Seq<EventView>>, b: Seq<Seq<EventView>>)
    ensures
        replay(a + b) == merged(replay(a), replay(b)),
    decreases b.len(),
{
    if b.len() == 0 {
        assert(a + b =~= a);
        lemma_merge_empty(replay(a));
    } else {
        assert((a + b).drop_last() =~= a + b.drop_last());
        assert((a + b).last() == b.last());
        replay_splits(a, b.drop_last());
        merge_is_associative(replay(a), replay(b.drop_last()), b.last());
    }
}

proof fn lemma_merge_empty(a: Seq<EventView>)
    ensures
        merged(a, Seq::empty()) == a,
        merged(Seq::empty(), a) == a,
{
    if a.len() == 0 {
        assert(a =~= Seq::empty());
    }
}

/// Merging keeps every event: the merge holds the events of both lists.
pub proof fn merge_keeps_events(a: Seq<EventView>, b: Seq<EventView>)
    ensures
        merged(a, b).to_multiset() =~= a.to_multiset().add(b.to_multiset()),
        merged(a, b).len() == a.len() + b.len(),
    decreases a.len() + b.len(),
{
    broadcast use vstd::seq_lib::group_to_multiset_ensures;

    if a.len() == 0 {
        assert(a =~= Seq::empty());
    } else if b.len() == 0 {
        assert(b =~= Seq::empty());
    } else if no_later(a[0], b[0]) {
        merge_keeps_events(a.drop_first(), b);
        vstd::seq_lib::lemma_multiset_commutative(seq![a[0]], a.drop_first());
        vstd::seq_lib::lemma_multiset_commutative(seq![a[0]], merged(a.drop_first(), b));
        assert(a =~= seq![a[0]] + a.drop_first());
    } else {
        merge_keeps_events(a, b.drop_first());
        vstd::seq_lib::lemma_multiset_commutative(seq![b[0]], b.drop_first());
        vstd::seq_lib::lemma_multiset_commutative(seq![b[0]], merged(a, b.drop_first()));
        assert(b =~= seq![b[0]] + b.drop_first());
    }
}

proof fn lemma_front_first(s: Seq<EventView>, x: EventView)
    requires
        in_replay_order(s),
        s.len() > 0 ==> no_later(x, s[0]),
    ensures
        in_replay_order(seq![x] + s),
{
    let t = seq![x] + s;
    assert forall|i: int, j: int| 0 <= i <= j < t.len() implies no_later(
        #[trigger] t[i],
        #[trigger] t[j],
    ) by {
        if i > 0 {
            assert(t[i] == s[i - 1] && t[j] == s[j - 1]);
        } else if j > 0 {
            assert(t[j] == s[j - 1]);
            assert(no_later(s[0], s[j - 1]));
        }
    }
}

/// Merging two ordered lists gives an ordered list.
pub proof fn merge_keeps_order(a: Seq<EventView>, b: Seq<EventView>)
    requires
        in_replay_order(a),
        in_replay_order(b),
    ensures
        in_replay_order(merged(a, b)),
    decreases a.len() + b.len(),
{
    if a.len() == 0 || b.len() == 0 {
    } else if no_later(a[0], b[0]) {
        let a1 = a.drop_first();
        assert forall|i: int, j: int| 0 <= i <= j < a1.len() implies no_later(
            #[trigger] a1[i],
            #[trigger] a1[j],
        ) by {
            assert(no_later(a[i + 1], a[j + 1]));
        }
        merge_keeps_order(a1, b);
        if a1.len() > 0 {
            assert(no_later(a[0], a[1]));
        }
        lemma_front_first(merged(a1, b), a[0]);
    } else {
        let b1 = b.drop_first();
        assert forall|i: int, j: int| 0 <= i <= j < b1.len() implies no_later(
            #[trigger] b1[i],
            #[trigger] b1[j],
        ) by {
            assert(no_later(b[i + 1], b[j + 1]));
        }
        merge_keeps_order(a, b1);
        if b1.len() > 0 {
            assert(no_later(b[0], b[1]));
        }
        lemma_front_first(merged(a, b1), b[0]);
    }
}

/// A replay of ordered lists is in replay order: by tick, and within one tick
/// by declaration order.
pub proof fn replay_is_ordered(lists: Seq<Seq<EventView>>)
    requires
        forall|i: int| 0 <= i < lists.len() ==> in_replay_order(#[trigger] lists[i]),
    ensures
        in_replay_order(replay(lists)),
    decreases lists.len(),
{
    if lists.len() > 0 {
        let less = lists.drop_last();
        assert forall|i: int| 0 <= i < less.len() implies in_replay_order(#[trigger] less[i]) by {
            assert(in_replay_order(lists[i]));
        }
        replay_is_ordered(less);
        assert(in_replay_order(lists[lists.len() - 1]));
        merge_keeps_order(replay(less), lists.last());
    }
}

/// The first `n` events of a merge come from the first `n` of each list.
pub proof fn merge_of_prefixes(a: Seq<EventView>, b: Seq<EventView>, m: int, n: int)
    requires
        0 <= n <= m,
    ensures
        merged(prefix(a, m), b).take(least(n, merged(prefix(a, m), b).len() as int)) == merged(
            a,
            b,
        ).take(least(n, merged(a, b).len() as int)),
    decreases n,
{
    merge_keeps_events(a, b);
    merge_keeps_events(prefix(a, m), b);
    let p = prefix(a, m);
    let x = merged(p, b);
    let y = merged(a, b);
    if n == 0 {
        assert(x.take(0) =~= y.take(0));
    } else if a.len() == 0 {
        assert(p =~= a);
    } else {
        assert(p[0] == a[0]);
        assert(p.drop_first() =~= prefix(a.drop_first(), m - 1));
        if b.len() == 0 {
            assert(x.take(least(n, x.len() as int)) =~= y.take(least(n, y.len() as int)));
        } else if no_later(a[0], b[0]) {
            merge_of_prefixes(a.drop_first(), b, m - 1, n - 1);
            let x1 = merged(p.drop_first(), b);
            let y1 = merged(a.drop_first(), b);
            assert(x.take(least(n, x.len() as int)) =~= seq![a[0]] + x1.take(
                least(n - 1, x1.len() as int),
            ));
            assert(y.take(least(n, y.len() as int)) =~= seq![a[0]] + y1.take(
                least(n - 1, y1.len() as int),
            ));
        } else {
            merge_of_prefixes(a, b.drop_first(), m, n - 1);
            let x1 = merged(p, b.drop_first());
            let y1 = merged(a, b.drop_first());
            assert(x.take(least(n, x.len() as int)) =~= seq![b[0]] + x1.take(
                least(n - 1, x1.len() as int),
            ));
            assert(y.take(least(n, y.len() as int)) =~= seq![b[0]] + y1.take(
                least(n - 1, y1.len() as int),
            ));
        }
    }
}

pub open spec fn least(a: int, b: int) -> int {
    if a <= b {
        a
    } else {
        b
    }
}

/// The first `n` items, or all of them.
pub open spec fn prefix(a: Seq<EventView>, n: int) -> Seq<EventView> {
    a.take(least(n, a.len() as int))
}

impl DumpEvent {
    pub fn duplicate(&self) -> (r: DumpEvent)
        ensures
            r@ == self@,
    {
        DumpEvent {
            tick: self.tick,
            sid: self.sid,
            decl_order: self.decl_order,
            value: self.value.clone(),
        }
    }
}

fn goes_first(a: &DumpEvent, b: &DumpEvent) -> (r: bool)
    ensures
        r == no_later(a@, b@),
{
    a.tick < b.tick || (a.tick == b.tick && a.decl_order <= b.decl_order)
}

/// Merge two event lists, keeping at most `limit` events (all when `limit` is
/// zero).
pub fn merge_events(a: &Vec<DumpEvent>, b: &Vec<DumpEvent>, limit: usize) -> (out: Vec<DumpEvent>)
    ensures
        event_views(out@) == (if limit == 0 {
            merged(event_views(a@), event_views(b@))
        } else {
            prefix(merged(event_views(a@), event_views(b@)), limit as int)
        }),
{
    let ghost av = event_views(a@);
    let ghost bv = event_views(b@);
    let ghost all = merged(av, bv);
    let mut out: Vec<DumpEvent> = Vec::new();
    let mut i: usize = 0;
    let mut j: usize = 0;
    proof {
        assert(av.skip(0) =~= av);
        assert(bv.skip(0) =~= bv);
        assert(event_views(out@) + all =~= all);
        merge_keeps_events(av, bv);
    }
    while (i < a.len() || j < b.len()) && (limit == 0 || out.len() < limit)
        invariant
            i <= a.len(),
            j <= b.len(),
            av == event_views(a@),
            bv == event_views(b@),
            all == merged(av, bv),
            limit != 0 ==> out.len() <= limit,
            event_views(out@) + merged(av.skip(i as int), bv.skip(j as int)) == all,
        decreases a.len() - i + b.len() - j,
    {
        let ghost before = event_views(out@);
        let left: bool = if i >= a.len() {
            false
        } else if j >= b.len() {
            true
        } else {
            goes_first(&a[i], &b[j])
        };
        if left {
            let e: DumpEvent = a[i].duplicate();
            let ghost o0 = out@;
            out.push(e);
            proof {
                let s = av.skip(i as int);
                let t = bv.skip(j as int);
                assert(s[0] == a@[i as int]@);
                assert(s.drop_first() =~= av.skip(i + 1));
                if j < b.len() {
                    assert(t[0] == b@[j as int]@);
                }
                if t.len() == 0 {
                    assert(t =~= Seq::empty());
                    lemma_merge_empty(av.skip(i + 1));
                    assert(s =~= seq![s[0]] + av.skip(i + 1));
                }
                assert(merged(s, t) =~= seq![s[0]] + merged(av.skip(i + 1), t));
                assert(event_views(out@) =~= event_views(o0).push(e@));
                assert(event_views(out@) + merged(av.skip(i + 1), t) =~= before + merged(s, t));
            }
            i += 1;
        } else {
            let e: DumpEvent = b[j].duplicate();
            let ghost o0 = out@;
            out.push(e);
            proof {
                let s = av.skip(i as int);
                let t = bv.skip(j as int);
                assert(t[0] == b@[j as int]@);
                assert(t.drop_first() =~= bv.skip(j + 1));
                if i < a.len() {
                    assert(s[0] == a@[i as int]@);
                }
                if s.len() == 0 {
                    assert(s =~= Seq::empty());
                    lemma_merge_empty(bv.skip(j + 1));
                    assert(t =~= seq![t[0]] + bv.skip(j + 1));
                }
                assert(merged(s, t) =~= seq![t[0]] + merged(s, bv.skip(j + 1)));
                assert(event_views(out@) =~= event_views(o0).push(e@));
                assert(event_views(out@) + merged(s, bv.skip(j + 1)) =~= before + merged(s, t));
            }
            j += 1;
        }
    }
    proof {
        let rest = merged(av.skip(i as int), bv.skip(j as int));
        assert(event_views(out@).len() == out@.len());
        if i == a.len() && j == b.len() {
            assert(av.skip(i as int) =~= Seq::empty());
            assert(bv.skip(j as int) =~= Seq::empty());
            lemma_merge_empty(Seq::empty());
            assert(event_views(out@) =~= all);
            assert(prefix(all, limit as int) =~= all || limit == 0);
        } else {
            assert(event_views(out@) =~= all.take(limit as int));
        }
    }
    out
}

/// The views of several event lists.
pub open spec fn list_views(lists: Seq<Vec<DumpEvent>>) -> Seq<Seq<EventView>> {
    lists.map_values(|l: Vec<DumpEvent>| event_views(l@))
}

fn merge_lists(lists: &Vec<Vec<DumpEvent>>, lo: usize, hi: usize) -> (out: Vec<DumpEvent>)
    requires
        lo <= hi <= lists.len(),
    ensures
        event_views(out@) == replay(list_views(lists@).subrange(lo as int, hi as int)),
    decreases hi - lo,
{
    let ghost all = list_views(lists@);
    if hi == lo {
        let out: Vec<DumpEvent> = Vec::new();
        assert(all.subrange(lo as int, hi as int) =~= Seq::empty());
        assert(event_views(out@) =~= Seq::empty());
        return out;
    }
    if hi - lo == 1 {
        let none: Vec<DumpEvent> = Vec::new();
        let out: Vec<DumpEvent> = merge_events(&none, &lists[lo], 0);
        proof {
            let one = all.subrange(lo as int, hi as int);
            assert(one.drop_last() =~= Seq::empty());
            assert(one.last() == event_views(lists@[lo as int]@));
            assert(replay(one.drop_last()) =~= Seq::empty());
            assert(event_views(none@) =~= Seq::empty());
        }
        return out;
    }
    let mid: usize = lo + (hi - lo) / 2;
    let a: Vec<DumpEvent> = merge_lists(lists, lo, mid);
    let b: Vec<DumpEvent> = merge_lists(lists, mid, hi);
    let out: Vec<DumpEvent> = merge_events(&a, &b, 0);
    proof {
        let x = all.subrange(lo as int, mid as int);
        let y = all.subrange(mid as int, hi as int);
        replay_splits(x, y);
        assert(all.subrange(lo as int, hi as int) =~= x + y);
    }
    out
}

/// Merge event lists into one replay.
pub fn merge_all(lists: &Vec<Vec<DumpEvent>>) -> (out: Vec<DumpEvent>)
    ensures
        event_views(out@) == replay(list_views(lists@)),
{
    let n: usize = lists.len();
    let out: Vec<DumpEvent> = merge_lists(lists, 0, n);
    assert(list_views(lists@).subrange(0, n as int) =~= list_views(lists@));
    out
}

/// The changes of one trace from `lo` to `hi` as events.
pub fn trace_events(
    sid: usize,
    decl_order: usize,
    trace: &SignalTrace,
    lo: i64,
    hi: Option<i64>,
) -> (out: Vec<DumpEvent>)
    requires
        trace.wf(),
    ensures
        event_views(out@) == signal_events(
            sid as nat,
            decl_order as nat,
            trace@,
            lo as int,
            opt_tick(hi),
        ),
{
    let a: usize = trace.lower_bound(lo);
    let b: usize = trace.upper_bound(hi);
    let ghost want = signal_events(sid as nat, decl_order as nat, trace@, lo as int, opt_tick(hi));
    let mut out: Vec<DumpEvent> = Vec::new();
    if a >= b {
        assert(event_views(out@) =~= want);
        return out;
    }
    let mut i: usize = a;
    assert(event_views(out@) =~= want.take(0));
    while i < b
        invariant
            a <= i <= b <= trace.times@.len(),
            trace.wf(),
            want == trace@.subrange(a as int, b as int).map_values(
                |c: ChangeView|
                    EventView {
                        tick: c.tick,
                        sid: sid as nat,
                        decl: decl_order as nat,
                        value: c.value,
                    },
            ),
            event_views(out@) == want.take(i - a),
        decreases b - i,
    {
        let e: DumpEvent = DumpEvent {
            tick: trace.times[i],
            sid,
            decl_order,
            value: trace.values[i].clone(),
        };
        let ghost o0 = out@;
        out.push(e);
        proof {
            assert(want[i - a] == e@);
            assert(event_views(out@) =~= event_views(o0).push(e@));
            assert(event_views(out@) =~= want.take(i - a + 1));
        }
        i += 1;
    }
    assert(event_views(out@) =~= want);
    out
}

pub open spec fn opt_tick(t: Option<i64>) -> Option<int> {
    match t {
        Some(n) => Some(n as int),
        None => None,
    }
}

} // verus!
