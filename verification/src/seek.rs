//! Reading a time window of several signals in two passes over a file.

use vstd::prelude::*;

use crate::backend::{window_of, window_slice};
use crate::collect::{
    change_of, collected_is_window, decode, decoded, finished, first_pass, first_pass_all, fresh,
    kept, last_upto, no_repeats, opt_change, second_pass, seedless, Collector, CollectorView,
    Payload, WinKind,
};
use crate::handles::HandleMap;
use crate::history::{in_time_order, upto, ChangeView, RawValue, SignalTrace};
use crate::replay::opt_tick;

verus! {

/// The range of ticks that the first pass reads, its end open where the window
/// has none. It starts no later than the last tick of the file, so that a
/// window behind the end still finds the last section, and ends no earlier
/// than it starts.
pub open spec fn first_bounds(from: int, to: Option<int>, file_end: int) -> (int, Option<int>) {
    let positive = if from > 0 {
        from
    } else {
        0
    };
    let start = if positive < file_end {
        positive
    } else {
        file_end
    };
    (
        start,
        match to {
            Some(t) => Some(
                if t > start {
                    t
                } else {
                    start
                },
            ),
            None => None,
        },
    )
}

pub open spec fn opt_int(t: Option<u64>) -> Option<int> {
    match t {
        Some(x) => Some(x as int),
        None => None,
    }
}

/// The range that the first pass reads. The second reads from zero to its
/// start.
pub fn first_range(from: i64, to: Option<i64>, file_end: u64) -> (r: (u64, Option<u64>))
    ensures
        (r.0 as int, opt_int(r.1)) == first_bounds(from as int, opt_tick(to), file_end as int),
{
    let positive: u64 = if from > 0 {
        from as u64
    } else {
        0
    };
    let start: u64 = if positive < file_end {
        positive
    } else {
        file_end
    };
    let end: Option<u64> = match to {
        Some(t) => {
            let late: u64 = if t > 0 {
                t as u64
            } else {
                0
            };
            Some(
                if late > start {
                    late
                } else {
                    start
                },
            )
        },
        None => None,
    };
    (start, end)
}

/// The handles asked for, each once with the kind it came with first.
pub open spec fn distinct_slots(slots: Seq<(usize, WinKind)>) -> Seq<(usize, WinKind)>
    decreases slots.len(),
{
    if slots.len() == 0 {
        Seq::empty()
    } else {
        let p = distinct_slots(slots.drop_last());
        if handles_in(p).contains(slots.last().0) {
            p
        } else {
            p.push(slots.last())
        }
    }
}

pub open spec fn handles_in(slots: Seq<(usize, WinKind)>) -> Seq<usize> {
    slots.map_values(|s: (usize, WinKind)| s.0)
}

pub open spec fn fresh_for(slots: Seq<(usize, WinKind)>) -> Seq<CollectorView> {
    slots.map_values(|s: (usize, WinKind)| fresh(s.1))
}

/// The state of a window read.
#[verifier::ext_equal]
pub struct SeekView {
    pub from: int,
    pub to: Option<int>,
    /// The handles in the order asked for.
    pub asked: Seq<usize>,
    /// The handles, each once, with a collector for each.
    pub handles: Seq<usize>,
    pub collectors: Seq<CollectorView>,
    /// Has the first pass begun?
    pub begun: bool,
    /// The time of the opening snapshot, if the first pass began with one.
    pub snapshot: Option<u64>,
}

/// A window read of several signals.
pub struct Seek {
    from: i64,
    to: Option<i64>,
    asked: Vec<usize>,
    handles: Vec<usize>,
    collectors: Vec<Collector>,
    slots: HandleMap,
    begun: bool,
    snapshot: Option<u64>,
}

pub open spec fn collector_views(v: Seq<Collector>) -> Seq<CollectorView> {
    v.map_values(|c: Collector| c@)
}

impl View for Seek {
    type V = SeekView;

    closed spec fn view(&self) -> SeekView {
        SeekView {
            from: self.from as int,
            to: opt_tick(self.to),
            asked: self.asked@,
            handles: self.handles@,
            collectors: collector_views(self.collectors@),
            begun: self.begun,
            snapshot: self.snapshot,
        }
    }
}

/// One change as the file gives it.
pub struct RawChange {
    pub time: u64,
    pub handle: usize,
    pub value: Payload,
}

/// Did the first pass begin with an opening snapshot, and when? The recorded
/// times hold every change, so a first time that is not among them is that of a
/// snapshot.
pub open spec fn snapshot_time(s: SeekView, time: u64, times: Seq<u64>) -> Option<u64> {
    if s.begun {
        s.snapshot
    } else if times.contains(time) {
        None
    } else {
        Some(time)
    }
}

/// The state after one more change of the first pass.
pub open spec fn after_first(s: SeekView, c: RawChange, times: Seq<u64>) -> SeekView {
    let snapshot = snapshot_time(s, c.time, times);
    let at = s.handles.index_of(c.handle);
    SeekView {
        begun: true,
        snapshot,
        collectors: if s.handles.contains(c.handle) {
            match decoded(s.collectors[at].kind, c.value) {
                Some(v) => s.collectors.update(
                    at,
                    first_pass(
                        s.collectors[at],
                        ChangeView { tick: c.time as i64 as int, value: v },
                        s.from,
                        s.to,
                        snapshot == Some(c.time),
                    ),
                ),
                None => s.collectors,
            }
        } else {
            s.collectors
        },
        ..s
    }
}

/// The handles that the second pass is for.
pub open spec fn seedless_handles(handles: Seq<usize>, collectors: Seq<CollectorView>) -> Seq<usize>
    decreases handles.len(),
{
    if handles.len() == 0 || collectors.len() != handles.len() {
        Seq::empty()
    } else {
        let p = seedless_handles(handles.drop_last(), collectors.drop_last());
        if seedless(collectors.last()) {
            p.push(handles.last())
        } else {
            p
        }
    }
}

/// A collector that the second pass is for is marked so.
pub open spec fn demoted(c: CollectorView) -> CollectorView {
    if seedless(c) {
        CollectorView { demoted: true, ..c }
    } else {
        c
    }
}

/// The state after one more change of the second pass.
pub open spec fn after_second(s: SeekView, c: RawChange) -> SeekView {
    let at = s.handles.index_of(c.handle);
    let tick = c.time as i64 as int;
    if tick <= s.from && s.handles.contains(c.handle) && s.collectors[at].demoted {
        match decoded(s.collectors[at].kind, c.value) {
            Some(v) => SeekView {
                collectors: s.collectors.update(
                    at,
                    CollectorView {
                        late: Some(ChangeView { tick, value: v }),
                        ..s.collectors[at]
                    },
                ),
                ..s
            },
            None => s,
        }
    } else {
        s
    }
}

/// The histories that a window read ends with, in the order asked for.
pub open spec fn seek_result(s: SeekView) -> Seq<Seq<ChangeView>> {
    s.asked.map_values(|h: usize| finished(s.collectors[s.handles.index_of(h)]))
}

fn time_recorded(times: &[u64], time: u64) -> (r: bool)
    ensures
        r == times@.contains(time),
{
    let mut i: usize = 0;
    while i < times.len()
        invariant
            i <= times@.len(),
            forall|k: int| 0 <= k < i ==> times@[k] != time,
        decreases times@.len() - i,
    {
        if times[i] == time {
            assert(times@[i as int] == time);
            return true;
        }
        i += 1;
    }
    false
}

impl Seek {
    /// Every handle asked for has a collector, found by the map.
    pub closed spec fn wf(&self) -> bool {
        &&& self.handles@.len() == self.collectors@.len()
        &&& self.handles@.no_duplicates()
        &&& forall|h: usize| #[trigger]
            self.slots@.contains_key(h) <==> self.handles@.contains(h)
        &&& forall|h: usize|
            #![trigger self.slots@.contains_key(h)]
            self.slots@.contains_key(h) ==> self.slots@[h] < self.handles@.len()
                && self.handles@[self.slots@[h] as int] == h
        &&& forall|i: int|
            0 <= i < self.asked@.len() ==> self.handles@.contains(#[trigger] self.asked@[i])
    }

    proof fn lemma_slot(&self, h: usize)
        requires
            self.wf(),
            self.slots@.contains_key(h),
        ensures
            self.handles@.contains(h),
            self.handles@.index_of(h) == self.slots@[h],
    {
        let i = self.handles@.index_of(h);
        assert(self.handles@.contains(h));
        assert(self.handles@[i] == h && 0 <= i < self.handles@.len());
    }

    /// Begin to read the window from `from` to `to` for the given handles and
    /// kinds.
    pub fn new(slots: &Vec<(usize, WinKind)>, from: i64, to: Option<i64>) -> (s: Seek)
        ensures
            s.wf(),
            s@ == (SeekView {
                from: from as int,
                to: opt_tick(to),
                asked: handles_in(slots@),
                handles: handles_in(distinct_slots(slots@)),
                collectors: fresh_for(distinct_slots(slots@)),
                begun: false,
                snapshot: None,
            }),
    {
        let mut s: Seek = Seek {
            from,
            to,
            asked: Vec::new(),
            handles: Vec::new(),
            collectors: Vec::new(),
            slots: HandleMap::new(),
            begun: false,
            snapshot: None,
        };
        let mut i: usize = 0;
        assert(slots@.take(0) =~= Seq::empty());
        while i < slots.len()
            invariant
                i <= slots.len(),
                s.wf(),
                s.from == from,
                s.to == to,
                !s.begun,
                s.snapshot is None,
                s.asked@ =~= handles_in(slots@.take(i as int)),
                s.handles@ =~= handles_in(distinct_slots(slots@.take(i as int))),
                collector_views(s.collectors@) =~= fresh_for(distinct_slots(slots@.take(i as int))),
            decreases slots.len() - i,
        {
            let (handle, kind): (usize, WinKind) = slots[i];
            let ghost before = distinct_slots(slots@.take(i as int));
            let known: Option<usize> = s.slots.get(handle);
            if known.is_none() {
                let n: usize = s.handles.len();
                let ghost old_handles = s.handles@;
                let ghost views = collector_views(s.collectors@);
                s.slots.insert(handle, n);
                s.handles.push(handle);
                s.collectors.push(Collector::new(kind));
                proof {
                    assert(collector_views(s.collectors@) =~= views.push(fresh(kind)));
                    assert forall|h: usize| s.handles@.contains(h) <==> (old_handles.contains(h)
                        || h == handle) by {
                        if old_handles.contains(h) {
                            let k = old_handles.index_of(h);
                            assert(s.handles@[k] == h);
                        }
                        if h == handle {
                            assert(s.handles@[n as int] == h);
                        }
                    }
                }
            }
            s.asked.push(handle);
            i += 1;
            assert(slots@.take(i as int).drop_last() =~= slots@.take(i - 1));
            assert(slots@.take(i as int).last() == slots@[i - 1]);
            assert(known is None ==> fresh_for(before.push((handle, kind))) =~= fresh_for(
                before,
            ).push(fresh(kind)));
        }
        assert(slots@.take(i as int) =~= slots@);
        assert(s@ =~= (SeekView {
            from: from as int,
            to: opt_tick(to),
            asked: handles_in(slots@),
            handles: handles_in(distinct_slots(slots@)),
            collectors: fresh_for(distinct_slots(slots@)),
            begun: false,
            snapshot: None,
        }));
        s
    }

    /// The handles that the first pass is for.
    pub fn handles(&self) -> (r: &Vec<usize>)
        ensures
            r@ == self@.handles,
    {
        &self.handles
    }

    /// Take in a change of the first pass. `times` are the recorded times of
    /// the file.
    pub fn on_first(&mut self, c: &RawChange, times: &[u64])
        requires
            old(self).wf(),
        ensures
            final(self).wf(),
            final(self)@ == after_first(old(self)@, *c, times@),
    {
        if !self.begun {
            self.begun = true;
            if !time_recorded(times, c.time) {
                self.snapshot = Some(c.time);
            } else {
                self.snapshot = None;
            }
        }
        let suspect: bool = match self.snapshot {
            Some(t) => t == c.time,
            None => false,
        };
        let found: Option<usize> = self.slots.get(c.handle);
        if let Some(i) = found {
            proof {
                self.lemma_slot(c.handle);
            }
            let ghost views = collector_views(self.collectors@);
            assert(views[i as int] == self.collectors@[i as int]@);
            let value: Option<RawValue> = decode(self.collectors[i].kind, &c.value);
            if let Some(rv) = value {
                let tick: i64 = #[verifier::truncate] (c.time as i64);
                let (from, to): (i64, Option<i64>) = (self.from, self.to);
                self.collectors[i].on_phase1(tick, rv, from, to, suspect);
                assert(collector_views(self.collectors@) =~= views.update(
                    i as int,
                    self.collectors@[i as int]@,
                ));
            }
        }
        assert(self@ =~= after_first(old(self)@, *c, times@));
    }

    /// The handles that the second pass is for.
    pub fn second_handles(&self) -> (r: Vec<usize>)
        requires
            self.wf(),
        ensures
            r@ == seedless_handles(self@.handles, self@.collectors),
    {
        let mut r: Vec<usize> = Vec::new();
        let mut i: usize = 0;
        let ghost hs = self@.handles;
        let ghost cs = self@.collectors;
        while i < self.handles.len()
            invariant
                i <= self.handles.len(),
                self.wf(),
                hs == self@.handles,
                cs == self@.collectors,
                r@ =~= seedless_handles(hs.take(i as int), cs.take(i as int)),
            decreases self.handles.len() - i,
        {
            assert(cs[i as int] == self.collectors@[i as int]@);
            if self.collectors[i].needs_phase2() {
                r.push(self.handles[i]);
            }
            i += 1;
            assert(hs.take(i as int).drop_last() =~= hs.take(i - 1));
            assert(cs.take(i as int).drop_last() =~= cs.take(i - 1));
        }
        assert(hs.take(i as int) =~= hs);
        assert(cs.take(i as int) =~= cs);
        r
    }

    /// Begin the second pass.
    pub fn begin_second(&mut self)
        requires
            old(self).wf(),
        ensures
            final(self).wf(),
            final(self)@ == (SeekView {
                collectors: old(self)@.collectors.map_values(|c: CollectorView| demoted(c)),
                ..old(self)@
            }),
    {
        let mut i: usize = 0;
        let ghost cs = self@.collectors;
        while i < self.collectors.len()
            invariant
                i <= self.collectors.len(),
                self.wf(),
                cs == old(self)@.collectors,
                self.collectors@.len() == cs.len(),
                self.from == old(self).from,
                self.to == old(self).to,
                self.asked == old(self).asked,
                self.handles == old(self).handles,
                self.begun == old(self).begun,
                self.snapshot == old(self).snapshot,
                forall|k: int| 0 <= k < i ==> (#[trigger] self.collectors@[k])@ == demoted(cs[k]),
                forall|k: int| i <= k < cs.len() ==> (#[trigger] self.collectors@[k])@ == cs[k],
            decreases self.collectors.len() - i,
        {
            if self.collectors[i].needs_phase2() {
                self.collectors[i].demote();
            }
            i += 1;
        }
        assert(self@ =~= (SeekView {
            collectors: cs.map_values(|c: CollectorView| demoted(c)),
            ..old(self)@
        }));
    }

    /// Take in a change of the second pass.
    pub fn on_second(&mut self, c: &RawChange)
        requires
            old(self).wf(),
        ensures
            final(self).wf(),
            final(self)@ == after_second(old(self)@, *c),
    {
        let tick: i64 = #[verifier::truncate] (c.time as i64);
        if tick > self.from {
            return;
        }
        let found: Option<usize> = self.slots.get(c.handle);
        if let Some(i) = found {
            proof {
                self.lemma_slot(c.handle);
            }
            let ghost views = collector_views(self.collectors@);
            assert(views[i as int] == self.collectors@[i as int]@);
            if self.collectors[i].demoted {
                let value: Option<RawValue> = decode(self.collectors[i].kind, &c.value);
                if let Some(rv) = value {
                    self.collectors[i].on_phase2(tick, rv);
                    assert(collector_views(self.collectors@) =~= views.update(
                        i as int,
                        self.collectors@[i as int]@,
                    ));
                }
            }
        }
        assert(self@ =~= after_second(old(self)@, *c));
    }

    /// The histories, one for each handle asked for.
    pub fn finish(self) -> (r: Vec<SignalTrace>)
        requires
            self.wf(),
        ensures
            r@.map_values(|t: SignalTrace| t@) == seek_result(self@),
            forall|i: int|
                0 <= i < r@.len() ==> (#[trigger] r@[i]).times@.len() == r@[i].values@.len(),
    {
        let ghost cs = self@.collectors;
        let ghost want = seek_result(self@);
        let mut r: Vec<SignalTrace> = Vec::new();
        let mut i: usize = 0;
        while i < self.asked.len()
            invariant
                i <= self.asked.len(),
                self.wf(),
                want == seek_result(self@),
                cs == self@.collectors,
                r@.len() == i,
                forall|k: int|
                    0 <= k < i ==> (#[trigger] r@[k])@ == want[k] && r@[k].times@.len()
                        == r@[k].values@.len(),
            decreases self.asked.len() - i,
        {
            let handle: usize = self.asked[i];
            let found: Option<usize> = self.slots.get(handle);
            assert(self.handles@.contains(self.asked@[i as int]));
            let at: usize = match found {
                Some(at) => at,
                None => 0,
            };
            proof {
                self.lemma_slot(handle);
                assert(cs[at as int] == self.collectors@[at as int]@);
            }
            let t: SignalTrace = self.collectors[at].duplicate().finish();
            r.push(t);
            i += 1;
        }
        assert(r@.map_values(|t: SignalTrace| t@) =~= want);
        r
    }
}

impl Collector {
    pub fn duplicate(&self) -> (r: Collector)
        ensures
            r@ == self@,
    {
        let mut win: Vec<(i64, RawValue)> = Vec::new();
        let mut i: usize = 0;
        while i < self.win.len()
            invariant
                i <= self.win.len(),
                win@.len() == i,
                forall|k: int| 0 <= k < i ==> change_of(#[trigger] win@[k]) == change_of(self.win@[k]),
            decreases self.win.len() - i,
        {
            win.push((self.win[i].0, self.win[i].1.clone()));
            i += 1;
        }
        let r: Collector = Collector {
            kind: self.kind,
            seed: copy_change(&self.seed),
            seed_suspect: self.seed_suspect,
            win,
            demoted: self.demoted,
            seed2: copy_change(&self.seed2),
        };
        assert(r@ =~= self@);
        r
    }
}

fn copy_change(p: &Option<(i64, RawValue)>) -> (r: Option<(i64, RawValue)>)
    ensures
        opt_change(r) == opt_change(*p),
{
    match p {
        Some(c) => Some((c.0, c.1.clone())),
        None => None,
    }
}

/// The state after all the changes of a first pass.
pub open spec fn after_first_all(s: SeekView, cs: Seq<RawChange>, times: Seq<u64>) -> SeekView
    decreases cs.len(),
{
    if cs.len() == 0 {
        s
    } else {
        after_first(after_first_all(s, cs.drop_last(), times), cs.last(), times)
    }
}

/// The changes of one signal among those of a pass. Payloads that contradict
/// the kind are left out.
pub open spec fn own_changes(cs: Seq<RawChange>, handle: usize, kind: WinKind) -> Seq<ChangeView>
    decreases cs.len(),
{
    if cs.len() == 0 {
        Seq::empty()
    } else {
        let p = own_changes(cs.drop_last(), handle, kind);
        let c = cs.last();
        if c.handle == handle {
            match decoded(kind, c.value) {
                Some(v) => p.push(ChangeView { tick: c.time as i64 as int, value: v }),
                None => p,
            }
        } else {
            p
        }
    }
}

/// Does the first pass, in state `s`, take each of the changes for a change
/// rather than an echo of an opening snapshot?
pub open spec fn none_echoed(s: SeekView, cs: Seq<RawChange>, times: Seq<u64>) -> bool {
    if s.begun {
        forall|i: int| 0 <= i < cs.len() ==> s.snapshot != Some((#[trigger] cs[i]).time)
    } else {
        cs.len() > 0 ==> times.contains(cs[0].time)
    }
}

/// A pass without echoes reads the signals apart: each collector ends as if it
/// had been given its own signal's changes alone.
pub proof fn signals_are_read_apart(
    s: SeekView,
    cs: Seq<RawChange>,
    times: Seq<u64>,
    handle: usize,
)
    requires
        s.handles.len() == s.collectors.len(),
        s.handles.contains(handle),
        none_echoed(s, cs, times),
    ensures
        ({
            let at = s.handles.index_of(handle);
            let r = after_first_all(s, cs, times);
            &&& r.handles == s.handles && r.from == s.from && r.to == s.to && r.asked == s.asked
            &&& r.collectors.len() == s.collectors.len()
            &&& r.begun == (s.begun || cs.len() > 0)
            &&& cs.len() > 0 ==> r.snapshot == (if s.begun {
                s.snapshot
            } else {
                None
            })
            &&& r.collectors[at] == first_pass_all(
                s.collectors[at],
                own_changes(cs, handle, s.collectors[at].kind),
                s.from,
                s.to,
            )
            &&& r.collectors[at].kind == s.collectors[at].kind
        }),
    decreases cs.len(),
{
    let at = s.handles.index_of(handle);
    let kind = s.collectors[at].kind;
    if cs.len() > 0 {
        let less = cs.drop_last();
        let c = cs.last();
        if less.len() > 0 {
            assert(less[0] == cs[0]);
        }
        assert(none_echoed(s, less, times)) by {
            assert forall|i: int| 0 <= i < less.len() && s.begun implies s.snapshot != Some(
                (#[trigger] less[i]).time,
            ) by {
                assert(less[i] == cs[i]);
            }
        }
        signals_are_read_apart(s, less, times, handle);
        let p = after_first_all(s, less, times);
        let own = own_changes(less, handle, kind);
        assert(c == cs[cs.len() - 1]);
        assert(snapshot_time(p, c.time, times) != Some(c.time));
        if c.handle == handle {
            match decoded(kind, c.value) {
                Some(v) => {
                    let e = ChangeView { tick: c.time as i64 as int, value: v };
                    assert(own.push(e).drop_last() =~= own);
                },
                None => {},
            }
        } else if s.handles.contains(c.handle) {
            let other = s.handles.index_of(c.handle);
            assert(s.handles[other] == c.handle && s.handles[at] == handle);
        }
    }
}

/// Are these the echoes of an opening snapshot? They share one time, which is
/// not recorded.
pub open spec fn is_snapshot(cs: Seq<RawChange>, times: Seq<u64>) -> bool {
    forall|i: int|
        0 <= i < cs.len() ==> (#[trigger] cs[i]).time == cs[0].time && !times.contains(cs[i].time)
}

/// An opening snapshot leaves a signal with the last of its own echoes, and
/// that under suspicion.
pub proof fn snapshots_are_suspect(
    s: SeekView,
    cs: Seq<RawChange>,
    times: Seq<u64>,
    handle: usize,
)
    requires
        !s.begun,
        s.handles.len() == s.collectors.len(),
        s.handles.contains(handle),
        cs.len() > 0,
        is_snapshot(cs, times),
    ensures
        ({
            let at = s.handles.index_of(handle);
            let r = after_first_all(s, cs, times);
            let own = own_changes(cs, handle, s.collectors[at].kind);
            &&& r.handles == s.handles && r.from == s.from && r.to == s.to && r.asked == s.asked
            &&& r.collectors.len() == s.collectors.len()
            &&& r.begun
            &&& r.snapshot == Some(cs[0].time)
            &&& r.collectors[at] == (if own.len() == 0 {
                s.collectors[at]
            } else {
                first_pass(s.collectors[at], own.last(), s.from, s.to, true)
            })
            &&& own.len() > 0 ==> own.last().tick == cs[0].time as i64 as int
        }),
    decreases cs.len(),
{
    let at = s.handles.index_of(handle);
    let kind = s.collectors[at].kind;
    let less = cs.drop_last();
    let c = cs.last();
    assert(c == cs[cs.len() - 1]);
    assert(c.time == cs[0].time && !times.contains(c.time));
    if less.len() > 0 {
        assert(is_snapshot(less, times)) by {
            assert forall|i: int| 0 <= i < less.len() implies (#[trigger] less[i]).time
                == less[0].time && !times.contains(less[i].time) by {
                assert(less[i] == cs[i]);
            }
        }
        assert(less[0] == cs[0]);
        snapshots_are_suspect(s, less, times, handle);
    } else {
        assert(own_changes(less, handle, kind) =~= Seq::empty());
    }
    let p = after_first_all(s, less, times);
    assert(snapshot_time(p, c.time, times) == Some(c.time));
    if c.handle != handle && s.handles.contains(c.handle) {
        let other = s.handles.index_of(c.handle);
        assert(s.handles[other] == c.handle && s.handles[at] == handle);
    }
}

proof fn lemma_passes_join(s: SeekView, a: Seq<RawChange>, b: Seq<RawChange>, times: Seq<u64>)
    ensures
        after_first_all(s, a + b, times) == after_first_all(
            after_first_all(s, a, times),
            b,
            times,
        ),
    decreases b.len(),
{
    if b.len() == 0 {
        assert(a + b =~= a);
    } else {
        lemma_passes_join(s, a, b.drop_last(), times);
        assert((a + b).drop_last() =~= a + b.drop_last());
    }
}

/// The state after all the changes of a second pass.
pub open spec fn after_second_all(s: SeekView, cs: Seq<RawChange>) -> SeekView
    decreases cs.len(),
{
    if cs.len() == 0 {
        s
    } else {
        after_second(after_second_all(s, cs.drop_last()), cs.last())
    }
}

/// The second pass reads the signals apart, too: a collector that it is for
/// ends with the last of its own signal's changes up to the window's start.
pub proof fn late_changes_are_read_apart(s: SeekView, cs: Seq<RawChange>, handle: usize)
    requires
        s.handles.len() == s.collectors.len(),
        s.handles.contains(handle),
    ensures
        ({
            let at = s.handles.index_of(handle);
            let c = s.collectors[at];
            let late = last_upto(own_changes(cs, handle, c.kind), s.from);
            let r = after_second_all(s, cs);
            &&& r.handles == s.handles && r.from == s.from && r.to == s.to && r.asked == s.asked
            &&& r.collectors.len() == s.collectors.len()
            &&& r.collectors[at] == (if c.demoted && late is Some {
                CollectorView { late, ..c }
            } else {
                c
            })
        }),
    decreases cs.len(),
{
    let at = s.handles.index_of(handle);
    let kind = s.collectors[at].kind;
    if cs.len() > 0 {
        let less = cs.drop_last();
        let c = cs.last();
        late_changes_are_read_apart(s, less, handle);
        let own = own_changes(less, handle, kind);
        if c.handle == handle {
            match decoded(kind, c.value) {
                Some(v) => {
                    let e = ChangeView { tick: c.time as i64 as int, value: v };
                    assert(own.push(e).drop_last() =~= own);
                    lemma_upto_bounded(own, s.from);
                },
                None => {},
            }
        } else if s.handles.contains(c.handle) {
            let other = s.handles.index_of(c.handle);
            assert(s.handles[other] == c.handle && s.handles[at] == handle);
        }
    }
}

proof fn lemma_upto_bounded(h: Seq<ChangeView>, t: int)
    ensures
        0 <= upto(h, t) <= h.len(),
    decreases h.len(),
{
    if h.len() > 0 {
        lemma_upto_bounded(h.drop_last(), t);
    }
}

proof fn lemma_first_pass_keeps(c: CollectorView, es: Seq<ChangeView>, from: int, to: Option<int>)
    ensures
        ({
            let r = first_pass_all(c, es, from, to);
            r.kind == c.kind && r.demoted == c.demoted && r.late == c.late
        }),
    decreases es.len(),
{
    if es.len() > 0 {
        lemma_first_pass_keeps(c, es.drop_last(), from, to);
    }
}

/// A read in two passes finds the window of each signal. Let `es` be all the
/// changes of a signal, in time order, of which none up to the window's start
/// repeats the one before it. Let the first pass begin with the echoes of an
/// opening snapshot, or without, and then give of the changes those from the
/// `k`th to the `m`th, leaving out before only changes up to the window's start
/// and after only changes behind its end. Echoes are told by their time: it is
/// not recorded, and no change has it; without echoes the first time is
/// recorded. And let the last change up to the window's start that the second
/// pass gives be the last there is. Then the read ends with the window of the
/// full history.
pub proof fn seek_reads_windows(
    s: SeekView,
    echoes: Seq<RawChange>,
    first: Seq<RawChange>,
    second: Seq<RawChange>,
    times: Seq<u64>,
    handle: usize,
    es: Seq<ChangeView>,
    k: int,
    m: int,
)
    requires
        !s.begun,
        s.handles.len() == s.collectors.len(),
        s.handles.contains(handle),
        s.collectors[s.handles.index_of(handle)] == fresh(
            s.collectors[s.handles.index_of(handle)].kind,
        ),
        is_snapshot(echoes, times),
        echoes.len() > 0 ==> forall|i: int|
            0 <= i < first.len() ==> (#[trigger] first[i]).time != echoes[0].time,
        echoes.len() == 0 && first.len() > 0 ==> times.contains(first[0].time),
        in_time_order(es),
        no_repeats(
            s.collectors[s.handles.index_of(handle)].kind,
            es.take(upto(es, s.from)),
        ),
        0 <= k <= upto(es, s.from) <= m <= es.len(),
        s.to matches Some(t) ==> upto(es, t) <= m,
        s.to is None ==> m == es.len(),
        own_changes(first, handle, s.collectors[s.handles.index_of(handle)].kind) == es.subrange(
            k,
            m,
        ),
        last_upto(
            own_changes(second, handle, s.collectors[s.handles.index_of(handle)].kind),
            s.from,
        ) == last_upto(es, s.from),
    ensures
        ({
            let at = s.handles.index_of(handle);
            let one = after_first_all(s, echoes + first, times);
            let between = SeekView {
                collectors: one.collectors.map_values(|c: CollectorView| demoted(c)),
                ..one
            };
            let r = after_second_all(between, second);
            let full = kept(s.collectors[at].kind, None, es);
            &&& finished(r.collectors[at]) == window_slice(full, s.from, s.to)
            &&& window_of(finished(r.collectors[at]), full, s.from, s.to)
        }),
{
    let at = s.handles.index_of(handle);
    let kind = s.collectors[at].kind;
    let own = own_changes(echoes, handle, kind);
    let echo: Option<ChangeView> = if own.len() == 0 {
        None
    } else {
        Some(own.last())
    };
    let opened = after_first_all(s, echoes, times);
    if echoes.len() > 0 {
        snapshots_are_suspect(s, echoes, times, handle);
        assert(none_echoed(opened, first, times));
    } else {
        assert(own =~= Seq::empty());
    }
    lemma_passes_join(s, echoes, first, times);
    signals_are_read_apart(opened, first, times, handle);
    let start = match echo {
        Some(e) => first_pass(fresh(kind), e, s.from, s.to, true),
        None => fresh(kind),
    };
    assert(opened.collectors[at] == start);
    let one = after_first_all(s, echoes + first, times);
    let c = one.collectors[at];
    lemma_first_pass_keeps(start, es.subrange(k, m), s.from, s.to);
    let between = SeekView {
        collectors: one.collectors.map_values(|c: CollectorView| demoted(c)),
        ..one
    };
    assert(between.collectors[at] == demoted(c));
    late_changes_are_read_apart(between, second, handle);
    let r = after_second_all(between, second);
    assert(r.collectors[at] == second_pass(c, last_upto(es, s.from)));
    collected_is_window(kind, es, echo, k, m, s.from, s.to);
}

} // verus!
