//! The waveform as the commands see it: a signal table, loaded traces,
//! snapshots and replays.

use std::collections::HashMap;

use vstd::prelude::*;

use crate::backend::{window_keeps_values, window_of, MetaView, WaveformBackend};
use crate::history::{in_time_order, value_at, ChangeView, RawValue, RawView, SignalTrace};
use crate::order::{increasing, sorted_distinct, sorted_set};
use crate::replay::{
    event_views, events_in, least, list_views, merge_all, merge_events, merge_of_prefixes, opt_tick,
    prefix, replay, replay_keeps_signals, signal_events, trace_events, DumpEvent, EventView,
};
use crate::signal::{
    build_signal_table, count_types, decl_views, named_counts, signal_views, table_of, table_ok,
    type_counts_of, BackendSid, SignalInfo, SignalView, VarDecl,
};
use crate::text::views;

verus! {

/// A signal's place in the table.
pub type Sid = usize;

/// A signal with a change history.
pub type Sighting = (usize, Seq<ChangeView>);

/// Something that looks at one signal after another.
pub trait TraceVisitor: Sized {
    /// What holds of the visitor between visits.
    spec fn ok(&self) -> bool;

    /// The signals visited so far, with the histories shown.
    spec fn seen(&self) -> Seq<Sighting>;

    /// What never changes about the visitor.
    spec fn fixed(&self, other: &Self) -> bool;

    fn visit(&mut self, sid: Sid, trace: &SignalTrace)
        requires
            old(self).ok(),
            old(self).seen().len() < usize::MAX,
            trace.wf(),
        ensures
            final(self).ok(),
            final(self).seen() == old(self).seen().push((sid, trace@)),
            final(self).fixed(old(self)),
    ;

    proof fn fixed_chain(&self, mid: &Self, first: &Self)
        requires
            self.fixed(mid),
            mid.fixed(first),
        ensures
            self.fixed(first),
    ;

    proof fn fixed_self(&self)
        ensures
            self.fixed(self),
    ;
}

/// The signals that a selection names: the given ones, or all of them.
pub open spec fn selection(sids: Option<&Vec<Sid>>, count: nat) -> Seq<usize> {
    match sids {
        Some(v) => v@,
        None => Seq::new(count, |i: int| i as usize),
    }
}

/// Every signal is in the table.
pub open spec fn in_table(sel: Seq<usize>, count: nat) -> bool {
    forall|i: int| 0 <= i < sel.len() ==> (#[trigger] sel[i]) < count
}

/// The values at `t` of the signals seen, for those that have one.
pub open spec fn values_at(seen: Seq<Sighting>, t: int) -> Map<usize, RawView>
    decreases seen.len(),
{
    if seen.len() == 0 {
        Map::empty()
    } else {
        let rest = values_at(seen.drop_last(), t);
        match value_at(seen.last().1, t) {
            Some(v) => rest.insert(seen.last().0, v),
            None => rest,
        }
    }
}

/// A map of values as mathematics sees it.
pub open spec fn map_view(m: Map<usize, RawValue>) -> Map<usize, RawView> {
    Map::new(|k: usize| m.contains_key(k), |k: usize| m[k]@)
}

/// The events of each signal seen, from `lo` to `hi`. `decls` gives the
/// declaration order of each signal.
pub open spec fn event_lists(
    seen: Seq<Sighting>,
    decls: Seq<nat>,
    lo: int,
    hi: Option<int>,
) -> Seq<Seq<EventView>> {
    seen.map_values(
        |s: Sighting| signal_events(s.0 as nat, decl_at(decls, s.0), s.1, lo, hi),
    )
}

/// The declaration order of a signal.
pub open spec fn decl_at(decls: Seq<nat>, sid: usize) -> nat {
    if sid < decls.len() {
        decls[sid as int]
    } else {
        0
    }
}

/// The declaration orders of a table.
pub open spec fn decl_orders(t: Seq<SignalView>) -> Seq<nat> {
    t.map_values(|s: SignalView| s.decl_order)
}

/// At most `limit` events, or all of them when `limit` is zero.
pub open spec fn clipped(events: Seq<EventView>, limit: usize) -> Seq<EventView> {
    if limit == 0 {
        events
    } else {
        prefix(events, limit as int)
    }
}

/// Do the sightings `seen` show enough of the histories `full` for the ticks
/// from `from` to `to`?
pub open spec fn shows(
    seen: Seq<Sighting>,
    full: Seq<Sighting>,
    from: int,
    to: Option<int>,
) -> bool {
    &&& seen.len() == full.len()
    &&& forall|i: int|
        0 <= i < seen.len() ==> {
            &&& (#[trigger] seen[i]).0 == full[i].0
            &&& in_time_order(seen[i].1)
            &&& in_time_order(full[i].1)
            &&& window_of(seen[i].1, full[i].1, from, to)
        }
}

/// A waveform as mathematics sees it: what is fixed about the file, the signal
/// table, and the change history of every signal.
pub struct WaveView {
    pub meta: MetaView,
    pub table: Seq<SignalView>,
    pub traces: Seq<Seq<ChangeView>>,
}

/// The histories of the given signals.
pub open spec fn seen_of(w: WaveView, sel: Seq<usize>) -> Seq<Sighting> {
    sel.map_values(|s: usize| (s, w.traces[s as int]))
}

/// The texts that are not empty.
pub open spec fn non_empty(v: Seq<Seq<char>>) -> Seq<Seq<char>>
    decreases v.len(),
{
    if v.len() == 0 {
        Seq::empty()
    } else if v.last().len() == 0 {
        non_empty(v.drop_last())
    } else {
        non_empty(v.drop_last()).push(v.last())
    }
}

/// The enclosing scopes of all aliases.
pub open spec fn scopes_in(tab: Seq<SignalView>) -> Seq<Seq<char>>
    decreases tab.len(),
{
    if tab.len() == 0 {
        Seq::empty()
    } else {
        scopes_in(tab.drop_last()) + non_empty(tab.last().scopes)
    }
}

/// The loaded waveform.
pub struct Wave<B: WaveformBackend> {
    backend: B,
    signals: Vec<SignalInfo>,
    raw_var_count: usize,
    type_counts: Vec<(String, usize)>,
    traces: Vec<Option<SignalTrace>>,
}

impl<B: WaveformBackend> Wave<B> {
    /// What is fixed about the file.
    pub closed spec fn meta(&self) -> MetaView {
        self.backend.meta()
    }

    /// The signal table.
    pub closed spec fn table(&self) -> Seq<SignalView> {
        signal_views(self.signals@)
    }

    /// The change history of a signal.
    pub closed spec fn trace_of(&self, sid: int) -> Seq<ChangeView> {
        self.backend.history(self.signals@[sid].backend_sid)
    }

    /// Is the signal's trace decoded and kept?
    pub closed spec fn loaded(&self, sid: int) -> bool {
        self.traces@[sid] is Some
    }

    /// The kept traces are the signals' histories, and the table is that of
    /// the declarations.
    pub closed spec fn wf(&self) -> bool {
        &&& self.traces@.len() == self.signals@.len()
        &&& self.table() == table_of(self.meta().decls)
        &&& table_ok(self.table())
        &&& self.raw_var_count == self.meta().decls.len()
        &&& named_counts(self.type_counts@) == type_counts_of(self.meta().decls)
        &&& forall|sid: int|
            0 <= sid < self.traces@.len() ==> (#[trigger] self.traces@[sid]) is Some ==> {
                &&& self.traces@[sid]->0.wf()
                &&& self.traces@[sid]->0@ == self.trace_of(sid)
            }
    }

    /// The same file with the same contents; only what is kept may differ.
    pub open spec fn same_wave(&self, other: &Self) -> bool {
        &&& self.meta() == other.meta()
        &&& self.table() == other.table()
        &&& forall|sid: int| 0 <= sid < self.table().len() ==> #[trigger] self.trace_of(sid) == other.trace_of(sid)
    }

    /// The waveform as a whole.
    pub open spec fn snap(&self) -> WaveView {
        WaveView {
            meta: self.meta(),
            table: self.table(),
            traces: Seq::new(self.table().len(), |i: int| self.trace_of(i)),
        }
    }

    /// The histories of the given signals.
    pub open spec fn sightings(&self, sel: Seq<usize>) -> Seq<Sighting> {
        sel.map_values(|s: usize| (s, self.trace_of(s as int)))
    }

    /// The histories of those of the given signals that are loaded.
    pub open spec fn loaded_sightings(&self, sel: Seq<usize>) -> Seq<Sighting>
        decreases sel.len(),
    {
        if sel.len() == 0 {
            Seq::empty()
        } else {
            let rest = self.loaded_sightings(sel.drop_last());
            if self.loaded(sel.last() as int) {
                rest.push((sel.last(), self.trace_of(sel.last() as int)))
            } else {
                rest
            }
        }
    }

    /// Build the model of an open file.
    pub fn from_backend(backend: B) -> (w: Wave<B>)
        ensures
            w.wf(),
            w.meta() == backend.meta(),
            w.table() == table_of(backend.meta().decls),
            forall|sid: int|
                0 <= sid < w.table().len() ==> #[trigger] w.trace_of(sid) == backend.history(
                    BackendSid(w.table()[sid].handle),
                ) && !w.loaded(sid),
    {
        let decls: Vec<VarDecl> = backend.var_decls();
        let signals: Vec<SignalInfo> = build_signal_table(&decls);
        let type_counts: Vec<(String, usize)> = count_types(&decls);
        let mut traces: Vec<Option<SignalTrace>> = Vec::new();
        let n: usize = signals.len();
        let mut i: usize = 0;
        while i < n
            invariant
                i <= n,
                traces.len() == i,
                forall|k: int| 0 <= k < i ==> (#[trigger] traces@[k]) is None,
            decreases n - i,
        {
            traces.push(None);
            i += 1;
        }
        let raw_var_count: usize = decls.len();
        assert(decl_views(decls@).len() == decls@.len());
        let w: Wave<B> = Wave { backend, signals, raw_var_count, type_counts, traces };
        proof {
            assert forall|sid: int| 0 <= sid < w.table().len() implies #[trigger] w.trace_of(sid)
                == backend.history(BackendSid(w.table()[sid].handle)) && !w.loaded(sid) by {
                assert(w.table()[sid] == w.signals@[sid]@);
            }
        }
        w
    }

    pub fn path(&self) -> (s: &str)
        ensures
            s@ == self.meta().path,
    {
        self.backend.path()
    }

    pub fn timescale_str(&self) -> (s: String)
        ensures
            s@ == self.meta().timescale,
    {
        self.backend.timescale_str()
    }

    pub fn file_format(&self) -> (f: crate::backend::FileFormat)
        ensures
            f == self.meta().format,
    {
        self.backend.file_format()
    }

    pub fn date(&self) -> (s: &str)
        ensures
            s@ == self.meta().date,
    {
        self.backend.date()
    }

    pub fn version(&self) -> (s: &str)
        ensures
            s@ == self.meta().version,
    {
        self.backend.version()
    }

    pub fn comments(&self) -> (v: Vec<String>)
        ensures
            views(v@) == self.meta().comments,
    {
        self.backend.comments()
    }

    /// The number of variable declarations.
    pub fn raw_var_count(&self) -> (n: usize)
        requires
            self.wf(),
        ensures
            n == self.meta().decls.len(),
    {
        self.raw_var_count
    }

    /// The number of declarations of each variable type, by descending count
    /// and then by name.
    pub fn type_counts_sorted(&self) -> (v: &Vec<(String, usize)>)
        requires
            self.wf(),
        ensures
            named_counts(v@) == type_counts_of(self.meta().decls),
    {
        &self.type_counts
    }

    pub fn signals(&self) -> (v: &Vec<SignalInfo>)
        ensures
            signal_views(v@) == self.table(),
    {
        &self.signals
    }

    pub fn signal(&self, sid: Sid) -> (s: &SignalInfo)
        requires
            sid < self.table().len(),
        ensures
            s@ == self.table()[sid as int],
    {
        &self.signals[sid]
    }

    pub fn signal_count(&self) -> (n: usize)
        ensures
            n == self.table().len(),
    {
        self.signals.len()
    }

    /// The enclosing scopes of all aliases, in string order and without
    /// repeats.
    pub fn scopes(&self) -> (r: Vec<String>)
        ensures
            views(r@) == sorted_set(scopes_in(self.table())),
            increasing(views(r@)),
            forall|t: Seq<char>|
                #[trigger] views(r@).contains(t) == scopes_in(self.table()).contains(t),
    {
        let mut found: Vec<String> = Vec::new();
        let mut i: usize = 0;
        let ghost tab = self.table();
        assert(tab.take(0) =~= Seq::empty());
        assert(views(found@) =~= Seq::empty());
        while i < self.signals.len()
            invariant
                i <= self.signals.len(),
                tab == self.table(),
                views(found@) == scopes_in(tab.take(i as int)),
            decreases self.signals.len() - i,
        {
            let mut j: usize = 0;
            let s: &SignalInfo = &self.signals[i];
            let ghost f0 = views(found@);
            let ghost sv = views(s.alias_scopes@);
            proof {
                assert(tab.take(i + 1).drop_last() =~= tab.take(i as int));
                assert(tab.take(i + 1).last() == s@);
                assert(sv.take(0) =~= Seq::empty());
                assert(f0 + non_empty(sv.take(0)) =~= f0);
            }
            while j < s.alias_scopes.len()
                invariant
                    j <= s.alias_scopes.len(),
                    sv == views(s.alias_scopes@),
                    views(found@) == f0 + non_empty(sv.take(j as int)),
                decreases s.alias_scopes.len() - j,
            {
                let sc: &str = s.alias_scopes[j].as_str();
                proof {
                    assert(sv.take(j + 1).drop_last() =~= sv.take(j as int));
                    assert(sv.take(j + 1).last() == sc@);
                }
                if !sc.is_empty() {
                    let ghost f1 = views(found@);
                    found.push(sc.to_owned());
                    assert(views(found@) =~= f1.push(sc@));
                    assert(views(found@) =~= f0 + non_empty(sv.take(j + 1)));
                }
                j += 1;
            }
            assert(sv.take(j as int) =~= sv);
            i += 1;
        }
        assert(tab.take(i as int) =~= tab);
        sorted_distinct(&found)
    }

    pub fn time_range(&self) -> (r: Option<(i64, i64)>)
        ensures
            r == self.meta().time_range,
    {
        self.backend.time_range()
    }

    pub fn time_table_len(&self) -> (n: usize)
        ensures
            n == self.meta().time_steps,
    {
        self.backend.time_step_count()
    }

    /// Can the reader decode a time window without the whole history?
    pub fn supports_windowed(&self) -> (r: bool)
        ensures
            r == self.meta().windowed,
    {
        self.backend.supports_windowed()
    }

    /// The reader behind the model.
    pub fn backend(&self) -> (b: &B)
        ensures
            b.meta() == self.meta(),
    {
        &self.backend
    }

    /// What is kept does not show in the waveform as a whole.
    pub proof fn same_snap(&self, other: &Self)
        requires
            self.same_wave(other),
        ensures
            self.snap() == other.snap(),
    {
        assert forall|i: int| 0 <= i < self.table().len() implies self.trace_of(i)
            == other.trace_of(i) by {}
        assert(self.snap().traces =~= other.snap().traces);
    }

    /// The histories of signals of the table are those of the waveform as a
    /// whole.
    pub proof fn sightings_of_snap(&self, sel: Seq<usize>)
        requires
            in_table(sel, self.table().len()),
        ensures
            self.sightings(sel) == seen_of(self.snap(), sel),
            (forall|i: int| 0 <= i < sel.len() ==> self.loaded(#[trigger] sel[i] as int))
                ==> self.loaded_sightings(sel) == seen_of(self.snap(), sel),
        decreases sel.len(),
    {
        assert forall|i: int| 0 <= i < sel.len() implies self.sightings(sel)[i] == seen_of(
            self.snap(),
            sel,
        )[i] by {
            assert(sel[i] < self.table().len());
        }
        assert(self.sightings(sel) =~= seen_of(self.snap(), sel));
        if sel.len() > 0 {
            let less = sel.drop_last();
            assert forall|i: int| 0 <= i < less.len() implies (#[trigger] less[i])
                < self.table().len() by {
                assert(sel[i] < self.table().len());
            }
            self.sightings_of_snap(less);
            if forall|i: int| 0 <= i < sel.len() ==> self.loaded(#[trigger] sel[i] as int) {
                assert forall|i: int| 0 <= i < less.len() implies self.loaded(
                    #[trigger] less[i] as int,
                ) by {
                    assert(self.loaded(sel[i] as int));
                }
                assert(self.loaded(sel[sel.len() - 1] as int));
                assert(sel[sel.len() - 1] < self.table().len());
                assert(seen_of(self.snap(), sel) =~= seen_of(self.snap(), less).push(
                    (sel.last(), self.trace_of(sel.last() as int)),
                ));
            }
        } else {
            assert(seen_of(self.snap(), sel) =~= Seq::empty());
        }
    }

    pub proof fn table_is_ok(&self)
        requires
            self.wf(),
        ensures
            table_ok(self.table()),
            self.table() == table_of(self.meta().decls),
    {
    }

    /// Decode and keep the traces of the given signals; those already kept
    /// are not decoded again.
    pub fn ensure_loaded(&mut self, sids: &Vec<Sid>)
        requires
            old(self).wf(),
            in_table(sids@, old(self).table().len()),
        ensures
            final(self).wf(),
            final(self).same_wave(old(self)),
            forall|s: int|
                0 <= s < old(self).table().len() ==> #[trigger] final(self).loaded(s) == (old(
                    self,
                ).loaded(s) || sids@.contains(s as usize)),
    {
        let mut need: Vec<Sid> = Vec::new();
        let mut handles: Vec<BackendSid> = Vec::new();
        let mut wanted: Vec<bool> = Vec::new();
        let count: usize = self.signals.len();
        let mut k: usize = 0;
        while k < count
            invariant
                k <= count,
                wanted.len() == k,
                forall|s: int| 0 <= s < k ==> !(#[trigger] wanted@[s]),
            decreases count - k,
        {
            wanted.push(false);
            k += 1;
        }
        let mut i: usize = 0;
        while i < sids.len()
            invariant
                i <= sids.len(),
                self == old(self),
                self.wf(),
                count == self.signals@.len(),
                in_table(sids@, self.table().len()),
                wanted.len() == count,
                need.len() == handles.len(),
                forall|j: int|
                    0 <= j < need.len() ==> (#[trigger] need@[j]) < count && wanted@[need@[j] as int]
                        && handles@[j] == self.signals@[need@[j] as int].backend_sid,
                forall|s: int|
                    0 <= s < count ==> #[trigger] wanted@[s] == (self.traces@[s] is None
                        && sids@.take(i as int).contains(s as usize)),
                forall|s: int| 0 <= s < count && #[trigger] wanted@[s] ==> need@.contains(s as usize),
            decreases sids.len() - i,
        {
            let sid: Sid = sids[i];
            assert(sids@[i as int] < self.table().len());
            let ghost was = sids@.take(i as int);
            let ghost now = sids@.take(i + 1);
            let ghost w0 = wanted@;
            let ghost n0 = need@;
            proof {
                assert(now =~= was.push(sid));
                assert forall|x: usize| now.contains(x) == (was.contains(x) || x == sid) by {
                    assert(now[i as int] == sid);
                    if was.contains(x) {
                        let q = choose|q: int| 0 <= q < was.len() && was[q] == x;
                        assert(now[q] == x);
                    }
                    if now.contains(x) && x != sid {
                        let q = choose|q: int| 0 <= q < now.len() && now[q] == x;
                        assert(was[q] == x);
                    }
                }
            }
            if self.traces[sid].is_none() && !wanted[sid] {
                wanted.set(sid, true);
                need.push(sid);
                handles.push(self.signals[sid].backend_sid);
                proof {
                    assert forall|j: int| 0 <= j < need@.len() implies (#[trigger] need@[j]) < count
                        && wanted@[need@[j] as int] && handles@[j]
                        == self.signals@[need@[j] as int].backend_sid by {
                        if j < n0.len() {
                            assert(n0[j] == need@[j]);
                        }
                    }
                    assert forall|s: int| 0 <= s < count && #[trigger] wanted@[s] implies need@.contains(
                        s as usize,
                    ) by {
                        if s == sid {
                            assert(need@[n0.len() as int] == s as usize);
                        } else {
                            assert(w0[s]);
                            let q = choose|q: int| 0 <= q < n0.len() && n0[q] == s as usize;
                            assert(need@[q] == s as usize);
                        }
                    }
                }
            }
            i += 1;
        }
        assert(sids@.take(i as int) =~= sids@);
        if need.len() == 0 {
            proof {
                assert forall|s: int| 0 <= s < old(self).table().len() implies #[trigger] self.loaded(s)
                    == (old(self).loaded(s) || sids@.contains(s as usize)) by {
                    if wanted@[s] {
                        assert(need@.contains(s as usize));
                    }
                }
            }
            return;
        }
        let mut decoded: Vec<SignalTrace> = self.backend.load_traces(&handles);
        let ghost all = decoded@;
        let mut j: usize = need.len();
        while j > 0
            invariant
                j <= need.len() == handles.len(),
                decoded.len() == j,
                decoded@ == all.take(j as int),
                all.len() == need.len(),
                count == self.signals@.len() == self.traces@.len() == wanted.len(),
                self.signals == old(self).signals,
                self.raw_var_count == old(self).raw_var_count,
                self.type_counts == old(self).type_counts,
                self.backend.meta() == old(self).backend.meta(),
                forall|s: BackendSid| #[trigger] self.backend.history(s) == old(self).backend.history(s),
                old(self).wf(),
                forall|q: int|
                    0 <= q < need.len() ==> (#[trigger] need@[q]) < count && wanted@[need@[q] as int]
                        && handles@[q] == self.signals@[need@[q] as int].backend_sid,
                forall|q: int|
                    0 <= q < all.len() ==> (#[trigger] all[q]).wf() && all[q]@ == old(
                        self,
                    ).backend.history(handles@[q]),
                forall|s: int|
                    0 <= s < count ==> #[trigger] wanted@[s] == (old(self).traces@[s] is None
                        && sids@.contains(s as usize)),
                forall|s: int| 0 <= s < count && !wanted@[s] ==> #[trigger] self.traces@[s] == old(self).traces@[s],
                forall|s: int|
                    0 <= s < count && #[trigger] self.traces@[s] is Some ==> self.traces@[s]->0.wf()
                        && self.traces@[s]->0@ == self.trace_of(s),
                forall|q: int| j <= q < need.len() ==> self.traces@[#[trigger] need@[q] as int] is Some,
            decreases j,
        {
            j -= 1;
            let last: Option<SignalTrace> = decoded.pop();
            let ghost t0 = self.traces@;
            match last {
                Some(trace) => {
                    assert(trace == all[j as int]);
                    let sid: Sid = need[j];
                    self.traces.set(sid, Some(trace));
                    proof {
                        assert(decoded@ =~= all.take(j as int));
                        assert forall|s: int| 0 <= s < count && #[trigger] self.traces@[s] is Some implies
                            self.traces@[s]->0.wf() && self.traces@[s]->0@ == self.trace_of(s) by {
                            if s != sid {
                                assert(t0[s] == self.traces@[s]);
                            }
                        }
                        assert forall|q: int| j <= q < need@.len() implies self.traces@[#[trigger] need@[q] as int] is Some by {
                            if need@[q] != sid {
                                assert(t0[need@[q] as int] is Some);
                            }
                        }
                    }
                },
                None => {
                    assert(false);
                },
            }
        }
        proof {
            assert forall|s: int| 0 <= s < old(self).table().len() implies #[trigger] self.loaded(s)
                == (old(self).loaded(s) || sids@.contains(s as usize)) by {
                if wanted@[s] {
                    assert(need@.contains(s as usize));
                    let q = choose|q: int| 0 <= q < need@.len() && need@[q] == s as usize;
                    assert(self.traces@[need@[q] as int] is Some);
                } else {
                    assert(self.traces@[s] == old(self).traces@[s]);
                }
            }
        }
    }

    /// Decode and keep every trace.
    pub fn ensure_all_loaded(&mut self)
        requires
            old(self).wf(),
        ensures
            final(self).wf(),
            final(self).same_wave(old(self)),
            forall|s: int| 0 <= s < old(self).table().len() ==> #[trigger] final(self).loaded(s),
    {
        let all: Vec<Sid> = self.every_sid();
        self.ensure_loaded(&all);
        proof {
            assert forall|s: int| 0 <= s < old(self).table().len() implies #[trigger] self.loaded(s) by {
                assert(all@[s] == s as usize);
                assert(all@.contains(s as usize));
            }
        }
    }

    fn every_sid(&self) -> (v: Vec<Sid>)
        ensures
            v@ == selection(None, self.table().len()),
            in_table(v@, self.table().len()),
    {
        let n: usize = self.signals.len();
        let mut v: Vec<Sid> = Vec::new();
        let mut i: usize = 0;
        while i < n
            invariant
                i <= n,
                v.len() == i,
                forall|k: int| 0 <= k < i ==> (#[trigger] v@[k]) == k as usize && v@[k] < n,
            decreases n - i,
        {
            v.push(i);
            i += 1;
        }
        assert(v@ =~= selection(None, self.table().len()));
        v
    }

    /// The selected signals as a list of their own.
    fn listed(&self, sids: Option<&Vec<Sid>>) -> (v: Vec<Sid>)
        ensures
            v@ == selection(sids, self.table().len()),
    {
        match sids {
            None => self.every_sid(),
            Some(s) => copy_range(s, 0, s.len()),
        }
    }

    /// Drop the kept traces of the given signals.
    pub fn release_traces(&mut self, sids: &Vec<Sid>)
        requires
            old(self).wf(),
            in_table(sids@, old(self).table().len()),
        ensures
            final(self).wf(),
            final(self).same_wave(old(self)),
            forall|s: int|
                0 <= s < old(self).table().len() ==> #[trigger] final(self).loaded(s) == (old(
                    self,
                ).loaded(s) && !sids@.contains(s as usize)),
    {
        let count: usize = self.signals.len();
        let mut i: usize = 0;
        while i < sids.len()
            invariant
                i <= sids.len(),
                count == self.table().len(),
                old(self).wf(),
                self.wf(),
                self.same_wave(old(self)),
                in_table(sids@, self.table().len()),
                forall|s: int|
                    0 <= s < self.table().len() ==> #[trigger] self.loaded(s) == (old(self).loaded(
                        s,
                    ) && !sids@.take(i as int).contains(s as usize)),
            decreases sids.len() - i,
        {
            let sid: Sid = sids[i];
            let ghost was = sids@.take(i as int);
            let ghost now = sids@.take(i + 1);
            let ghost t0 = self.traces@;
            let ghost before = *self;
            assert(sids@[i as int] < self.table().len());
            self.traces.set(sid, None);
            proof {
                assert(now =~= was.push(sid));
                assert forall|s: int| 0 <= s < self.table().len() implies #[trigger] self.trace_of(s)
                    == old(self).trace_of(s) by {
                    assert(self.trace_of(s) == before.trace_of(s));
                }
                assert forall|s: int| 0 <= s < self.table().len() implies #[trigger] self.loaded(s)
                    == (old(self).loaded(s) && !now.contains(s as usize)) by {
                    if s == sid {
                        assert(!self.loaded(s));
                        assert(now[i as int] == s as usize);
                    } else {
                        assert(self.traces@[s] == t0[s]);
                        assert(before.loaded(s) == self.loaded(s));
                        if was.contains(s as usize) {
                            let q = choose|q: int| 0 <= q < was.len() && was[q] == s as usize;
                            assert(now[q] == s as usize);
                        }
                        if now.contains(s as usize) {
                            let q = choose|q: int| 0 <= q < now.len() && now[q] == s as usize;
                            assert(was[q] == s as usize);
                        }
                    }
                }
                assert forall|s: int| 0 <= s < self.traces@.len() && #[trigger] self.traces@[s] is Some implies
                    self.traces@[s]->0.wf() && self.traces@[s]->0@ == self.trace_of(s) by {
                    assert(self.traces@[s] == t0[s]);
                }
            }
            i += 1;
        }
        assert(sids@.take(i as int) =~= sids@);
    }

    /// The number of traces that are kept.
    pub fn resident_trace_count(&self) -> (n: usize)
        requires
            self.wf(),
        ensures
            n == self.loaded_sightings(selection(None, self.table().len())).len(),
    {
        let all: Vec<Sid> = self.every_sid();
        let mut n: usize = 0;
        let mut i: usize = 0;
        assert(all@.take(0) =~= Seq::empty());
        while i < all.len()
            invariant
                i <= all.len() == self.traces@.len() == self.table().len(),
                all@ == selection(None, self.table().len()),
                n <= i,
                n == self.loaded_sightings(all@.take(i as int)).len(),
            decreases all.len() - i,
        {
            proof {
                assert(all@.take(i + 1).drop_last() =~= all@.take(i as int));
                assert(all@.take(i + 1).last() == i);
            }
            if self.traces[i].is_some() {
                n += 1;
            }
            i += 1;
        }
        assert(all@.take(i as int) =~= all@);
        n
    }
}

/// Collects the value in force at one or two instants.
pub struct InstantReader {
    ta: i64,
    tb: i64,
    a: HashMap<usize, RawValue>,
    b: HashMap<usize, RawValue>,
    log: Ghost<Seq<Sighting>>,
}

impl InstantReader {
    fn new(ta: i64, tb: i64) -> (r: InstantReader)
        ensures
            r.ok(),
            r.seen() == Seq::<Sighting>::empty(),
            r.ta == ta,
            r.tb == tb,
    {
        broadcast use vstd::std_specs::hash::group_hash_axioms;

        let r = InstantReader {
            ta,
            tb,
            a: HashMap::new(),
            b: HashMap::new(),
            log: Ghost(Seq::empty()),
        };
        assert(map_view(r.a@) =~= Map::empty());
        assert(map_view(r.b@) =~= Map::empty());
        r
    }
}

impl TraceVisitor for InstantReader {
    closed spec fn ok(&self) -> bool {
        &&& map_view(self.a@) == values_at(self.log@, self.ta as int)
        &&& map_view(self.b@) == values_at(self.log@, self.tb as int)
    }

    closed spec fn seen(&self) -> Seq<Sighting> {
        self.log@
    }

    closed spec fn fixed(&self, other: &Self) -> bool {
        self.ta == other.ta && self.tb == other.tb
    }

    fn visit(&mut self, sid: Sid, trace: &SignalTrace) {
        broadcast use vstd::std_specs::hash::group_hash_axioms;

        let ghost log1 = self.log@.push((sid, trace@));
        assert(log1.drop_last() =~= self.log@);
        let ghost a0 = map_view(self.a@);
        let ghost b0 = map_view(self.b@);
        match trace.value_at(self.ta) {
            Some(v) => {
                let ghost vv = v@;
                self.a.insert(sid, v);
                assert(map_view(self.a@) =~= a0.insert(sid, vv));
            },
            None => {},
        }
        match trace.value_at(self.tb) {
            Some(v) => {
                let ghost vv = v@;
                self.b.insert(sid, v);
                assert(map_view(self.b@) =~= b0.insert(sid, vv));
            },
            None => {},
        }
        self.log = Ghost(log1);
    }

    proof fn fixed_chain(&self, mid: &Self, first: &Self) {
    }

    proof fn fixed_self(&self) {
    }
}

/// The values in force are those of the full histories.
proof fn lemma_shown_values(
    seen: Seq<Sighting>,
    full: Seq<Sighting>,
    from: int,
    to: int,
    t: int,
)
    requires
        shows(seen, full, from, Some(to)),
        from <= t <= to,
    ensures
        values_at(seen, t) == values_at(full, t),
    decreases seen.len(),
{
    if seen.len() > 0 {
        let s1 = seen.drop_last();
        let f1 = full.drop_last();
        assert forall|i: int| 0 <= i < s1.len() implies {
            &&& (#[trigger] s1[i]).0 == f1[i].0
            &&& in_time_order(s1[i].1)
            &&& in_time_order(f1[i].1)
            &&& window_of(s1[i].1, f1[i].1, from, Some(to))
        } by {
            assert(s1[i] == seen[i]);
        }
        lemma_shown_values(s1, f1, from, to, t);
        let n = seen.len() - 1;
        assert(seen[n].0 == full[n].0);
        window_keeps_values(seen[n].1, full[n].1, from, to, t);
    }
}

/// The events behind the first tick shown are those of the full histories.
proof fn lemma_shown_events(
    seen: Seq<Sighting>,
    full: Seq<Sighting>,
    decls: Seq<nat>,
    from: int,
    to: Option<int>,
)
    requires
        shows(seen, full, from, to),
    ensures
        event_lists(seen, decls, from + 1, to) == event_lists(full, decls, from + 1, to),
{
    let a = event_lists(seen, decls, from + 1, to);
    let b = event_lists(full, decls, from + 1, to);
    assert forall|i: int| 0 <= i < a.len() implies a[i] == b[i] by {
        assert(seen[i].0 == full[i].0);
    }
    assert(a =~= b);
}

/// Collects events in replay order, keeping at most a given number.
pub struct EventCollector {
    t0: i64,
    t1: Option<i64>,
    limit: usize,
    decl_order: Vec<usize>,
    lists: Vec<Vec<DumpEvent>>,
    keep: Vec<DumpEvent>,
    total: usize,
    log: Ghost<Seq<Sighting>>,
}

impl EventCollector {
    spec fn decls(&self) -> Seq<nat> {
        self.decl_order@.map_values(|d: usize| d as nat)
    }

    spec fn wanted(&self) -> Seq<Seq<EventView>> {
        event_lists(self.log@, self.decls(), self.t0 as int, opt_tick(self.t1))
    }
}

impl TraceVisitor for EventCollector {
    closed spec fn ok(&self) -> bool {
        &&& self.total == least(replay(self.wanted()).len() as int, usize::MAX as int)
        &&& self.limit == 0 ==> list_views(self.lists@) == self.wanted()
        &&& self.limit != 0 ==> event_views(self.keep@) == prefix(
            replay(self.wanted()),
            self.limit as int,
        )
    }

    closed spec fn seen(&self) -> Seq<Sighting> {
        self.log@
    }

    closed spec fn fixed(&self, other: &Self) -> bool {
        &&& self.t0 == other.t0
        &&& self.t1 == other.t1
        &&& self.limit == other.limit
        &&& self.decl_order@ == other.decl_order@
    }

    fn visit(&mut self, sid: Sid, trace: &SignalTrace) {
        let ghost old_lists = self.wanted();
        let ghost log1 = self.log@.push((sid, trace@));
        let decl: usize = if sid < self.decl_order.len() {
            self.decl_order[sid]
        } else {
            0
        };
        let events: Vec<DumpEvent> = trace_events(sid, decl, trace, self.t0, self.t1);
        let ghost ev = event_views(events@);
        let ghost new_lists = event_lists(log1, self.decls(), self.t0 as int, opt_tick(self.t1));
        proof {
            assert(new_lists =~= old_lists.push(ev));
            assert(new_lists.drop_last() =~= old_lists);
            crate::replay::merge_keeps_events(replay(old_lists), ev);
            assert(ev.len() == events@.len());
        }
        let n: usize = events.len();
        self.total = if n <= usize::MAX - self.total {
            self.total + n
        } else {
            usize::MAX
        };
        if self.limit == 0 {
            let ghost l0 = self.lists@;
            self.lists.push(events);
            assert(list_views(self.lists@) =~= list_views(l0).push(ev));
        } else {
            let kept: Vec<DumpEvent> = merge_events(&self.keep, &events, self.limit);
            proof {
                merge_of_prefixes(
                    replay(old_lists),
                    ev,
                    self.limit as int,
                    self.limit as int,
                );
            }
            self.keep = kept;
        }
        self.log = Ghost(log1);
    }

    proof fn fixed_chain(&self, mid: &Self, first: &Self) {
    }

    proof fn fixed_self(&self) {
    }
}

impl<B: WaveformBackend> Wave<B> {
    /// Show every selected signal to `visitor`, decoding at most `batch` of
    /// them at a time. What was kept before stays kept, and nothing else does.
    pub fn for_each_signal_batched<V: TraceVisitor>(
        &mut self,
        sids: Option<&Vec<Sid>>,
        batch: usize,
        visitor: &mut V,
    )
        requires
            old(self).wf(),
            in_table(selection(sids, old(self).table().len()), old(self).table().len()),
            old(visitor).ok(),
            old(visitor).seen().len() + selection(sids, old(self).table().len()).len()
                <= usize::MAX,
        ensures
            final(self).wf(),
            final(self).same_wave(old(self)),
            forall|s: int|
                0 <= s < old(self).table().len() ==> #[trigger] final(self).loaded(s) == old(
                    self,
                ).loaded(s),
            final(visitor).ok(),
            final(visitor).fixed(old(visitor)),
            final(visitor).seen() == old(visitor).seen() + old(self).sightings(
                selection(sids, old(self).table().len()),
            ),
            forall|i: int|
                0 <= i < selection(sids, old(self).table().len()).len() ==> in_time_order(
                    #[trigger] old(self).sightings(
                        selection(sids, old(self).table().len()),
                    )[i].1,
                ),
    {
        let step: usize = if batch == 0 {
            1
        } else {
            batch
        };
        let all: Vec<Sid> = self.listed(sids);
        let ghost full = old(self).sightings(all@);
        let total: usize = all.len();
        let count: usize = self.signals.len();
        let mut i: usize = 0;
        proof {
            visitor.fixed_self();
            assert(visitor.seen() =~= old(visitor).seen() + full.take(0));
        }
        while i < total
            invariant
                i <= total == all.len(),
                step > 0,
                self.wf(),
                self.same_wave(old(self)),
                count == self.table().len(),
                in_table(all@, self.table().len()),
                full == old(self).sightings(all@),
                forall|s: int|
                    0 <= s < self.table().len() ==> #[trigger] self.loaded(s) == old(self).loaded(
                        s,
                    ),
                visitor.ok(),
                visitor.fixed(old(visitor)),
                old(visitor).seen().len() + total <= usize::MAX,
                visitor.seen() == old(visitor).seen() + full.take(i as int),
                forall|q: int| 0 <= q < i ==> in_time_order(#[trigger] full[q].1),
            decreases total - i,
        {
            let end: usize = if step > total - i {
                total
            } else {
                i + step
            };
            let chunk: Vec<Sid> = copy_range(&all, i, end);
            let ghost before = *self;
            assert forall|q: int| 0 <= q < chunk@.len() implies (#[trigger] chunk@[q]) < count by {
                assert(all@[i + q] < self.table().len());
            }
            let fresh: Vec<Sid> = self.missing(&chunk);
            self.ensure_loaded(&chunk);
            let ghost during = *self;
            let mut k: usize = 0;
            while k < chunk.len()
                invariant
                    k <= chunk.len() == end - i,
                    i < end <= total == all.len(),
                    chunk@ == all@.subrange(i as int, end as int),
                    *self == during,
                    during.wf(),
                    during.same_wave(old(self)),
                    in_table(chunk@, during.table().len()),
                    forall|q: int| 0 <= q < chunk.len() ==> during.loaded(#[trigger] chunk@[q] as int),
                    full == old(self).sightings(all@),
                    visitor.ok(),
                    visitor.fixed(old(visitor)),
                    old(visitor).seen().len() + total <= usize::MAX,
                    visitor.seen() == old(visitor).seen() + full.take(i + k),
                    forall|q: int| 0 <= q < i + k ==> in_time_order(#[trigger] full[q].1),
                decreases chunk.len() - k,
            {
                let sid: Sid = chunk[k];
                let ghost v0 = *visitor;
                assert(sid == all@[i + k]);
                assert(during.loaded(chunk@[k as int] as int));
                assert(full[i + k] == (sid, during.trace_of(sid as int)));
                match &self.traces[sid] {
                    Some(trace) => {
                        visitor.visit(sid, trace);
                        proof {
                            visitor.fixed_chain(&v0, old(visitor));
                            assert(visitor.seen() =~= old(visitor).seen() + full.take(i + k + 1));
                        }
                    },
                    None => {
                        assert(false);
                    },
                }
                k += 1;
            }
            self.release_traces(&fresh);
            proof {
                assert forall|s: int| 0 <= s < self.table().len() implies #[trigger] self.loaded(s)
                    == old(self).loaded(s) by {
                    assert(during.loaded(s) == (before.loaded(s) || chunk@.contains(s as usize)));
                    assert(before.loaded(s) == old(self).loaded(s));
                }
                assert forall|s: int| 0 <= s < self.table().len() implies #[trigger] self.trace_of(s)
                    == old(self).trace_of(s) by {
                    assert(self.trace_of(s) == during.trace_of(s));
                    assert(during.trace_of(s) == before.trace_of(s));
                }
            }
            i = end;
        }
        assert(full.take(total as int) =~= full);
    }

    /// Those of the given signals that are not loaded.
    fn missing(&self, sids: &Vec<Sid>) -> (r: Vec<Sid>)
        requires
            self.wf(),
            in_table(sids@, self.table().len()),
        ensures
            in_table(r@, self.table().len()),
            forall|s: usize|
                s < self.table().len() ==> #[trigger] r@.contains(s) == (sids@.contains(s)
                    && !self.loaded(s as int)),
    {
        let mut r: Vec<Sid> = Vec::new();
        let mut i: usize = 0;
        while i < sids.len()
            invariant
                i <= sids.len(),
                self.wf(),
                in_table(sids@, self.table().len()),
                forall|q: int|
                    0 <= q < r.len() ==> (#[trigger] r@[q]) < self.table().len() && !self.loaded(
                        r@[q] as int,
                    ) && sids@.contains(r@[q]),
                forall|q: int|
                    0 <= q < i && !self.loaded(sids@[q] as int) ==> r@.contains(#[trigger] sids@[q]),
            decreases sids.len() - i,
        {
            let sid: Sid = sids[i];
            assert(sids@[i as int] < self.table().len());
            let ghost r0 = r@;
            if self.traces[sid].is_none() {
                r.push(sid);
                proof {
                    assert(r@[r0.len() as int] == sid);
                    assert forall|q: int| 0 <= q < i && !self.loaded(sids@[q] as int) implies r@.contains(
                        #[trigger] sids@[q],
                    ) by {
                        assert(r0.contains(sids@[q]));
                        let p = choose|p: int| 0 <= p < r0.len() && r0[p] == sids@[q];
                        assert(r@[p] == sids@[q]);
                    }
                    assert forall|q: int| 0 <= q < r@.len() implies (#[trigger] r@[q])
                        < self.table().len() && !self.loaded(r@[q] as int) && sids@.contains(r@[q]) by {
                        if q < r0.len() {
                            assert(r0[q] == r@[q]);
                        } else {
                            assert(sids@[i as int] == r@[q]);
                        }
                    }
                }
            }
            i += 1;
        }
        proof {
            assert forall|s: usize| s < self.table().len() implies #[trigger] r@.contains(s) == (
            sids@.contains(s) && !self.loaded(s as int)) by {
                if sids@.contains(s) {
                    let q = choose|q: int| 0 <= q < sids@.len() && sids@[q] == s;
                    assert(sids@[q] == s);
                }
                if r@.contains(s) {
                    let q = choose|q: int| 0 <= q < r@.len() && r@[q] == s;
                    assert(r@[q] == s);
                }
            }
        }
        r
    }

    /// Show every selected signal to `visitor` with enough of its history for
    /// the ticks from `from` to `to`. Nothing decoded here is kept.
    pub fn for_each_signal_windowed<V: TraceVisitor>(
        &mut self,
        sids: Option<&Vec<Sid>>,
        from: i64,
        to: Option<i64>,
        batch: usize,
        visitor: &mut V,
    )
        requires
            old(self).wf(),
            in_table(selection(sids, old(self).table().len()), old(self).table().len()),
            old(visitor).ok(),
            old(visitor).seen() == Seq::<Sighting>::empty(),
            selection(sids, old(self).table().len()).len() <= usize::MAX,
        ensures
            final(self).wf(),
            final(self).same_wave(old(self)),
            forall|s: int|
                0 <= s < old(self).table().len() ==> #[trigger] final(self).loaded(s) == old(
                    self,
                ).loaded(s),
            final(visitor).ok(),
            final(visitor).fixed(old(visitor)),
            shows(
                final(visitor).seen(),
                old(self).sightings(selection(sids, old(self).table().len())),
                from as int,
                opt_tick(to),
            ),
            !old(self).meta().windowed ==> final(visitor).seen() == old(self).sightings(
                selection(sids, old(self).table().len()),
            ),
    {
        if !self.backend.supports_windowed() {
            self.for_each_signal_batched(sids, batch, visitor);
            proof {
                let full = old(self).sightings(selection(sids, old(self).table().len()));
                assert(visitor.seen() =~= full);
                assert forall|i: int| 0 <= i < full.len() implies {
                    &&& (#[trigger] full[i]).0 == full[i].0
                    &&& in_time_order(full[i].1)
                    &&& window_of(full[i].1, full[i].1, from as int, opt_tick(to))
                } by {
                    crate::backend::history_is_window(full[i].1, from as int, opt_tick(to));
                }
            }
            return;
        }
        let step: usize = if batch == 0 {
            1
        } else {
            batch
        };
        let all: Vec<Sid> = self.listed(sids);
        let ghost full = old(self).sightings(all@);
        let total: usize = all.len();
        let mut i: usize = 0;
        proof {
            visitor.fixed_self();
        }
        while i < total
            invariant
                i <= total == all.len(),
                step > 0,
                self.wf(),
                self.same_wave(old(self)),
                in_table(all@, self.table().len()),
                full == old(self).sightings(all@),
                forall|s: int|
                    0 <= s < self.table().len() ==> #[trigger] self.loaded(s) == old(self).loaded(
                        s,
                    ),
                visitor.ok(),
                visitor.fixed(old(visitor)),
                visitor.seen().len() == i,
                shows(visitor.seen(), full.take(i as int), from as int, opt_tick(to)),
            decreases total - i,
        {
            let end: usize = if step > total - i {
                total
            } else {
                i + step
            };
            let ghost before = *self;
            let mut handles: Vec<BackendSid> = Vec::new();
            let mut k: usize = i;
            while k < end
                invariant
                    i <= k <= end <= total == all.len(),
                    handles.len() == k - i,
                    in_table(all@, self.table().len()),
                    forall|q: int|
                        0 <= q < handles.len() ==> #[trigger] handles@[q]
                            == self.signals@[all@[i + q] as int].backend_sid,
                decreases end - k,
            {
                assert(all@[k as int] < self.table().len());
                handles.push(self.signals[all[k]].backend_sid);
                k += 1;
            }
            let decoded: Vec<SignalTrace> = self.backend.load_traces_windowed(&handles, from, to);
            proof {
                assert forall|s: int| 0 <= s < self.table().len() implies #[trigger] self.trace_of(s)
                    == old(self).trace_of(s) by {
                    assert(self.trace_of(s) == before.trace_of(s));
                }
                assert forall|s: int| 0 <= s < self.table().len() implies #[trigger] self.loaded(s)
                    == old(self).loaded(s) by {
                    assert(self.loaded(s) == before.loaded(s));
                }
                assert forall|s: int| 0 <= s < self.traces@.len() && #[trigger] self.traces@[s] is Some implies
                    self.traces@[s]->0.wf() && self.traces@[s]->0@ == self.trace_of(s) by {
                    assert(before.traces@[s] is Some);
                    assert(before.trace_of(s) == self.trace_of(s));
                }
            }
            proof {
                assert forall|q: int| 0 <= q < decoded@.len() implies (#[trigger] decoded@[q]).wf()
                    && in_time_order(full[i + q].1) && window_of(
                    decoded@[q]@,
                    full[i + q].1,
                    from as int,
                    opt_tick(to),
                ) by {
                    let s = all@[i + q];
                    assert(s < before.table().len());
                    assert(handles@[q] == before.signals@[s as int].backend_sid);
                    assert(before.trace_of(s as int) == old(self).trace_of(s as int));
                    assert(full[i + q] == (s, old(self).trace_of(s as int)));
                }
            }
            let mut j: usize = 0;
            while j < decoded.len()
                invariant
                    j <= decoded.len() == end - i,
                    i < end <= total == all.len(),
                    in_table(all@, old(self).table().len()),
                    full == old(self).sightings(all@),
                    forall|q: int|
                        0 <= q < decoded.len() ==> (#[trigger] decoded@[q]).wf() && in_time_order(
                            full[i + q].1,
                        ) && window_of(decoded@[q]@, full[i + q].1, from as int, opt_tick(to)),
                    visitor.ok(),
                    visitor.fixed(old(visitor)),
                    visitor.seen().len() == i + j,
                    shows(visitor.seen(), full.take(i + j), from as int, opt_tick(to)),
                decreases decoded.len() - j,
            {
                let ghost v0 = *visitor;
                assert(decoded@[j as int].wf());
                visitor.visit(all[i + j], &decoded[j]);
                proof {
                    visitor.fixed_chain(&v0, old(visitor));
                    let s = visitor.seen();
                    let f = full.take(i + j + 1);
                    assert(full.take(i + j).len() == i + j);
                    assert forall|q: int| 0 <= q < s.len() implies {
                        &&& (#[trigger] s[q]).0 == f[q].0
                        &&& in_time_order(s[q].1)
                        &&& in_time_order(f[q].1)
                        &&& window_of(s[q].1, f[q].1, from as int, opt_tick(to))
                    } by {
                        if q < i + j {
                            assert(s[q] == v0.seen()[q]);
                            assert(f[q] == full.take(i + j)[q]);
                        } else {
                            assert(decoded@[j as int].wf());
                        }
                    }
                }
                j += 1;
            }
            i = end;
        }
        assert(full.take(total as int) =~= full);
    }

    /// The values in force at `t_at` of the selected signals. A signal that is
    /// not loaded, or has no value yet, is left out.
    pub fn snapshot(&self, t_at: i64, sids: Option<&Vec<Sid>>) -> (r: HashMap<Sid, RawValue>)
        requires
            self.wf(),
            in_table(selection(sids, self.table().len()), self.table().len()),
        ensures
            map_view(r@) == values_at(
                self.loaded_sightings(selection(sids, self.table().len())),
                t_at as int,
            ),
    {
        self.snapshot_pair(t_at, t_at, sids).0
    }

    /// The values in force at `ta` and at `tb`.
    pub fn snapshot_pair(&self, ta: i64, tb: i64, sids: Option<&Vec<Sid>>) -> (r: (
        HashMap<Sid, RawValue>,
        HashMap<Sid, RawValue>,
    ))
        requires
            self.wf(),
            in_table(selection(sids, self.table().len()), self.table().len()),
        ensures
            map_view(r.0@) == values_at(
                self.loaded_sightings(selection(sids, self.table().len())),
                ta as int,
            ),
            map_view(r.1@) == values_at(
                self.loaded_sightings(selection(sids, self.table().len())),
                tb as int,
            ),
    {
        let all: Vec<Sid> = self.listed(sids);
        let mut reader = InstantReader::new(ta, tb);
        let mut i: usize = 0;
        let n: usize = all.len();
        proof {
            assert(all@.take(0) =~= Seq::empty());
        }
        while i < n
            invariant
                i <= n == all.len(),
                self.wf(),
                in_table(all@, self.table().len()),
                reader.ok(),
                reader.ta == ta,
                reader.tb == tb,
                reader.seen().len() <= i,
                reader.seen() == self.loaded_sightings(all@.take(i as int)),
            decreases n - i,
        {
            let sid: Sid = all[i];
            proof {
                assert(all@[i as int] < self.table().len());
                assert(all@.take(i + 1).drop_last() =~= all@.take(i as int));
                assert(all@.take(i + 1).last() == sid);
            }
            match &self.traces[sid] {
                Some(trace) => {
                    assert(self.traces@[sid as int] is Some);
                    reader.visit(sid, trace);
                },
                None => {},
            }
            i += 1;
        }
        assert(all@.take(n as int) =~= all@);
        (reader.a, reader.b)
    }

    /// The values in force at `t_at` of the selected signals, decoding at most
    /// `batch` of them at a time.
    pub fn snapshot_streaming(
        &mut self,
        t_at: i64,
        sids: Option<&Vec<Sid>>,
        batch: usize,
    ) -> (r: HashMap<Sid, RawValue>)
        requires
            old(self).wf(),
            in_table(selection(sids, old(self).table().len()), old(self).table().len()),
        ensures
            final(self).wf(),
            final(self).same_wave(old(self)),
            forall|s: int|
                0 <= s < old(self).table().len() ==> #[trigger] final(self).loaded(s) == old(
                    self,
                ).loaded(s),
            map_view(r@) == values_at(
                old(self).sightings(selection(sids, old(self).table().len())),
                t_at as int,
            ),
    {
        let n: usize = self.selected_count(sids);
        let mut reader = InstantReader::new(t_at, t_at);
        self.for_each_signal_windowed(sids, t_at, Some(t_at), batch, &mut reader);
        proof {
            lemma_shown_values(
                reader.seen(),
                old(self).sightings(selection(sids, old(self).table().len())),
                t_at as int,
                t_at as int,
                t_at as int,
            );
        }
        reader.a
    }

    /// The number of selected signals.
    fn selected_count(&self, sids: Option<&Vec<Sid>>) -> (n: usize)
        ensures
            n == selection(sids, self.table().len()).len(),
    {
        match sids {
            Some(v) => v.len(),
            None => self.signals.len(),
        }
    }

    /// The values in force at `ta` and at `tb`, decoding at most `batch`
    /// signals at a time. A reader that can seek is asked for the two instants
    /// separately.
    pub fn snapshot_pair_streaming(
        &mut self,
        ta: i64,
        tb: i64,
        sids: Option<&Vec<Sid>>,
        batch: usize,
    ) -> (r: (HashMap<Sid, RawValue>, HashMap<Sid, RawValue>))
        requires
            old(self).wf(),
            ta <= tb,
            in_table(selection(sids, old(self).table().len()), old(self).table().len()),
        ensures
            final(self).wf(),
            final(self).same_wave(old(self)),
            forall|s: int|
                0 <= s < old(self).table().len() ==> #[trigger] final(self).loaded(s) == old(
                    self,
                ).loaded(s),
            map_view(r.0@) == values_at(
                old(self).sightings(selection(sids, old(self).table().len())),
                ta as int,
            ),
            map_view(r.1@) == values_at(
                old(self).sightings(selection(sids, old(self).table().len())),
                tb as int,
            ),
    {
        if self.backend.supports_windowed() && ta != tb {
            let a: HashMap<Sid, RawValue> = self.snapshot_streaming(ta, sids, batch);
            let ghost mid = *self;
            let b: HashMap<Sid, RawValue> = self.snapshot_streaming(tb, sids, batch);
            proof {
                let sel = selection(sids, old(self).table().len());
                assert forall|s: int| 0 <= s < old(self).table().len() implies #[trigger] self.trace_of(
                    s,
                ) == old(self).trace_of(s) by {
                    assert(self.trace_of(s) == mid.trace_of(s));
                }
                assert forall|s: int| 0 <= s < old(self).table().len() implies #[trigger] self.loaded(
                    s,
                ) == old(self).loaded(s) by {
                    assert(self.loaded(s) == mid.loaded(s));
                }
                assert forall|i: int| 0 <= i < sel.len() implies mid.sightings(sel)[i] == old(
                    self,
                ).sightings(sel)[i] by {
                    assert(sel[i] < old(self).table().len());
                    assert(mid.trace_of(sel[i] as int) == old(self).trace_of(sel[i] as int));
                }
                assert(mid.sightings(sel) =~= old(self).sightings(sel));
            }
            return (a, b);
        }
        let n: usize = self.selected_count(sids);
        let mut reader = InstantReader::new(ta, tb);
        self.for_each_signal_windowed(sids, ta, Some(tb), batch, &mut reader);
        proof {
            let full = old(self).sightings(selection(sids, old(self).table().len()));
            lemma_shown_values(reader.seen(), full, ta as int, tb as int, ta as int);
            lemma_shown_values(reader.seen(), full, ta as int, tb as int, tb as int);
        }
        (reader.a, reader.b)
    }

    /// The declaration order of every signal.
    fn decl_order_list(&self) -> (v: Vec<usize>)
        ensures
            v@.map_values(|d: usize| d as nat) == decl_orders(self.table()),
    {
        let mut v: Vec<usize> = Vec::new();
        let mut i: usize = 0;
        while i < self.signals.len()
            invariant
                i <= self.signals.len(),
                v.len() == i,
                forall|k: int| 0 <= k < i ==> #[trigger] v@[k] == self.signals@[k].decl_order,
            decreases self.signals.len() - i,
        {
            v.push(self.signals[i].decl_order);
            i += 1;
        }
        assert(v@.map_values(|d: usize| d as nat) =~= decl_orders(self.table()));
        v
    }

    /// The changes of the loaded selected signals from `t0` to `t1`, in replay
    /// order.
    pub fn for_each_event(
        &self,
        t0: i64,
        t1: Option<i64>,
        sids: Option<&Vec<Sid>>,
    ) -> (r: Vec<DumpEvent>)
        requires
            self.wf(),
            in_table(selection(sids, self.table().len()), self.table().len()),
        ensures
            event_views(r@) == replay(
                event_lists(
                    self.loaded_sightings(selection(sids, self.table().len())),
                    decl_orders(self.table()),
                    t0 as int,
                    opt_tick(t1),
                ),
            ),
            events_in(event_views(r@), self.table().len()),
    {
        let all: Vec<Sid> = self.listed(sids);
        let decl_order: Vec<usize> = self.decl_order_list();
        let mut c = collector(t0, t1, 0, decl_order);
        let mut i: usize = 0;
        let n: usize = all.len();
        proof {
            assert(all@.take(0) =~= Seq::empty());
        }
        let ghost start = c;
        while i < n
            invariant
                i <= n == all.len(),
                self.wf(),
                in_table(all@, self.table().len()),
                c.ok(),
                c.fixed(&start),
                c.seen().len() <= i,
                c.seen() == self.loaded_sightings(all@.take(i as int)),
                of_table(c.seen(), self.table().len()),
            decreases n - i,
        {
            let sid: Sid = all[i];
            proof {
                assert(all@[i as int] < self.table().len());
                assert(all@.take(i + 1).drop_last() =~= all@.take(i as int));
                assert(all@.take(i + 1).last() == sid);
            }
            match &self.traces[sid] {
                Some(trace) => {
                    assert(self.traces@[sid as int] is Some);
                    c.visit(sid, trace);
                },
                None => {},
            }
            i += 1;
        }
        assert(all@.take(n as int) =~= all@);
        proof {
            lemma_events_in(
                c.seen(),
                decl_orders(self.table()),
                t0 as int,
                opt_tick(t1),
                self.table().len(),
            );
        }
        merge_all(&c.lists)
    }

    /// The changes of the selected signals from `t0` to `t1` in replay order,
    /// at most `limit` of them unless `limit` is zero, with the number there
    /// are in all and whether some were left out. At most `batch` signals are
    /// decoded at a time.
    pub fn collect_events_bounded(
        &mut self,
        t0: i64,
        t1: Option<i64>,
        sids: Option<&Vec<Sid>>,
        limit: usize,
        batch: usize,
    ) -> (r: (Vec<DumpEvent>, usize, bool))
        requires
            old(self).wf(),
            in_table(selection(sids, old(self).table().len()), old(self).table().len()),
        ensures
            final(self).wf(),
            final(self).same_wave(old(self)),
            forall|s: int|
                0 <= s < old(self).table().len() ==> #[trigger] final(self).loaded(s) == old(
                    self,
                ).loaded(s),
            r.2 == (limit != 0 && r.1 > limit),
            events_in(event_views(r.0@), old(self).table().len()),
            ({
                let full = old(self).sightings(selection(sids, old(self).table().len()));
                let want = replay(
                    event_lists(full, decl_orders(old(self).table()), t0 as int, opt_tick(t1)),
                );
                &&& event_views(r.0@) == clipped(want, limit)
                &&& r.1 == least(want.len() as int, usize::MAX as int)
            }),
    {
        let n: usize = self.selected_count(sids);
        let decl_order: Vec<usize> = self.decl_order_list();
        let mut c = collector(t0, t1, limit, decl_order);
        // A window may leave out all but the last change at its first tick, so it
        // starts one tick early.
        if t0 == i64::MIN {
            self.for_each_signal_batched(sids, batch, &mut c);
        } else {
            self.for_each_signal_windowed(sids, t0 - 1, t1, batch, &mut c);
        }
        proof {
            let full = old(self).sightings(selection(sids, old(self).table().len()));
            let decls = decl_orders(old(self).table());
            assert forall|i: int| 0 <= i < c.seen().len() implies (#[trigger] c.seen()[i]).0
                < old(self).table().len() by {
                let sel = selection(sids, old(self).table().len());
                assert(c.seen()[i].0 == full[i].0);
                assert(sel[i] < old(self).table().len());
            }
            lemma_events_in(c.seen(), decls, t0 as int, opt_tick(t1), old(self).table().len());
            if t0 == i64::MIN {
                assert(c.seen() =~= full);
            } else {
                lemma_shown_events(c.seen(), full, decls, t0 - 1, opt_tick(t1));
            }
        }
        let truncated = limit != 0 && c.total > limit;
        let total: usize = c.total;
        let events: Vec<DumpEvent> = if limit == 0 {
            merge_all(&c.lists)
        } else {
            c.keep
        };
        (events, total, truncated)
    }
}

/// Are the signals seen in a table of `n`?
spec fn of_table(seen: Seq<Sighting>, n: nat) -> bool {
    forall|i: int| 0 <= i < seen.len() ==> (#[trigger] seen[i]).0 < n
}

proof fn lemma_events_in(seen: Seq<Sighting>, decls: Seq<nat>, lo: int, hi: Option<int>, n: nat)
    requires
        of_table(seen, n),
    ensures
        events_in(replay(event_lists(seen, decls, lo, hi)), n),
{
    let lists = event_lists(seen, decls, lo, hi);
    assert forall|i: int| 0 <= i < lists.len() implies events_in(#[trigger] lists[i], n) by {
        assert(seen[i].0 < n);
    }
    replay_keeps_signals(lists, n);
}

fn collector(t0: i64, t1: Option<i64>, limit: usize, decl_order: Vec<usize>) -> (c: EventCollector)
    ensures
        c.ok(),
        c.seen() == Seq::<Sighting>::empty(),
        c.t0 == t0,
        c.t1 == t1,
        c.limit == limit,
        c.decl_order == decl_order,
{
    let c = EventCollector {
        t0,
        t1,
        limit,
        decl_order,
        lists: Vec::new(),
        keep: Vec::new(),
        total: 0,
        log: Ghost(Seq::empty()),
    };
    proof {
        assert(c.wanted() =~= Seq::empty());
        assert(replay(c.wanted()) =~= Seq::empty());
        assert(list_views(c.lists@) =~= c.wanted());
        assert(event_views(c.keep@) =~= prefix(replay(c.wanted()), limit as int));
    }
    c
}

/// A copy of `v[from..to]`.
pub fn copy_range(v: &Vec<usize>, from: usize, to: usize) -> (r: Vec<usize>)
    requires
        from <= to <= v.len(),
    ensures
        r@ == v@.subrange(from as int, to as int),
        from == 0 && to == v.len() ==> r@ == v@,
{
    let mut r: Vec<usize> = Vec::new();
    let mut i: usize = from;
    while i < to
        invariant
            from <= i <= to <= v.len(),
            r@ == v@.subrange(from as int, i as int),
        decreases to - i,
    {
        r.push(v[i]);
        i += 1;
        assert(r@ =~= v@.subrange(from as int, i as int));
    }
    assert(from == 0 && to == v.len() ==> r@ =~= v@);
    r
}

} // verus!
