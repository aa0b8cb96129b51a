//! A waveform held in memory.

use vstd::prelude::*;

use crate::backend::{
    slice_is_window, window_of, window_slice, FileFormat, MetaView, WaveformBackend,
};
use crate::history::{in_time_order, upto_splits, ChangeView, SignalTrace};
use crate::replay::opt_tick;
use crate::signal::{decl_views, BackendSid, VarDecl};
use crate::text::{clone_strings, views};

verus! {

/// What a file says of itself.
pub struct FileInfo {
    pub path: String,
    pub format: FileFormat,
    pub timescale: String,
    pub date: String,
    pub version: String,
    pub comments: Vec<String>,
    pub time_range: Option<(i64, i64)>,
    pub time_steps: usize,
}

/// A waveform whose traces are given. The handle of a signal is the position
/// of its trace.
pub struct MemoryBackend {
    info: FileInfo,
    decls: Vec<VarDecl>,
    windowed: bool,
    traces: Vec<SignalTrace>,
}

impl VarDecl {
    pub fn duplicate(&self) -> (r: VarDecl)
        ensures
            r@ == self@,
    {
        VarDecl {
            full_path: self.full_path.clone(),
            scope_path: self.scope_path.clone(),
            width: self.width,
            type_str: self.type_str,
            kind: self.kind,
            backend_sid: self.backend_sid,
        }
    }
}

impl SignalTrace {
    /// The part of the trace that answers questions about the ticks from
    /// `from` to `to`: the last change at or before `from`, and the changes
    /// after it up to `to`.
    pub fn window(&self, from: i64, to: Option<i64>) -> (w: SignalTrace)
        requires
            self.wf(),
        ensures
            w.wf(),
            w@ == window_slice(self@, from as int, opt_tick(to)),
            window_of(w@, self@, from as int, opt_tick(to)),
    {
        let n: usize = self.count_upto(from);
        let end: usize = self.upper_bound(to);
        let start: usize = if n > 0 {
            n - 1
        } else {
            0
        };
        let stop: usize = if end > n {
            end
        } else {
            n
        };
        let ghost h = self@;
        let ghost f = from as int;
        proof {
            upto_splits(h, f);
            upto_splits(h, f - 1);
            match to {
                Some(t) => {
                    upto_splits(h, t as int);
                },
                None => {},
            }
        }
        let mut w: SignalTrace = SignalTrace::new();
        let mut i: usize = start;
        assert(w@ =~= h.subrange(start as int, start as int));
        while i < stop
            invariant
                start <= i <= stop <= h.len(),
                h == self@,
                self.wf(),
                w.wf(),
                w@ == h.subrange(start as int, i as int),
            decreases stop - i,
        {
            let ghost w0 = w@;
            proof {
                if w0.len() > 0 {
                    assert(w0[w0.len() - 1] == h[i - 1]);
                }
            }
            w.push(self.times[i], self.values[i].clone());
            assert(w@ =~= h.subrange(start as int, i + 1));
            i += 1;
        }
        proof {
            slice_is_window(h, f, opt_tick(to));
        }
        w
    }
}

impl MemoryBackend {
    #[verifier::type_invariant]
    spec fn ready(self) -> bool {
        forall|i: int| 0 <= i < self.traces@.len() ==> (#[trigger] self.traces@[i]).wf()
    }

    /// A waveform with the given declarations and traces; `windowed` says
    /// whether it answers for time windows on their own.
    pub fn new(info: FileInfo, decls: Vec<VarDecl>, traces: Vec<SignalTrace>, windowed: bool) -> (b:
        MemoryBackend)
        requires
            forall|i: int| 0 <= i < traces.len() ==> (#[trigger] traces@[i]).wf(),
        ensures
            b.meta() == (MetaView {
                path: info.path@,
                format: info.format,
                timescale: info.timescale@,
                date: info.date@,
                version: info.version@,
                comments: views(info.comments@),
                decls: decl_views(decls@),
                time_range: info.time_range,
                time_steps: info.time_steps as nat,
                windowed,
            }),
            forall|s: BackendSid| #[trigger]
                b.history(s) == (if s.0 < traces.len() {
                    traces@[s.0 as int]@
                } else {
                    Seq::empty()
                }),
    {
        MemoryBackend { info, decls, windowed, traces }
    }

    /// The trace of a handle.
    fn find(&self, sid: BackendSid) -> (t: SignalTrace)
        ensures
            t.wf(),
            t@ == self.history(sid),
    {
        proof {
            use_type_invariant(self);
        }
        if sid.0 < self.traces.len() {
            assert(self.traces@[sid.0 as int].wf());
            self.traces[sid.0].duplicate()
        } else {
            SignalTrace::new()
        }
    }
}

impl WaveformBackend for MemoryBackend {
    closed spec fn meta(&self) -> MetaView {
        MetaView {
            path: self.info.path@,
            format: self.info.format,
            timescale: self.info.timescale@,
            date: self.info.date@,
            version: self.info.version@,
            comments: views(self.info.comments@),
            decls: decl_views(self.decls@),
            time_range: self.info.time_range,
            time_steps: self.info.time_steps as nat,
            windowed: self.windowed,
        }
    }

    closed spec fn history(&self, sid: BackendSid) -> Seq<ChangeView> {
        if sid.0 < self.traces@.len() {
            self.traces@[sid.0 as int]@
        } else {
            Seq::empty()
        }
    }

    fn path(&self) -> (s: &str) {
        self.info.path.as_str()
    }

    fn file_format(&self) -> (f: FileFormat) {
        self.info.format
    }

    fn timescale_str(&self) -> (s: String) {
        self.info.timescale.clone()
    }

    fn date(&self) -> (s: &str) {
        self.info.date.as_str()
    }

    fn version(&self) -> (s: &str) {
        self.info.version.as_str()
    }

    fn comments(&self) -> (v: Vec<String>) {
        clone_strings(&self.info.comments)
    }

    fn var_decls(&self) -> (v: Vec<VarDecl>) {
        let mut v: Vec<VarDecl> = Vec::new();
        let mut i: usize = 0;
        while i < self.decls.len()
            invariant
                i <= self.decls.len(),
                decl_views(v@) == decl_views(self.decls@).take(i as int),
            decreases self.decls.len() - i,
        {
            let ghost v0 = decl_views(v@);
            v.push(self.decls[i].duplicate());
            assert(decl_views(v@) =~= v0.push(self.decls@[i as int]@));
            assert(decl_views(v@) =~= decl_views(self.decls@).take(i + 1));
            i += 1;
        }
        assert(decl_views(self.decls@).take(i as int) =~= decl_views(self.decls@));
        v
    }

    fn time_range(&self) -> (r: Option<(i64, i64)>) {
        self.info.time_range
    }

    fn time_step_count(&self) -> (n: usize) {
        self.info.time_steps
    }

    fn load_traces(&mut self, sids: &Vec<BackendSid>) -> (out: Vec<SignalTrace>) {
        let mut out: Vec<SignalTrace> = Vec::new();
        let mut i: usize = 0;
        while i < sids.len()
            invariant
                i <= sids.len(),
                out.len() == i,
                *self == *old(self),
                forall|k: int|
                    0 <= k < out.len() ==> (#[trigger] out@[k]).wf() && out@[k]@ == old(
                        self,
                    ).history(sids@[k]),
            decreases sids.len() - i,
        {
            out.push(self.find(sids[i]));
            i += 1;
        }
        out
    }

    fn supports_windowed(&self) -> (r: bool) {
        self.windowed
    }

    fn load_traces_windowed(
        &mut self,
        sids: &Vec<BackendSid>,
        from: i64,
        to: Option<i64>,
    ) -> (out: Vec<SignalTrace>) {
        let mut out: Vec<SignalTrace> = Vec::new();
        let mut i: usize = 0;
        while i < sids.len()
            invariant
                i <= sids.len(),
                out.len() == i,
                *self == *old(self),
                forall|k: int|
                    0 <= k < out.len() ==> (#[trigger] out@[k]).wf() && in_time_order(
                        old(self).history(sids@[k]),
                    ) && window_of(
                        out@[k]@,
                        old(self).history(sids@[k]),
                        from as int,
                        opt_tick(to),
                    ),
            decreases sids.len() - i,
        {
            let t: SignalTrace = self.find(sids[i]);
            out.push(t.window(from, to));
            i += 1;
        }
        out
    }
}

} // verus!
