//! What a waveform reader has to offer.

use vstd::prelude::*;

use crate::history::{
    changes_in, in_time_order, upto, upto_is_unique, upto_splits, value_at, ChangeView,
    SignalTrace,
};
use crate::replay::opt_tick;
use crate::signal::{decl_views, BackendSid, DeclView, VarDecl};
use crate::text::views;

verus! {

/// The container format of a waveform file.
#[derive(Debug, Clone, Copy, PartialEq, Eq, Structural)]
pub enum FileFormat {
    Vcd,
    Fst,
    Ghw,
    Unknown,
}

impl FileFormat {
    /// A short lower-case name.
    pub fn tag(self) -> (s: &'static str)
        ensures
            s@ == match self {
                FileFormat::Vcd => "vcd"@,
                FileFormat::Fst => "fst"@,
                FileFormat::Ghw => "ghw"@,
                FileFormat::Unknown => "unknown"@,
            },
    {
        match self {
            FileFormat::Vcd => "vcd",
            FileFormat::Fst => "fst",
            FileFormat::Ghw => "ghw",
            FileFormat::Unknown => "unknown",
        }
    }
}

/// Why a file could not be read.
#[derive(Debug)]
pub enum BackendError {
    /// Missing, unreadable, or no regular file.
    Open(String),
    /// Found, but not decodable.
    Parse(String),
}

impl BackendError {
    /// The message for the user.
    pub fn message(&self) -> (s: String)
        ensures
            s@ == match self {
                BackendError::Open(m) => m@,
                BackendError::Parse(m) => m@,
            },
    {
        match self {
            BackendError::Open(m) => m.clone(),
            BackendError::Parse(m) => m.clone(),
        }
    }
}

/// What is fixed about an open file.
pub struct MetaView {
    pub path: Seq<char>,
    pub format: FileFormat,
    pub timescale: Seq<char>,
    pub date: Seq<char>,
    pub version: Seq<char>,
    pub comments: Seq<Seq<char>>,
    pub decls: Seq<DeclView>,
    pub time_range: Option<(i64, i64)>,
    pub time_steps: nat,
    pub windowed: bool,
}

/// Is `w` enough of the history `full` to answer questions about the ticks
/// from `from` to `to`? It has the changes after `from` up to `to` and the value
/// in force at `from`. When that value was taken on is left open.
pub open spec fn window_of(
    w: Seq<ChangeView>,
    full: Seq<ChangeView>,
    from: int,
    to: Option<int>,
) -> bool {
    &&& changes_in(w, from + 1, to) == changes_in(full, from + 1, to)
    &&& value_at(w, from) == value_at(full, from)
}

/// A reader of one open waveform file. The two loading methods may decode
/// lazily and keep what they decoded, but leave the contents as they are.
pub trait WaveformBackend: Sized {
    /// What is fixed about the file.
    closed spec fn meta(&self) -> MetaView {
        arbitrary()
    }

    /// The change history of a signal, empty for an unknown handle.
    closed spec fn history(&self, sid: BackendSid) -> Seq<ChangeView> {
        arbitrary()
    }

    fn path(&self) -> (s: &str)
        ensures
            s@ == self.meta().path,
    ;

    fn file_format(&self) -> (f: FileFormat)
        ensures
            f == self.meta().format,
    ;

    /// The timescale as the file declares it, such as `1ns`.
    fn timescale_str(&self) -> (s: String)
        ensures
            s@ == self.meta().timescale,
    ;

    fn date(&self) -> (s: &str)
        ensures
            s@ == self.meta().date,
    ;

    fn version(&self) -> (s: &str)
        ensures
            s@ == self.meta().version,
    ;

    fn comments(&self) -> (v: Vec<String>)
        ensures
            views(v@) == self.meta().comments,
    ;

    /// The variable declarations in file order.
    fn var_decls(&self) -> (v: Vec<VarDecl>)
        ensures
            decl_views(v@) == self.meta().decls,
    ;

    /// The first and last tick of the file, if it records any.
    fn time_range(&self) -> (r: Option<(i64, i64)>)
        ensures
            r == self.meta().time_range,
    ;

    /// The number of recorded time steps.
    fn time_step_count(&self) -> (n: usize)
        ensures
            n == self.meta().time_steps,
    ;

    /// The change histories of the given signals, in the same order.
    fn load_traces(&mut self, sids: &Vec<BackendSid>) -> (out: Vec<SignalTrace>)
        ensures
            final(self).meta() == old(self).meta(),
            forall|s: BackendSid| #[trigger] final(self).history(s) == old(self).history(s),
            out.len() == sids.len(),
            forall|i: int|
                0 <= i < out.len() ==> (#[trigger] out@[i]).wf() && out@[i]@ == old(self).history(
                    sids@[i],
                ),
    ;

    /// Can the reader decode a time window without the whole history?
    fn supports_windowed(&self) -> (r: bool)
        ensures
            r == self.meta().windowed,
    ;

    /// For each of the given signals, enough of its history for the ticks from
    /// `from` to `to`, in the same order.
    fn load_traces_windowed(
        &mut self,
        sids: &Vec<BackendSid>,
        from: i64,
        to: Option<i64>,
    ) -> (out: Vec<SignalTrace>)
        ensures
            final(self).meta() == old(self).meta(),
            forall|s: BackendSid| #[trigger] final(self).history(s) == old(self).history(s),
            out.len() == sids.len(),
            forall|i: int|
                0 <= i < out.len() ==> (#[trigger] out@[i]).wf() && in_time_order(
                    old(self).history(sids@[i]),
                ) && window_of(
                    out@[i]@,
                    old(self).history(sids@[i]),
                    from as int,
                    opt_tick(to),
                ),
    ;
}

/// The whole history is a window of itself.
pub proof fn history_is_window(h: Seq<ChangeView>, from: int, to: Option<int>)
    ensures
        window_of(h, h, from, to),
{
}

/// A window has the value in force at every tick it covers.
pub proof fn window_keeps_values(
    w: Seq<ChangeView>,
    full: Seq<ChangeView>,
    from: int,
    to: int,
    t: int,
)
    requires
        in_time_order(w),
        in_time_order(full),
        window_of(w, full, from, Some(to)),
        from <= t <= to,
    ensures
        value_at(w, t) == value_at(full, t),
{
    lemma_value_in_window(w, from, to, t);
    lemma_value_in_window(full, from, to, t);
}

/// The value at `t` is that of the last change after `from` and up to `t`, or
/// else the value at `from`.
proof fn lemma_value_in_window(h: Seq<ChangeView>, from: int, to: int, t: int)
    requires
        in_time_order(h),
        from <= t <= to,
    ensures
        ({
            let c = changes_in(h, from + 1, Some(to));
            let n = upto(c, t);
            &&& in_time_order(c)
            &&& value_at(h, t) == (if n == 0 {
                value_at(h, from)
            } else {
                Some(c[n - 1].value)
            })
        }),
{
    upto_splits(h, from);
    upto_splits(h, to);
    upto_splits(h, t);
    let a = upto(h, from);
    let b = upto(h, to);
    let m = upto(h, t);
    assert(from + 1 - 1 == from);
    if a > b {
        assert(h[b].tick <= from);
        assert(h[b].tick > to);
    }
    let c = h.subrange(a, b);
    assert(changes_in(h, from + 1, Some(to)) == c);
    assert forall|i: int, j: int| 0 <= i <= j < c.len() implies (#[trigger] c[i]).tick <= (
    #[trigger] c[j]).tick by {
        assert(h[a + i].tick <= h[a + j].tick);
    }
    if m < a {
        assert(h[m].tick <= from);
        assert(h[m].tick > t);
    }
    if m > b {
        assert(h[b].tick <= t);
        assert(h[b].tick > to);
    }
    let n = m - a;
    assert forall|i: int| 0 <= i < n implies (#[trigger] c[i]).tick <= t by {
        assert(c[i] == h[a + i]);
    }
    assert forall|i: int| n <= i < c.len() implies (#[trigger] c[i]).tick > t by {
        assert(c[i] == h[a + i]);
    }
    upto_is_unique(c, t, n);
    if n > 0 {
        assert(c[n - 1] == h[m - 1]);
    }
}

/// The part of a history that covers the ticks from `from` to `to`: the last
/// change at or before `from`, and the changes after it up to `to`.
pub open spec fn window_slice(h: Seq<ChangeView>, from: int, to: Option<int>) -> Seq<ChangeView> {
    let n = upto(h, from);
    let end = match to {
        Some(t) => upto(h, t),
        None => h.len() as int,
    };
    let start = if n > 0 {
        n - 1
    } else {
        0
    };
    let stop = if end > n {
        end
    } else {
        n
    };
    h.subrange(start, stop)
}

/// That part answers every question about those ticks.
pub proof fn slice_is_window(h: Seq<ChangeView>, f: int, to: Option<int>)
    requires
        in_time_order(h),
    ensures
        window_of(window_slice(h, f, to), h, f, to),
        in_time_order(window_slice(h, f, to)),
{
    let w = window_slice(h, f, to);
    let start = if upto(h, f) > 0 {
        upto(h, f) - 1
    } else {
        0
    };
    let end = match to {
        Some(t) => {
            upto_splits(h, t);
            upto(h, t)
        },
        None => h.len() as int,
    };
    let stop = if end > upto(h, f) {
        end
    } else {
        upto(h, f)
    };
    let n = upto(h, f);
    upto_splits(h, f);
    assert(in_time_order(w)) by {
        assert forall|i: int, j: int| 0 <= i <= j < w.len() implies (#[trigger] w[i]).tick <= (
        #[trigger] w[j]).tick by {
            assert(w[i] == h[start + i] && w[j] == h[start + j]);
        }
    }
    let m = n - start;
    lemma_upto_part(h, w, start, stop, f, n);
    assert(f + 1 - 1 == f);
    assert(value_at(w, f) == value_at(h, f)) by {
        if n > 0 {
            assert(w[m - 1] == h[n - 1]);
        }
    }
    assert(changes_in(w, f + 1, to) =~= changes_in(h, f + 1, to)) by {
        match to {
            Some(t) => {
                upto_splits(h, t);
                if upto(h, t) >= n {
                    lemma_upto_part(h, w, start, stop, t, upto(h, t));
                    assert(w.subrange(m, upto(h, t) - start) =~= h.subrange(n, upto(h, t)));
                } else {
                    upto_splits(w, t);
                    assert(upto(w, t) <= m) by {
                        if upto(w, t) > m {
                            assert(m < w.len());
                            assert(w[m].tick <= t);
                            assert(w[m] == h[n]);
                            assert(h[upto(h, t)].tick > t);
                            assert(h[upto(h, t)].tick <= h[n].tick);
                        }
                    }
                    assert(changes_in(w, f + 1, to) =~= Seq::empty());
                }
            },
            None => {
                assert(w.subrange(m, w.len() as int) =~= h.subrange(n, h.len() as int));
            },
        }
    }
}

proof fn lemma_upto_part(
    h: Seq<ChangeView>,
    w: Seq<ChangeView>,
    start: int,
    stop: int,
    t: int,
    n: int,
)
    requires
        in_time_order(h),
        in_time_order(w),
        0 <= start <= n <= stop <= h.len(),
        w == h.subrange(start, stop),
        n == upto(h, t),
    ensures
        upto(w, t) == n - start,
{
    upto_splits(h, t);
    assert forall|i: int| 0 <= i < n - start implies (#[trigger] w[i]).tick <= t by {
        assert(w[i] == h[start + i]);
    }
    assert forall|i: int| n - start <= i < w.len() implies (#[trigger] w[i]).tick > t by {
        assert(w[i] == h[start + i]);
    }
    upto_is_unique(w, t, n - start);
}

} // verus!
