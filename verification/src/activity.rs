//! How a signal behaves over a time window.

use vstd::prelude::*;

use vstd::hash_set::StringHashSet;

use crate::backend::WaveformBackend;
use crate::format::{fold_states, four_states, has_unknown_bit, holds_unknown};
use crate::history::{
    changes_in, raw_text, upto, value_at, ChangeView, RawValue, RawView, SignalTrace,
};
use crate::instants::opt_raw;
use crate::model::{in_table, seen_of, selection, Sid, Sighting, TraceVisitor, Wave, WaveView};
use crate::replay::opt_tick;
use crate::report::{should_stream, STREAMING_BATCH};
use crate::text::same;

verus! {

/// What is known of one signal over a window. The initial value is the one in
/// force just before the window (at its start, for a window from tick zero);
/// what follows counts as changes.
pub struct Stats {
    pub sid: Sid,
    pub changes: usize,
    pub first_at: Option<i64>,
    pub last_at: Option<i64>,
    pub initial: Option<RawValue>,
    pub last: Option<RawValue>,
    /// The number of different values.
    pub unique: usize,
    pub rises: usize,
    pub falls: usize,
    /// Was there ever an unknown bit?
    pub unknown: bool,
}

pub struct StatsView {
    pub sid: usize,
    pub changes: nat,
    pub first_at: Option<int>,
    pub last_at: Option<int>,
    pub initial: Option<RawView>,
    pub last: Option<RawView>,
    pub unique: nat,
    pub rises: nat,
    pub falls: nat,
    pub unknown: bool,
}

impl View for Stats {
    type V = StatsView;

    open spec fn view(&self) -> StatsView {
        StatsView {
            sid: self.sid,
            changes: self.changes as nat,
            first_at: opt_tick(self.first_at),
            last_at: opt_tick(self.last_at),
            initial: opt_raw(self.initial),
            last: opt_raw(self.last),
            unique: self.unique as nat,
            rises: self.rises as nat,
            falls: self.falls as nat,
            unknown: self.unknown,
        }
    }
}

pub open spec fn stats_views(v: Seq<Stats>) -> Seq<StatsView> {
    v.map_values(|s: Stats| s@)
}

/// The tick whose value is the initial one.
pub open spec fn initial_tick(t0: int) -> int {
    if t0 == 0 {
        0
    } else {
        t0 - 1
    }
}

pub open spec fn opt_list(v: Option<RawView>) -> Seq<RawView> {
    match v {
        Some(x) => seq![x],
        None => Seq::empty(),
    }
}

/// What tells values apart: their text, and a mark of its own for an event.
pub open spec fn value_key(v: RawView) -> Seq<char> {
    match v {
        RawView::Event => "\u{1}event"@,
        _ => raw_text(v),
    }
}

/// How often the bit `a` is followed by the bit `b`.
pub open spec fn flips(vals: Seq<RawView>, a: Seq<char>, b: Seq<char>) -> nat
    decreases vals.len(),
{
    if vals.len() < 2 {
        0
    } else {
        flips(vals.drop_last(), a, b) + (if vals[vals.len() - 2] == RawView::Bits(a)
            && vals.last() == RawView::Bits(b) {
            1nat
        } else {
            0nat
        })
    }
}

/// Is there an unknown bit in a value?
pub open spec fn unknown_in(v: RawView) -> bool {
    match v {
        RawView::Bits(s) => has_unknown_bit(four_states(s)),
        _ => false,
    }
}

/// How a signal with the given history behaves over a window.
pub open spec fn stats_of(sid: usize, h: Seq<ChangeView>, t0: int, t1: Option<int>) -> StatsView {
    let initial = value_at(h, initial_tick(t0));
    let c = changes_in(h, initial_tick(t0) + 1, t1);
    let vals = opt_list(initial) + c.map_values(|x: ChangeView| x.value);
    StatsView {
        sid,
        changes: c.len(),
        first_at: if c.len() > 0 {
            Some(c[0].tick)
        } else {
            None
        },
        last_at: if c.len() > 0 {
            Some(c.last().tick)
        } else {
            None
        },
        initial,
        last: if vals.len() > 0 {
            Some(vals.last())
        } else {
            None
        },
        unique: vals.map_values(|v: RawView| value_key(v)).to_set().len(),
        rises: flips(vals, "0"@, "1"@),
        falls: flips(vals, "1"@, "0"@),
        unknown: exists|i: int| 0 <= i < vals.len() && unknown_in(#[trigger] vals[i]),
    }
}

fn key_of(v: &RawValue) -> (s: String)
    ensures
        s@ == value_key(v@),
{
    match v {
        RawValue::Event => "\u{1}event".to_owned(),
        _ => v.raw_str(),
    }
}

fn is_bit(v: &RawValue, bit: &str) -> (r: bool)
    ensures
        r == (v@ == RawView::Bits(bit@)),
{
    match v {
        RawValue::Bits(b) => same(b.as_str(), bit),
        _ => false,
    }
}

fn holds_unknown_bit(v: &RawValue) -> (r: bool)
    ensures
        r == unknown_in(v@),
{
    match v {
        RawValue::Bits(b) => holds_unknown(&fold_states(b.as_str())),
        _ => false,
    }
}

proof fn lemma_set_grows(keys: Seq<Seq<char>>, n: int)
    requires
        0 <= n < keys.len(),
    ensures
        keys.take(n + 1).to_set() == keys.take(n).to_set().insert(keys[n]),
{
    let a = keys.take(n + 1);
    let b = keys.take(n);
    assert forall|k: Seq<char>| a.to_set().contains(k) == b.to_set().insert(keys[n]).contains(k) by {
        if a.contains(k) {
            let i = choose|i: int| 0 <= i < a.len() && a[i] == k;
            if i < n {
                assert(b[i] == k);
            }
        }
        if b.contains(k) {
            let i = choose|i: int| 0 <= i < b.len() && b[i] == k;
            assert(a[i] == k);
        }
        assert(a[n] == keys[n]);
    }
    assert(a.to_set() =~= b.to_set().insert(keys[n]));
}

/// How the values `from` to `to` of a trace follow each other: the number of
/// different values, of rises and of falls, and whether a bit is unknown.
fn scan_values(trace: &SignalTrace, from: usize, to: usize) -> (r: (usize, usize, usize, bool))
    requires
        trace.wf(),
        from <= to <= trace.times@.len(),
    ensures
        ({
            let vals = trace@.subrange(from as int, to as int).map_values(|x: ChangeView| x.value);
            &&& r.0 == vals.map_values(|v: RawView| value_key(v)).to_set().len()
            &&& r.1 == flips(vals, "0"@, "1"@)
            &&& r.2 == flips(vals, "1"@, "0"@)
            &&& r.3 == exists|i: int| 0 <= i < vals.len() && unknown_in(#[trigger] vals[i])
        }),
{
    let ghost vals = trace@.subrange(from as int, to as int).map_values(|x: ChangeView| x.value);
    let ghost keys = vals.map_values(|v: RawView| value_key(v));
    let mut seen: StringHashSet = StringHashSet::new();
    let mut rises: usize = 0;
    let mut falls: usize = 0;
    let mut unknown: bool = false;
    let mut i: usize = from;
    assert(keys.take(0).to_set() =~= Set::empty());
    assert(vals.take(0).len() == 0);
    while i < to
        invariant
            trace.wf(),
            from <= i <= to <= trace.times@.len(),
            vals == trace@.subrange(from as int, to as int).map_values(|x: ChangeView| x.value),
            keys == vals.map_values(|v: RawView| value_key(v)),
            seen@ == keys.take(i - from).to_set(),
            rises == flips(vals.take(i - from), "0"@, "1"@),
            falls == flips(vals.take(i - from), "1"@, "0"@),
            rises <= i - from,
            falls <= i - from,
            unknown == exists|k: int| 0 <= k < i - from && unknown_in(#[trigger] vals[k]),
        decreases to - i,
    {
        let v: &RawValue = &trace.values[i];
        let ghost k = i - from;
        proof {
            assert(trace@[i as int].value == v@);
            assert(vals[k] == v@);
            assert(keys[k] == value_key(v@));
            lemma_set_grows(keys, k);
            assert(vals.take(k + 1).drop_last() =~= vals.take(k));
            assert(vals.take(k + 1).last() == v@);
            reveal_strlit("0");
            reveal_strlit("1");
            assert("0"@[0] != "1"@[0]);
        }
        let _fresh: bool = seen.insert(key_of(v));
        if i > from {
            let p: &RawValue = &trace.values[i - 1];
            assert(trace@[i - 1].value == p@);
            assert(vals[k - 1] == p@);
            assert(vals.take(k + 1)[k - 1] == p@);
            if is_bit(p, "0") && is_bit(v, "1") {
                rises += 1;
            }
            if is_bit(p, "1") && is_bit(v, "0") {
                falls += 1;
            }
        }
        if holds_unknown_bit(v) {
            unknown = true;
        }
        i += 1;
        assert(k + 1 == i - from);
    }
    proof {
        assert(keys.take(to - from) =~= keys);
        assert(vals.take(to - from) =~= vals);
    }
    (seen.len(), rises, falls, unknown)
}

/// Work out how a signal behaves over a window.
pub fn signal_stats(sid: Sid, trace: &SignalTrace, t0: i64, t1: Option<i64>) -> (s: Stats)
    requires
        trace.wf(),
    ensures
        s@ == stats_of(sid, trace@, t0 as int, opt_tick(t1)),
{
    let ghost h = trace@;
    let start: usize = if t0 == 0 {
        trace.count_upto(0)
    } else {
        trace.lower_bound(t0)
    };
    let upper: usize = trace.upper_bound(t1);
    let end: usize = if upper < start {
        start
    } else {
        upper
    };
    let from: usize = if start > 0 {
        start - 1
    } else {
        0
    };
    let ghost c = changes_in(h, initial_tick(t0 as int) + 1, opt_tick(t1));
    let ghost init = value_at(h, initial_tick(t0 as int));
    let ghost vals = opt_list(init) + c.map_values(|x: ChangeView| x.value);
    proof {
        assert(start == upto(h, initial_tick(t0 as int)));
        assert(initial_tick(t0 as int) + 1 - 1 == initial_tick(t0 as int));
        assert(c =~= h.subrange(start as int, end as int));
        assert(vals =~= h.subrange(from as int, end as int).map_values(|x: ChangeView| x.value));
    }
    let (unique, rises, falls, unknown) = scan_values(trace, from, end);
    let initial: Option<RawValue> = if start > 0 {
        assert(h[from as int].value == trace.values@[from as int]@);
        Some(trace.values[from].clone())
    } else {
        None
    };
    let last: Option<RawValue> = if end > from {
        assert(h[end - 1].value == trace.values@[end - 1]@);
        assert(vals.last() == h[end - 1].value);
        Some(trace.values[end - 1].clone())
    } else {
        None
    };
    let mut first_at: Option<i64> = None;
    let mut last_at: Option<i64> = None;
    if end > start {
        assert(c[0] == h[start as int]);
        assert(c.last() == h[end - 1]);
        first_at = Some(trace.times[start]);
        last_at = Some(trace.times[end - 1]);
    }
    Stats {
        sid,
        changes: end - start,
        first_at,
        last_at,
        initial,
        last,
        unique,
        rises,
        falls,
        unknown,
    }
}

/// How the given signals behave over a window.
pub open spec fn all_stats(w: WaveView, sids: Seq<usize>, t0: int, t1: Option<int>) -> Seq<StatsView> {
    sids.map_values(|s: usize| stats_of(s, w.traces[s as int], t0, t1))
}

struct ActivityReader {
    t0: i64,
    t1: Option<i64>,
    rows: Vec<Stats>,
    log: Ghost<Seq<Sighting>>,
}

impl TraceVisitor for ActivityReader {
    closed spec fn ok(&self) -> bool {
        stats_views(self.rows@) == self.log@.map_values(
            |p: Sighting| stats_of(p.0, p.1, self.t0 as int, opt_tick(self.t1)),
        )
    }

    closed spec fn seen(&self) -> Seq<Sighting> {
        self.log@
    }

    closed spec fn fixed(&self, other: &Self) -> bool {
        self.t0 == other.t0 && self.t1 == other.t1
    }

    fn visit(&mut self, sid: Sid, trace: &SignalTrace) {
        let ghost log1 = self.log@.push((sid, trace@));
        let ghost r0 = stats_views(self.rows@);
        let s: Stats = signal_stats(sid, trace, self.t0, self.t1);
        let ghost sv = s@;
        self.rows.push(s);
        self.log = Ghost(log1);
        proof {
            assert(stats_views(self.rows@) =~= r0.push(sv));
            assert(log1.map_values(
                |p: Sighting| stats_of(p.0, p.1, self.t0 as int, opt_tick(self.t1)),
            ) =~= r0.push(sv));
        }
    }

    proof fn fixed_chain(&self, mid: &Self, first: &Self) {
    }

    proof fn fixed_self(&self) {
    }
}

/// Work out how the given signals behave over a window, decoding many of them
/// in batches.
pub fn collect_stats<B: WaveformBackend>(
    wave: &mut Wave<B>,
    selected: &Vec<Sid>,
    t0: i64,
    t1: Option<i64>,
) -> (r: Vec<Stats>)
    requires
        old(wave).wf(),
        in_table(selected@, old(wave).table().len()),
    ensures
        final(wave).wf(),
        final(wave).same_wave(old(wave)),
        stats_views(r@) == all_stats(old(wave).snap(), selected@, t0 as int, opt_tick(t1)),
{
    let n: usize = selected.len();
    let batch: usize = if should_stream(n) {
        STREAMING_BATCH
    } else if n == 0 {
        1
    } else {
        n
    };
    let mut reader = ActivityReader { t0, t1, rows: Vec::new(), log: Ghost(Seq::empty()) };
    assert(stats_views(reader.rows@) =~= reader.log@.map_values(
        |p: Sighting| stats_of(p.0, p.1, t0 as int, opt_tick(t1)),
    ));
    wave.for_each_signal_batched(Some(selected), batch, &mut reader);
    proof {
        let w = old(wave).snap();
        old(wave).sightings_of_snap(selected@);
        assert(selection(Some(selected), old(wave).table().len()) == selected@);
        assert(reader.log@ =~= seen_of(w, selected@));
        assert(stats_views(reader.rows@) =~= all_stats(w, selected@, t0 as int, opt_tick(t1)));
    }
    reader.rows
}

} // verus!
