use rwave::backend::{FileFormat, WaveformBackend};
use rwave::bitstr::BitStr;
use rwave::format::ValueKind;
use rwave::history::{RawValue, SignalTrace};
use rwave::memory::{FileInfo, MemoryBackend};
use rwave::model::{Sid, Wave};
use rwave::signal::{BackendSid, VarDecl};


struct MockBackend {
    /// `(backend_sid, ascending (tick, value) changes)` per signal.
    data: Vec<(usize, Vec<(i64, RawValue)>)>,
    windowed: bool,
    /// Serve windows in the WLF backend's shape: the carried value
    /// tagged `from - 1`, a change exactly at `from` at its own tick.
    /// Consumers read the seed's value, never its time.
    wlf_seed_shape: bool,
}

impl MockBackend {
    fn changes(&self, bsid: usize) -> &[(i64, RawValue)] {
        self.data
            .iter()
            .find(|(s, _)| *s == bsid)
            .map(|(_, c)| c.as_slice())
            .unwrap_or(&[])
    }

    fn full_trace(&self, bsid: usize) -> SignalTrace {
        let ch = self.changes(bsid);
        SignalTrace {
            times: ch.iter().map(|(t, _)| *t).collect(),
            values: ch.iter().map(|(_, v)| v.clone()).collect(),
        }
    }

    /// Seed (last change `<= from`) followed by every change in
    /// `(from, to]` — the exact contract `load_traces_windowed` documents.
    /// With `wlf_seed_shape`, the same window in the shape the WLF
    /// backend emits: carried value at `from - 1`, at-`from` change at
    /// `from`.
    fn window_trace(&self, bsid: usize, from: i64, to: Option<i64>) -> SignalTrace {
        let ch = self.changes(bsid);
        let mut times = Vec::new();
        let mut values = Vec::new();
        if self.wlf_seed_shape {
            if let Some((_, v)) = ch.iter().rev().find(|(t, _)| *t < from) {
                times.push(from - 1);
                values.push(v.clone());
            }
            for (t, v) in ch {
                if *t >= from && to.is_none_or(|hi| *t <= hi) {
                    times.push(*t);
                    values.push(v.clone());
                }
            }
            return SignalTrace { times, values };
        }
        if let Some((t, v)) = ch.iter().rev().find(|(t, _)| *t <= from) {
            times.push(*t);
            values.push(v.clone());
        }
        for (t, v) in ch {
            if *t > from && to.is_none_or(|hi| *t <= hi) {
                times.push(*t);
                values.push(v.clone());
            }
        }
        SignalTrace { times, values }
    }
}

impl WaveformBackend for MockBackend {
    fn path(&self) -> &str {
        "mock"
    }
    fn file_format(&self) -> FileFormat {
        FileFormat::Unknown
    }
    fn timescale_str(&self) -> String {
        "1ns".to_string()
    }
    fn date(&self) -> &str {
        ""
    }
    fn version(&self) -> &str {
        ""
    }
    fn comments(&self) -> Vec<String> {
        Vec::new()
    }
    fn var_decls(&self) -> Vec<VarDecl> {
        self.data
            .iter()
            .enumerate()
            .map(|(i, (bsid, _))| VarDecl {
                full_path: format!("top.s{i}"),
                scope_path: "top".to_string(),
                width: 1,
                type_str: "wire",
                kind: ValueKind::Bits,
                backend_sid: BackendSid(*bsid),
            })
            .collect()
    }
    fn time_range(&self) -> Option<(i64, i64)> {
        let mut lo = i64::MAX;
        let mut hi = i64::MIN;
        for (_, ch) in &self.data {
            for (t, _) in ch {
                lo = lo.min(*t);
                hi = hi.max(*t);
            }
        }
        if lo <= hi {
            Some((lo, hi))
        } else {
            None
        }
    }
    fn time_step_count(&self) -> usize {
        0
    }
    fn load_traces(&mut self, sids: &Vec<BackendSid>) -> Vec<SignalTrace> {
        sids.iter().map(|s| self.full_trace(s.0)).collect()
    }
    fn supports_windowed(&self) -> bool {
        self.windowed
    }
    fn load_traces_windowed(
        &mut self,
        sids: &Vec<BackendSid>,
        from: i64,
        to: Option<i64>,
    ) -> Vec<SignalTrace> {
        sids.iter().map(|s| self.window_trace(s.0, from, to)).collect()
    }
}

fn bits(s: &str) -> RawValue {
    RawValue::Bits(BitStr::new(s))
}

fn dataset() -> Vec<(usize, Vec<(i64, RawValue)>)> {
    vec![
        // A toggling multi-change signal.
        (
            10,
            vec![
                (0, bits("0")),
                (5, bits("1")),
                (12, bits("0")),
                (20, bits("1")),
            ],
        ),
        // Different edges, first change after 0.
        (11, vec![(3, bits("1")), (8, bits("0")), (15, bits("1"))]),
        // Static signal: one change at 0.
        (12, vec![(0, bits("1"))]),
        // A signal whose first change is well past the small ticks.
        (13, vec![(18, bits("1")), (25, bits("0"))]),
    ]
}

fn mk(windowed: bool) -> Wave<MockBackend> {
    Wave::from_backend(MockBackend {
        data: dataset(),
        windowed,
        wlf_seed_shape: false,
    })
}

fn mk_wlf_shape() -> Wave<MockBackend> {
    Wave::from_backend(MockBackend {
        data: dataset(),
        windowed: true,
        wlf_seed_shape: true,
    })
}

#[test]
fn snapshot_windowed_matches_full() {
    let mut full = mk(false);
    full.ensure_all_loaded();
    let mut win = mk(true);
    // Probe before, at, and between every edge, and past the end.
    for t in [-1, 0, 2, 3, 5, 6, 8, 12, 15, 17, 18, 20, 25, 100] {
        let a = full.snapshot(t, None);
        let b = win.snapshot_streaming(t, None, 2);
        assert_eq!(a, b, "snapshot mismatch at t={t}");
    }
}

#[test]
fn compare_pair_windowed_matches_full() {
    let mut full = mk(false);
    full.ensure_all_loaded();
    let mut win = mk(true);
    for (ta, tb) in [(-1, 0), (0, 12), (3, 15), (5, 20), (8, 25), (0, 100)] {
        let (fa, fb) = full.snapshot_pair(ta, tb, None);
        let (wa, wb) = win.snapshot_pair_streaming(ta, tb, None, 2);
        assert_eq!(fa, wa, "compare-a mismatch at ta={ta}");
        assert_eq!(fb, wb, "compare-b mismatch at tb={tb}");
    }
}

#[test]
fn dump_windowed_matches_full() {
    // collect_events_bounded falls back to the full batched path when
    // windowed is off, so `full` here is the ground truth.
    let windows: [(i64, Option<i64>); 6] = [
        (0, Some(100)),
        (0, Some(10)),
        (5, Some(15)),
        (12, Some(20)),
        (18, None),
        (21, Some(24)),
    ];
    for (t0, t1) in windows {
        let mut full = mk(false);
        let mut win = mk(true);
        let (fe, ft, ftr) = full.collect_events_bounded(t0, t1, None, 0, 2);
        let (we, wt, wtr) = win.collect_events_bounded(t0, t1, None, 0, 2);
        let fv: Vec<(i64, Sid, RawValue)> =
            fe.iter().map(|e| (e.tick, e.sid, e.value.clone())).collect();
        let wv: Vec<(i64, Sid, RawValue)> =
            we.iter().map(|e| (e.tick, e.sid, e.value.clone())).collect();
        assert_eq!(fv, wv, "dump events mismatch for [{t0}, {t1:?}]");
        assert_eq!(ft, wt, "dump total mismatch for [{t0}, {t1:?}]");
        assert_eq!(ftr, wtr, "dump truncated mismatch for [{t0}, {t1:?}]");
    }
}

// The three consumer equivalences again, against the WLF seed shape:
// carried value at `from - 1` instead of its true tick. Values,
// definedness, and dump's event sets must be indistinguishable from
// true-tick seeds.

#[test]
fn snapshot_wlf_seed_shape_matches_full() {
    let mut full = mk(false);
    full.ensure_all_loaded();
    let mut win = mk_wlf_shape();
    for t in [-1, 0, 2, 3, 5, 6, 8, 12, 15, 17, 18, 20, 25, 100] {
        let a = full.snapshot(t, None);
        let b = win.snapshot_streaming(t, None, 2);
        assert_eq!(a, b, "snapshot mismatch at t={t}");
    }
}

#[test]
fn compare_pair_wlf_seed_shape_matches_full() {
    let mut full = mk(false);
    full.ensure_all_loaded();
    let mut win = mk_wlf_shape();
    for (ta, tb) in [(-1, 0), (0, 12), (3, 15), (5, 20), (8, 25), (0, 100)] {
        let (fa, fb) = full.snapshot_pair(ta, tb, None);
        let (wa, wb) = win.snapshot_pair_streaming(ta, tb, None, 2);
        assert_eq!(fa, wa, "compare-a mismatch at ta={ta}");
        assert_eq!(fb, wb, "compare-b mismatch at tb={tb}");
    }
}

#[test]
fn dump_wlf_seed_shape_matches_full() {
    let windows: [(i64, Option<i64>); 6] = [
        (0, Some(100)),
        (0, Some(10)),
        (5, Some(15)),
        (12, Some(20)),
        (18, None),
        (21, Some(24)),
    ];
    for (t0, t1) in windows {
        let mut full = mk(false);
        let mut win = mk_wlf_shape();
        let (fe, ft, ftr) = full.collect_events_bounded(t0, t1, None, 0, 2);
        let (we, wt, wtr) = win.collect_events_bounded(t0, t1, None, 0, 2);
        let fv: Vec<(i64, Sid, RawValue)> =
            fe.iter().map(|e| (e.tick, e.sid, e.value.clone())).collect();
        let wv: Vec<(i64, Sid, RawValue)> =
            we.iter().map(|e| (e.tick, e.sid, e.value.clone())).collect();
        assert_eq!(fv, wv, "dump events mismatch for [{t0}, {t1:?}]");
        assert_eq!(ft, wt, "dump total mismatch for [{t0}, {t1:?}]");
        assert_eq!(ftr, wtr, "dump truncated mismatch for [{t0}, {t1:?}]");
    }
}

#[test]
fn bounded_collection_keeps_every_change_at_the_first_tick() {
    let info = || FileInfo {
        path: "t.fst".to_string(),
        format: FileFormat::Fst,
        timescale: String::new(),
        date: String::new(),
        version: String::new(),
        comments: Vec::new(),
        time_range: Some((0, 9)),
        time_steps: 3,
    };
    let decls = || {
        vec![VarDecl {
            full_path: "top.s".to_string(),
            scope_path: "top".to_string(),
            width: 1,
            type_str: "wire",
            kind: ValueKind::Bits,
            backend_sid: BackendSid(0),
        }]
    };
    let trace = || SignalTrace {
        times: vec![0, 5, 5, 9],
        values: ["0", "1", "0", "1"].iter().map(|v| RawValue::Bits(BitStr::new(v))).collect(),
    };
    let mut eager = Wave::from_backend(MemoryBackend::new(info(), decls(), vec![trace()], false));
    eager.ensure_all_loaded();
    let want: Vec<(i64, String)> =
        eager.for_each_event(5, Some(9), None).iter().map(|e| (e.tick, e.value.raw_str())).collect();
    assert_eq!(want.len(), 3);
    for windowed in [false, true] {
        let mut w = Wave::from_backend(MemoryBackend::new(info(), decls(), vec![trace()], windowed));
        let (events, total, truncated) = w.collect_events_bounded(5, Some(9), None, 0, 1);
        let got: Vec<(i64, String)> = events.iter().map(|e| (e.tick, e.value.raw_str())).collect();
        assert_eq!(got, want);
        assert_eq!((total, truncated), (3, false));
        let (few, total, truncated) = w.collect_events_bounded(5, Some(9), None, 2, 1);
        assert_eq!(few.len(), 2);
        assert_eq!((total, truncated), (3, true));
        assert_eq!(w.collect_events_bounded(i64::MIN, None, None, 0, 1).1, 4);
    }
}
