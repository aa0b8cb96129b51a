use rwave::backend::FileFormat;
use rwave::bitstr::BitStr;
use rwave::format::{fmt_val_compact, ValueKind};
use rwave::hierarchy::{last_segment, parent_of, prefixes, Index};
use rwave::history::{RawValue, SignalTrace};
use rwave::json::{Json, Obj};
use rwave::memory::{FileInfo, MemoryBackend};
use rwave::model::Wave;
use rwave::number::{i64_text, parse_i64};
use rwave::order::{sort_texts, sorted_distinct};
use rwave::replay::{merge_all, merge_events, DumpEvent};
use rwave::signal::{build_signal_table, BackendSid, VarDecl};
use rwave::text::trim;

fn decl(path: &str, scope: &str, handle: usize) -> VarDecl {
    VarDecl {
        full_path: path.to_string(),
        scope_path: scope.to_string(),
        width: 1,
        type_str: "wire",
        kind: ValueKind::Bits,
        backend_sid: BackendSid(handle),
    }
}

#[test]
fn unknown_bits_show_as_b() {
    for (raw, width, unknown) in [
        ("0", 1, false),
        ("1", 1, false),
        ("x", 1, true),
        ("z", 1, true),
        ("1010", 4, false),
        ("10x0", 4, true),
        ("1", 8, false),
        ("x", 8, true),
        ("11111", 4, true),
        ("", 4, false),
        ("U", 1, true),
    ] {
        let shown = fmt_val_compact(raw, ValueKind::Bits, width);
        assert_eq!(shown.starts_with('b'), unknown, "{raw} {width} {shown}");
    }
    assert_eq!(fmt_val_compact("x", ValueKind::Bits, 4), "bxxxx");
    assert_eq!(fmt_val_compact("00000100", ValueKind::Bits, 8), "0x4");
}

#[test]
fn json_is_one_line() {
    let j = Obj::new().push("a\nb", Json::str("c\r\n\t\u{1}\u{2028}")).push("n", Json::Int(-5)).build();
    let s = j.to_compact_string();
    assert!(s.chars().all(|c| c >= ' '), "{s:?}");
    assert_eq!(s, "{\"a\\nb\":\"c\\r\\n\\t\\u0001\u{2028}\",\"n\":-5}");
}

#[test]
fn decimal_round_trip() {
    for n in [0, 1, 9, 10, 1234567890, i64::MAX] {
        assert_eq!(parse_i64(&i64_text(n)), Some(n));
    }
    assert_eq!(i64_text(i64::MIN), "-9223372036854775808");
}

#[test]
fn trimming_twice_is_trimming_once() {
    for s in ["", "  ", " a b ", "\u{2003}x\n"] {
        assert_eq!(trim(trim(s)), trim(s));
        assert_eq!(trim(s), s.trim());
    }
}

#[test]
fn sorting_is_stable_and_complete() {
    let keys: Vec<String> = ["b", "a", "c", "a", "", "b"].iter().map(|s| s.to_string()).collect();
    assert_eq!(sort_texts(&keys), vec![4, 1, 3, 0, 5, 2]);
    assert_eq!(sorted_distinct(&keys), vec!["", "a", "b", "c"]);
}

#[test]
fn table_is_sorted_and_merged_by_handle() {
    let decls = vec![decl("tb.z", "tb", 3), decl("tb.a", "tb", 1), decl("tb.c", "tb", 3), decl("tb.z", "tb", 3)];
    let table = build_signal_table(&decls);
    assert_eq!(table.len(), 2);
    assert_eq!(table[0].path, "tb.a");
    assert_eq!(table[1].path, "tb.c");
    assert_eq!(table[1].aliases, vec!["tb.c", "tb.z"]);
    assert_eq!(table[1].decl_order, 0);
    assert!(table[0].backend_sid != table[1].backend_sid);
}

#[test]
fn lineage_is_closed() {
    let line = prefixes("top.u_a.u_b");
    assert_eq!(line, vec!["top", "top.u_a", "top.u_a.u_b"]);
    for p in &line {
        if let Some(up) = parent_of(p) {
            assert!(line.contains(&up));
        }
    }
    assert_eq!(parent_of("top"), None);
    assert_eq!(last_segment("top.u_a"), "u_a");
}

#[test]
fn scopes_are_closed() {
    let table = build_signal_table(&vec![decl("a.b.c.x", "a.b.c", 0), decl("d.y", "d", 1), decl("z", "", 2)]);
    let scopes: Vec<String> = table.iter().flat_map(|s| s.alias_scopes.clone()).collect();
    let distinct = sorted_distinct(&scopes.into_iter().filter(|s| !s.is_empty()).collect());
    let index = Index::build(&table, &distinct);
    assert_eq!(index.scopes(), &vec!["a", "a.b", "a.b.c", "d"]);
    assert_eq!(index.root_signals(), 1);
}

fn event(tick: i64, sid: usize, decl_order: usize) -> DumpEvent {
    DumpEvent { tick, sid, decl_order, value: RawValue::Bits(BitStr::new("1")) }
}

fn keys(v: &[DumpEvent]) -> Vec<(i64, usize)> {
    v.iter().map(|e| (e.tick, e.sid)).collect()
}

#[test]
fn merging_keeps_order_and_events() {
    let a = vec![event(1, 0, 5), event(4, 0, 5)];
    let b = vec![event(1, 1, 2), event(3, 1, 2), event(4, 1, 2)];
    let want = vec![(1, 1), (1, 0), (3, 1), (4, 1), (4, 0)];
    assert_eq!(keys(&merge_events(&a, &b, 0)), want);
    assert_eq!(keys(&merge_events(&a, &b, 2)), want[..2].to_vec());
    assert_eq!(keys(&merge_all(&vec![a, b])), want);
}

#[test]
fn streamed_snapshots_are_eager_snapshots() {
    let trace = |t: &[i64], v: &[&str]| SignalTrace {
        times: t.to_vec(),
        values: v.iter().map(|v| RawValue::Bits(BitStr::new(v))).collect(),
    };
    let make = |windowed: bool| {
        let info = FileInfo {
            path: "t".to_string(),
            format: FileFormat::Fst,
            timescale: String::new(),
            date: String::new(),
            version: String::new(),
            comments: Vec::new(),
            time_range: Some((0, 9)),
            time_steps: 4,
        };
        let decls = vec![decl("t.a", "t", 0), decl("t.b", "t", 1), decl("t.c", "t", 2)];
        let traces = vec![
            trace(&[0, 5, 5, 9], &["0", "1", "0", "1"]),
            trace(&[3], &["1"]),
            trace(&[], &[]),
        ];
        Wave::from_backend(MemoryBackend::new(info, decls, traces, windowed))
    };
    let mut eager = make(false);
    eager.ensure_all_loaded();
    for t in 0..10 {
        let want = eager.snapshot(t, None);
        for windowed in [false, true] {
            for batch in [1, 2, 8] {
                assert_eq!(make(windowed).snapshot_streaming(t, None, batch), want);
                let (a, b) = make(windowed).snapshot_pair_streaming(t, 9, None, batch);
                assert_eq!(a, want);
                assert_eq!(b, eager.snapshot(9, None));
            }
        }
    }
}

#[test]
fn releasing_traces_forgets_them() {
    let info = FileInfo {
        path: "t".to_string(),
        format: FileFormat::Vcd,
        timescale: String::new(),
        date: String::new(),
        version: String::new(),
        comments: Vec::new(),
        time_range: None,
        time_steps: 0,
    };
    let traces = vec![SignalTrace::new(), SignalTrace::new()];
    let mut w = Wave::from_backend(MemoryBackend::new(
        info,
        vec![decl("a", "", 0), decl("b", "", 1)],
        traces,
        false,
    ));
    w.ensure_loaded(&vec![1]);
    assert_eq!(w.resident_trace_count(), 1);
    w.ensure_all_loaded();
    assert_eq!(w.resident_trace_count(), 2);
    w.release_traces(&vec![0, 1]);
    assert_eq!(w.resident_trace_count(), 0);
}
