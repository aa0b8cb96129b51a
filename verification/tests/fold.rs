use rwave::bitstr::BitStr;
use rwave::fold::{fold_change, map_type_str, TraceSink};
use rwave::format::ValueKind;
use rwave::history::{RawValue, SignalTrace};
use rwave::plugin::{check_reader, choose_source, Builtin, LoadError, ReaderFacts, Source};
use rwave::signal::{BackendSid, VarDecl};

fn bits(s: &str) -> RawValue {
    RawValue::Bits(BitStr::new(s))
}

fn real_value(x: f64) -> RawValue {
    RawValue::from_real(x.to_bits(), &format!("{x}"))
}

fn trace() -> SignalTrace {
    SignalTrace { times: Vec::new(), values: Vec::new() }
}

fn shape(t: &SignalTrace) -> Vec<(i64, String)> {
    t.times.iter().zip(t.values.iter()).map(|(t, v)| (*t, v.raw_str())).collect()
}

#[test]
fn fold_distinct_ticks_append() {
    let mut t = trace();
    fold_change(&mut t, ValueKind::Bits, 1, bits("0"));
    fold_change(&mut t, ValueKind::Bits, 5, bits("1"));
    assert_eq!(shape(&t), vec![(1, "0".into()), (5, "1".into())]);
}

#[test]
fn fold_same_tick_last_wins() {
    // Word-partial delivery: three callbacks at one tick, each a fuller
    // update; only the final value survives.
    let mut t = trace();
    fold_change(&mut t, ValueKind::Bits, 1, bits("0000"));
    fold_change(&mut t, ValueKind::Bits, 7, bits("0011"));
    fold_change(&mut t, ValueKind::Bits, 7, bits("1111"));
    assert_eq!(shape(&t), vec![(1, "0000".into()), (7, "1111".into())]);
}

#[test]
fn fold_same_tick_net_nochange_disappears() {
    // Glitch: value pulses and returns within one tick. The net entry equals
    // the previous state, so the tick vanishes entirely.
    let mut t = trace();
    fold_change(&mut t, ValueKind::Bits, 1, bits("0"));
    fold_change(&mut t, ValueKind::Bits, 7, bits("1"));
    fold_change(&mut t, ValueKind::Bits, 7, bits("0"));
    assert_eq!(shape(&t), vec![(1, "0".into())]);
    // A later same-tick callback may then re-establish a change.
    fold_change(&mut t, ValueKind::Bits, 7, bits("1"));
    assert_eq!(shape(&t), vec![(1, "0".into()), (7, "1".into())]);
}

#[test]
fn fold_consecutive_duplicate_suppressed() {
    let mut t = trace();
    fold_change(&mut t, ValueKind::Bits, 1, bits("1"));
    fold_change(&mut t, ValueKind::Bits, 5, bits("1"));
    fold_change(&mut t, ValueKind::Bits, 9, bits("0"));
    assert_eq!(shape(&t), vec![(1, "1".into()), (9, "0".into())]);
}

#[test]
fn fold_first_entry_at_any_tick_kept() {
    let mut t = trace();
    fold_change(&mut t, ValueKind::Bits, 42, bits("x"));
    assert_eq!(shape(&t), vec![(42, "x".into())]);
}

#[test]
fn fold_events_never_collapsed() {
    let mut t = trace();
    fold_change(&mut t, ValueKind::Event, 3, RawValue::Event);
    fold_change(&mut t, ValueKind::Event, 3, RawValue::Event);
    fold_change(&mut t, ValueKind::Event, 4, RawValue::Event);
    assert_eq!(t.times, vec![3, 3, 4]);
}

#[test]
fn fold_real_equality_by_bit_pattern() {
    let mut t = trace();
    fold_change(&mut t, ValueKind::Real, 1, real_value(f64::NAN));
    fold_change(&mut t, ValueKind::Real, 2, real_value(f64::NAN));
    assert_eq!(t.times, vec![1], "NaN repeat is a duplicate");
    fold_change(&mut t, ValueKind::Real, 3, real_value(0.0));
    fold_change(&mut t, ValueKind::Real, 4, real_value(-0.0));
    assert_eq!(t.times, vec![1, 3, 4], "-0.0 differs from 0.0 by bits");
}

#[test]
fn fold_seed_then_change_at_next_tick() {
    // Windowed shape: carried seed at from-1, real change at from.
    let mut t = trace();
    fold_change(&mut t, ValueKind::Bits, 99, bits("1")); // seed
    fold_change(&mut t, ValueKind::Bits, 100, bits("0")); // event at from
    assert_eq!(shape(&t), vec![(99, "1".into()), (100, "0".into())]);
}

fn decl(handle: usize, kind: ValueKind) -> VarDecl {
    VarDecl {
        full_path: format!("s{handle}"),
        scope_path: String::new(),
        width: 1,
        type_str: "wire",
        kind,
        backend_sid: BackendSid(handle),
    }
}

#[test]
fn sink_sorts_reports_by_handle_and_kind() {
    let decls = vec![decl(5, ValueKind::Bits), decl(6, ValueKind::Str), decl(7, ValueKind::Real)];
    let sids = vec![BackendSid(6), BackendSid(5), BackendSid(7), BackendSid(8)];
    let mut s = TraceSink::new(&sids, &decls);
    s.emit(5, 1, "0", 0, "");
    s.emit(6, 2, "on", 0, "");
    s.emit(5, 3, "1", 0, "");
    s.emit(99, 3, "1", 0, ""); // not asked for
    s.emit(7, 4, "1.5", 1.5f64.to_bits(), "1.5");
    s.emit(8, 9, "z", 0, ""); // never declared: logic
    let out = s.finish();
    assert_eq!(shape(&out[0]), vec![(2, "on".into())]);
    assert_eq!(shape(&out[1]), vec![(1, "0".into()), (3, "1".into())]);
    assert_eq!(shape(&out[2]), vec![(4, "1.5".into())]);
    assert_eq!(shape(&out[3]), vec![(9, "z".into())]);
    assert!(matches!(out[0].values[0], RawValue::Str(_)));
    assert!(matches!(out[3].values[0], RawValue::Bits(_)));
}

#[test]
fn sink_takes_the_last_of_equal_handles() {
    let decls = vec![decl(5, ValueKind::Bits), decl(5, ValueKind::Event)];
    let mut s = TraceSink::new(&vec![BackendSid(5), BackendSid(5)], &decls);
    s.emit(5, 1, "", 0, "");
    s.emit(5, 1, "", 0, "");
    let out = s.finish();
    assert!(out[0].is_empty());
    assert_eq!(out[1].times, vec![1, 1]);
}

#[test]
fn type_names_of_vendor_readers() {
    for t in
        ["wire", "reg", "real", "realtime", "event", "integer", "time", "parameter", "logic", "bit", "string"]
    {
        assert_eq!(map_type_str(t), t);
    }
    assert_eq!(map_type_str("uwire"), "wire");
    assert_eq!(map_type_str(""), "wire");
}

#[test]
fn a_named_library_comes_before_the_builtin_reader() {
    let r = choose_source("fsdb", Some("/x.so"), Builtin::Ready);
    assert!(matches!(r, Ok(Source::External(p)) if p == "/x.so"));
    assert!(matches!(choose_source("fsdb", None, Builtin::Ready), Ok(Source::BuiltIn)));
    assert!(matches!(
        choose_source("fsdb", None, Builtin::InitFailed("no licence".into())),
        Err(LoadError::LoadFailed { msg }) if msg == "no licence"
    ));
    assert!(matches!(
        choose_source("wlf", None, Builtin::Unavailable("linux".into())),
        Err(LoadError::BuiltinUnavailable { format, platforms }) if format == "wlf" && platforms == "linux"
    ));
    assert!(matches!(
        choose_source("abc", None, Builtin::NotBuiltin),
        Err(LoadError::NoBackend { format }) if format == "abc"
    ));
}

#[test]
fn readers_are_vetted() {
    let good = ReaderFacts { abi_version: 2, complete: true, name: Some("fsdb".into()) };
    assert!(check_reader("fsdb", &good, 2).is_ok());
    assert!(matches!(
        check_reader("fsdb", &good, 3),
        Err(LoadError::AbiMismatch { format, plugin_abi: 2, rwave_abi: 3 }) if format == "fsdb"
    ));
    let holes = ReaderFacts { abi_version: 2, complete: false, name: None };
    assert!(matches!(
        check_reader("fsdb", &holes, 2),
        Err(LoadError::LoadFailed { msg }) if msg == "fsdb: backend vtable has NULL required entry points"
    ));
    let nameless = ReaderFacts { abi_version: 2, complete: true, name: None };
    assert!(matches!(
        check_reader("fsdb", &nameless, 2),
        Err(LoadError::LoadFailed { msg }) if msg == "fsdb: backend vtable name is NULL"
    ));
    assert!(matches!(
        check_reader("wlf", &good, 2),
        Err(LoadError::LoadFailed { msg }) if msg == "backend advertises format 'fsdb' but rwave asked for 'wlf'"
    ));
}
