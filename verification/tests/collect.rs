use rwave::bitstr::BitStr;
use rwave::collect::{decode, Collector, Payload, WinKind};
use rwave::history::RawValue;
use rwave::seek::{first_range, RawChange, Seek};

fn bits(s: &str) -> RawValue {
    RawValue::Bits(BitStr::new(s))
}

fn real_value(x: f64) -> RawValue {
    RawValue::from_real(x.to_bits(), &format!("{x}"))
}

fn trace(c: Collector) -> Vec<(i64, String)> {
    let t = c.finish();
    t.times.iter().zip(t.values.iter()).map(|(t, v)| (*t, v.raw_str())).collect()
}

#[test]
fn seed_plus_window_basic() {
    let mut c = Collector::new(WinKind::Bits);
    // window [10, 30]
    c.on_phase1(2, bits("0"), 10, Some(30), false);
    c.on_phase1(8, bits("1"), 10, Some(30), false); // seed: last <= 10
    c.on_phase1(15, bits("0"), 10, Some(30), false);
    c.on_phase1(35, bits("1"), 10, Some(30), false); // beyond to: dropped
    assert_eq!(trace(c), vec![(8, "1".into()), (15, "0".into())]);
}

#[test]
fn duplicate_value_suppressed_like_full_decode() {
    let mut c = Collector::new(WinKind::Bits);
    c.on_phase1(8, bits("1"), 10, None, false);
    c.on_phase1(15, bits("1"), 10, None, false); // same value: dropped
    c.on_phase1(20, bits("0"), 10, None, false);
    c.on_phase1(25, bits("0"), 10, None, false); // dropped
    c.on_phase1(30, bits("1"), 10, None, false);
    assert_eq!(trace(c), vec![(8, "1".into()), (20, "0".into()), (30, "1".into())]);
}

#[test]
fn events_never_deduped() {
    let mut c = Collector::new(WinKind::Event);
    c.on_phase1(12, RawValue::Event, 10, None, false);
    c.on_phase1(14, RawValue::Event, 10, None, false);
    assert_eq!(trace(c).len(), 2);
}

#[test]
fn seed_at_exactly_from_kept_with_true_time() {
    let mut c = Collector::new(WinKind::Bits);
    c.on_phase1(10, bits("1"), 10, Some(30), false);
    assert_eq!(trace(c), vec![(10, "1".into())]);
}

#[test]
fn phase2_supplies_seed_and_first_window_dedup() {
    // Signal changed to "1" long before the window, then a redundant "1"
    // arrives in-window: full decode drops the redundant change.
    let mut c = Collector::new(WinKind::Bits);
    c.on_phase1(50, bits("1"), 40, Some(60), false); // in-window, no baseline yet
    assert!(c.needs_phase2());
    c.demoted = true;
    c.seed2 = Some((5, bits("1")));
    assert_eq!(trace(c), vec![(5, "1".into())]);
}

#[test]
fn phase2_no_seed_means_absent_not_x() {
    let mut c = Collector::new(WinKind::Bits);
    c.on_phase1(50, bits("x"), 40, Some(60), false);
    assert!(c.needs_phase2());
    c.demoted = true; // phase 2 found nothing
    assert_eq!(trace(c), vec![(50, "x".into())]);
}

#[test]
fn suspect_frame_seed_demoted_and_window_echo_dropped() {
    let mut c = Collector::new(WinKind::Bits);
    // Frame echo at t=8 (suspect): candidate only, not a real change.
    c.on_phase1(8, bits("1"), 10, Some(30), true);
    assert!(c.needs_phase2());
    // In-window frame echo dropped outright.
    let mut d = Collector::new(WinKind::Bits);
    d.on_phase1(12, bits("1"), 10, Some(30), true);
    d.demoted = true;
    assert_eq!(trace(d), Vec::<(i64, String)>::new());
}

#[test]
fn real_dedup_by_bit_pattern() {
    let mut c = Collector::new(WinKind::Real);
    c.on_phase1(8, real_value(f64::NAN), 0, None, false);
    c.on_phase1(9, real_value(f64::NAN), 0, None, false); // same bits: dropped
    c.on_phase1(10, real_value(0.0), 0, None, false);
    c.on_phase1(11, real_value(-0.0), 0, None, false); // different bits: kept
    assert_eq!(trace(c).len(), 3);
}

#[test]
fn canonicalization_folds_case() {
    let v = decode(WinKind::Bits, &Payload::Bytes(b"1X0Z".to_vec())).unwrap();
    assert_eq!(v.raw_str(), "1x0z");
}

#[test]
fn string_latin1_decode() {
    let v = decode(WinKind::Str, &Payload::Bytes(vec![0x68, 0x69, 0xe9])).unwrap();
    assert_eq!(v.raw_str(), "hié");
}

#[test]
fn payload_of_another_kind_has_no_value() {
    assert!(decode(WinKind::Real, &Payload::Bytes(vec![1])).is_none());
    let n = Payload::Number { bits: 0, text: "0".into() };
    assert!(decode(WinKind::Bits, &n).is_none());
    assert!(decode(WinKind::Str, &n).is_none());
    assert_eq!(decode(WinKind::Real, &n).unwrap().raw_str(), "0");
    assert!(matches!(decode(WinKind::Event, &n).unwrap(), RawValue::Event));
}

#[test]
fn canonical_states() {
    let v = decode(WinKind::Bits, &Payload::Bytes(b"XZHUWLxzhuwl-01".to_vec())).unwrap();
    assert_eq!(v.raw_str(), "xzhuwlxzhuwl-01");
}

#[test]
fn first_pass_bounds_are_clamped() {
    assert_eq!(first_range(10, Some(30), 100), (10, Some(30)));
    assert_eq!(first_range(-5, None, 100), (0, None));
    assert_eq!(first_range(500, Some(600), 100), (100, Some(600)));
    assert_eq!(first_range(50, Some(20), 100), (50, Some(50)));
    assert_eq!(first_range(50, Some(-1), 100), (50, Some(50)));
}

fn change(time: u64, handle: usize, text: &str) -> RawChange {
    RawChange { time, handle, value: Payload::Bytes(text.as_bytes().to_vec()) }
}

fn shapes(s: Seek) -> Vec<Vec<(i64, String)>> {
    s.finish()
        .iter()
        .map(|t| t.times.iter().copied().zip(t.values.iter().map(|v| v.raw_str())).collect())
        .collect()
}

#[test]
fn window_read_in_two_passes() {
    let times: Vec<u64> = vec![0, 2, 8, 15, 35];
    // Handle 4 changes within the section, handle 7 long before it.
    let slots = vec![(4, WinKind::Bits), (7, WinKind::Bits), (4, WinKind::Bits)];
    let mut s = Seek::new(&slots, 10, Some(30));
    assert_eq!(s.handles(), &vec![4, 7]);
    s.on_first(&change(8, 4, "1"), &times);
    s.on_first(&change(15, 4, "0"), &times);
    s.on_first(&change(15, 9, "1"), &times); // not asked for
    s.on_first(&change(35, 4, "1"), &times);
    assert_eq!(s.second_handles(), vec![7]);
    s.begin_second();
    s.on_second(&change(0, 7, "X"));
    s.on_second(&change(2, 7, "1"));
    s.on_second(&change(2, 4, "x")); // has its seed already
    s.on_second(&change(15, 7, "0")); // behind the start
    let four = vec![(8, "1".to_string()), (15, "0".to_string())];
    assert_eq!(shapes(s), vec![four.clone(), vec![(2, "1".to_string())], four]);
}

#[test]
fn opening_snapshot_is_no_change() {
    let times: Vec<u64> = vec![1, 15];
    let mut s = Seek::new(&vec![(0, WinKind::Bits)], 10, None);
    s.on_first(&change(9, 0, "1"), &times); // 9 is no recorded time
    s.on_first(&change(15, 0, "1"), &times);
    assert_eq!(s.second_handles(), vec![0]);
    s.begin_second();
    s.on_second(&change(1, 0, "1"));
    assert_eq!(shapes(s), vec![vec![(1, "1".to_string())]]);
}

#[test]
fn window_read_equals_the_slice_of_the_history() {
    let all: Vec<(i64, &str)> = vec![(2, "0"), (8, "1"), (15, "0"), (15, "1"), (20, "1"), (35, "0")];
    let full: Vec<(i64, &str)> = vec![(2, "0"), (8, "1"), (15, "0"), (15, "1"), (35, "0")];
    for skipped in 0..=2usize {
        for from in 8..14i64 {
            for to in [8, 12, 15, 20, 34, 35, 90] {
                let mut c = Collector::new(WinKind::Bits);
                for (t, v) in &all[skipped..] {
                    c.on_phase1(*t, bits(v), from, Some(to), false);
                }
                if c.needs_phase2() {
                    c.demote();
                    c.on_phase2(8, bits("1"));
                }
                let mut want: Vec<(i64, String)> = vec![(8, "1".into())];
                want.extend(
                    full.iter()
                        .filter(|(t, _)| *t > from && *t <= to)
                        .map(|(t, v)| (*t, v.to_string())),
                );
                assert_eq!(trace(c), want, "{skipped} {from} {to}");
            }
        }
    }
}

#[test]
fn a_read_that_opens_with_a_snapshot_finds_the_window() {
    // Both signals are in the snapshot at 9, which is no recorded time.
    let times: Vec<u64> = vec![1, 4, 10, 15, 18];
    let mut s = Seek::new(&vec![(0, WinKind::Bits), (3, WinKind::Bits)], 10, Some(20));
    s.on_first(&change(9, 0, "1"), &times);
    s.on_first(&change(9, 3, "0"), &times);
    s.on_first(&change(10, 3, "1"), &times);
    s.on_first(&change(15, 0, "1"), &times);
    s.on_first(&change(18, 0, "0"), &times);
    assert_eq!(s.second_handles(), vec![0]);
    s.begin_second();
    s.on_second(&change(1, 0, "0"));
    s.on_second(&change(4, 0, "1"));
    assert_eq!(
        shapes(s),
        vec![
            vec![(4, "1".to_string()), (18, "0".to_string())],
            vec![(10, "1".to_string())],
        ]
    );
}
