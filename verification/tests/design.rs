use rwave::design::{path_inside, probe_kdb, Direction, HopKind, KdbFacts, KdbMiss, TraceStatus};

const GONE: KdbFacts = KdbFacts { exists: false, elab_inside: false, work_inside: false };
const ELABORATED: KdbFacts = KdbFacts { exists: true, elab_inside: true, work_inside: false };
const RAW_LIBRARY: KdbFacts = KdbFacts { exists: true, elab_inside: false, work_inside: true };

#[test]
fn the_path_recorded_in_the_waveform_is_used_without_any_argument() {
    let real = path_inside("/tmp/recorded", "build/simv.daidir");
    assert_eq!(
        probe_kdb(None, Some(&real), ELABORATED).unwrap(),
        path_inside(&real, "kdb.elab++")
    );
}

#[test]
fn an_explicit_kdb_is_taken_literally_and_never_falls_back() {
    let recorded = path_inside("/tmp/explicit", "build/simv.daidir");
    // A perfectly good database is recorded in the file, but the user named
    // somewhere else. Silently using the other one would answer from a
    // different design than the one they asked about.
    let named = path_inside("/tmp/explicit", "nope");
    let err = probe_kdb(Some(&named), Some(&recorded), GONE).unwrap_err();
    assert!(matches!(err, KdbMiss::ExplicitMissing(_)));
}

#[test]
fn a_dump_moved_away_from_its_build_fails_with_that_diagnosis() {
    let err = probe_kdb(None, Some("/gone/simv.daidir"), GONE).unwrap_err();
    assert!(matches!(err, KdbMiss::RecordedGone(_)));
    let msg = err.into_error();
    assert!(msg.contains("/gone/simv.daidir"));
    assert!(msg.contains("--kdb"));
}

#[test]
fn a_waveform_that_records_nothing_says_so() {
    let err = probe_kdb(None, None, GONE).unwrap_err();
    assert!(matches!(err, KdbMiss::NotRecorded));
    assert!(err.into_error().contains("records no design library"));
}

#[test]
fn accepts_the_elab_directory_named_directly() {
    let seen = KdbFacts { exists: true, elab_inside: false, work_inside: false };
    let named = path_inside("/tmp/direct", "kdb.elab++");
    let got = probe_kdb(Some(&named), None, seen).unwrap();
    assert_eq!(got, "/tmp/direct/kdb.elab++");
}

#[test]
fn a_non_elaborated_library_is_named_as_such() {
    let err = probe_kdb(Some("/tmp/notelab"), None, RAW_LIBRARY).unwrap_err();
    assert!(matches!(err, KdbMiss::NotElaborated(_)));
    let msg = err.into_error();
    assert!(msg.contains("not elaborated"));
    assert!(msg.contains("elabcom"));
}

#[test]
fn a_blank_kdb_is_the_same_as_none() {
    assert_eq!(
        probe_kdb(Some("  "), Some("/b/simv.daidir"), ELABORATED).unwrap(),
        "/b/simv.daidir/kdb.elab++"
    );
    assert!(matches!(probe_kdb(Some(""), None, GONE).unwrap_err(), KdbMiss::NotRecorded));
}

#[test]
fn a_given_kdb_ignores_the_recorded_one() {
    let a = probe_kdb(Some("/given"), Some("/one"), ELABORATED).unwrap();
    let b = probe_kdb(Some("/given"), Some("/two"), ELABORATED).unwrap();
    assert_eq!(a, b);
    assert_eq!(a, "/given/kdb.elab++");
}

#[test]
fn missing_explicit_database_is_named() {
    let msg = probe_kdb(Some("/x/y"), None, GONE).unwrap_err().into_error();
    assert!(msg.contains("/x/y"));
}

#[test]
fn design_tags() {
    assert_eq!(HopKind::ContAssign.tag(), "assign");
    assert_eq!(HopKind::Procedural.tag(), "procedural");
    assert_eq!(HopKind::Port.tag(), "port");
    assert_eq!(HopKind::Control.tag(), "control");
    assert_eq!(HopKind::Constant.tag(), "constant");
    assert_eq!(HopKind::Other.tag(), "other");
    assert_eq!(TraceStatus::Resolved.tag(), "resolved");
    assert_eq!(TraceStatus::NotFound.tag(), "no_driver_found");
    assert_eq!(TraceStatus::BoundaryOnly.tag(), "boundary_only");
    assert_eq!(Direction::Driver.tag(), "driver");
    assert_eq!(Direction::Load.tag(), "load");
}
