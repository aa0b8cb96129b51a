use rwave::backend::BackendError;
use rwave::decl::{
    check_file, display_and_scope, handles_to_load, time_span, timescale_display, unit_str,
    var_width, vartype_to_str_kind, DeclaredType, FileState, Unit,
};
use rwave::format::ValueKind;
use rwave::handles::HandleMap;
use rwave::signal::BackendSid;

#[test]
fn declared_types_have_names_and_kinds() {
    assert_eq!(vartype_to_str_kind(DeclaredType::Wire), ("wire", ValueKind::Bits));
    assert_eq!(vartype_to_str_kind(DeclaredType::Text), ("string", ValueKind::Str));
    assert_eq!(vartype_to_str_kind(DeclaredType::ShortReal), ("shortreal", ValueKind::Real));
    assert_eq!(vartype_to_str_kind(DeclaredType::EventParameter), ("event", ValueKind::Event));
    assert_eq!(vartype_to_str_kind(DeclaredType::BitVector), ("bit_vector", ValueKind::Bits));
}

#[test]
fn width_comes_from_length_range_or_one() {
    assert_eq!(var_width(Some(8), Some(4)), 8);
    assert_eq!(var_width(Some(0), Some(4)), 4);
    assert_eq!(var_width(None, Some(4)), 4);
    assert_eq!(var_width(None, None), 1);
    assert_eq!(var_width(Some(0), None), 1);
}

#[test]
fn names_of_vectors_carry_their_range() {
    assert_eq!(
        display_and_scope("tb.data", "data", Some((7, 0)), Some(8)),
        ("tb.data[7:0]".to_string(), "tb".to_string())
    );
    assert_eq!(
        display_and_scope("tb.en", "en", Some((0, 0)), Some(1)),
        ("tb.en".to_string(), "tb".to_string())
    );
    assert_eq!(display_and_scope("clk", "clk", None, Some(1)), ("clk".to_string(), String::new()));
    // An escaped name with dots in it stays one name.
    assert_eq!(
        display_and_scope("tb.a.b", "a.b", Some((-1, -4)), Some(4)),
        ("tb.a.b[-1:-4]".to_string(), "tb".to_string())
    );
    assert_eq!(display_and_scope(".x", "x", None, None), (".x".to_string(), String::new()));
    assert_eq!(display_and_scope("tbx", "x", None, None), ("tbx".to_string(), String::new()));
}

#[test]
fn timescales_as_shown() {
    assert_eq!(timescale_display(Some((1, Unit::Nano))), "1ns");
    assert_eq!(timescale_display(Some((10, Unit::Pico))), "10ps");
    assert_eq!(timescale_display(Some((0, Unit::Second))), "1s");
    assert_eq!(timescale_display(Some((100, Unit::Unknown))), "100");
    assert_eq!(timescale_display(None), "");
    assert_eq!(unit_str(Unit::Femto), "fs");
}

#[test]
fn span_of_recorded_times() {
    assert_eq!(time_span(&[]), None);
    assert_eq!(time_span(&[3, 9, 40]), Some((3, 40)));
}

#[test]
fn unreadable_files_are_named() {
    assert!(matches!(
        check_file("a.vcd", FileState::Missing),
        Err(BackendError::Open(m)) if m == "cannot open waveform file: a.vcd"
    ));
    assert!(matches!(
        check_file("a.vcd", FileState::Forbidden),
        Err(BackendError::Open(m)) if m == "permission denied: a.vcd"
    ));
    assert!(matches!(
        check_file("a.vcd", FileState::Directory),
        Err(BackendError::Open(m)) if m == "not a file: a.vcd"
    ));
    assert!(check_file("a.vcd", FileState::Present).is_ok());
}

#[test]
fn only_missing_handles_are_loaded() {
    let mut loaded = HandleMap::new();
    loaded.insert(4, 0);
    let sids: Vec<BackendSid> = [9, 4, 2, 9, 7, 2].iter().map(|h| BackendSid(*h)).collect();
    assert_eq!(handles_to_load(&loaded, &sids), vec![2, 7, 9]);
}
