use rwave::format::{fmt_val, pyrepr, ValueKind};

#[test]
fn pyrepr_matches_python_for_quoting_and_escapes() {
    // Single-quote default, double-quote when string has a single-quote
    // and no double-quote, mirroring Python's repr().
    assert_eq!(pyrepr("hello"), "'hello'");
    assert_eq!(pyrepr("it's"), "\"it's\"");
    assert_eq!(pyrepr("\""), "'\"'");
    assert_eq!(pyrepr("'\""), "'\\'\"'");
    // Backslashes always escape, in both quoting modes.
    assert_eq!(pyrepr("a\\b"), "'a\\\\b'");
    assert_eq!(pyrepr("it's a\\b"), "\"it's a\\\\b\"");
    // ASCII control characters escape to Python's named escapes / \xNN.
    assert_eq!(pyrepr("a\nb"), "'a\\nb'");
    assert_eq!(pyrepr("a\tb"), "'a\\tb'");
    assert_eq!(pyrepr("a\rb"), "'a\\rb'");
    assert_eq!(pyrepr("\x01"), "'\\x01'");
    assert_eq!(pyrepr("\x7f"), "'\\x7f'");
}

#[test]
fn one_bit() {
    assert_eq!(fmt_val("0", ValueKind::Bits, 1), "0");
    assert_eq!(fmt_val("1", ValueKind::Bits, 1), "1");
    assert_eq!(fmt_val("x", ValueKind::Bits, 1), "x");
    assert_eq!(fmt_val("z", ValueKind::Bits, 1), "z");
}

#[test]
fn multibit_clean() {
    // 8-bit 0x11 = 17
    assert_eq!(fmt_val("00010001", ValueKind::Bits, 8), "17 (0x11)");
    // 3-bit value 2
    assert_eq!(fmt_val("010", ValueKind::Bits, 3), "2 (0x2)");
    // 8-bit 0x22 = 34
    assert_eq!(fmt_val("00100010", ValueKind::Bits, 8), "34 (0x22)");
}

#[test]
fn multibit_short_is_left_extended() {
    // "1" in a 3-bit signal -> 001 -> 1 (0x1)
    assert_eq!(fmt_val("1", ValueKind::Bits, 3), "1 (0x1)");
    // "10" in 8-bit -> 2, hex zero-padded to ceil(8/4)=2 digits -> 0x02
    assert_eq!(fmt_val("10", ValueKind::Bits, 8), "2 (0x02)");
}

#[test]
fn multibit_unknown() {
    assert_eq!(fmt_val("01x0", ValueKind::Bits, 4), "b01x0");
    // short with x MSB extends with x
    assert_eq!(fmt_val("x0", ValueKind::Bits, 4), "bxxx0");
}

#[test]
fn wide_bus_no_overflow() {
    // 64 ones = 0xffffffffffffffff = 18446744073709551615
    let bits = "1".repeat(64);
    assert_eq!(
        fmt_val(&bits, ValueKind::Bits, 64),
        "18446744073709551615 (0xffffffffffffffff)"
    );
    // 128-bit: 1 followed by 127 zeros
    let mut b = String::from("1");
    b.push_str(&"0".repeat(127));
    let out = fmt_val(&b, ValueKind::Bits, 128);
    assert!(out.starts_with("170141183460469231731687303715884105728 (0x8"));
}

#[test]
fn event_and_real() {
    assert_eq!(fmt_val("", ValueKind::Event, 1), "triggered");
    assert_eq!(fmt_val("3.14", ValueKind::Real, 64), "3.14");
    assert_eq!(fmt_val("hello", ValueKind::Str, 0), "hello");
}

#[test]
fn nine_state_maps_to_four() {
    // h -> 1, l -> 0
    assert_eq!(fmt_val("hl", ValueKind::Bits, 2), "2 (0x2)");
    // u -> x
    assert_eq!(fmt_val("u", ValueKind::Bits, 1), "x");
}
