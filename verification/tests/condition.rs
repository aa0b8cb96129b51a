use rwave::condition::{
    condition_match, parse_conditions, parse_target_value, value_matches, BigUint, Op,
};

#[test]
fn parse_decimal_hex_bin() {
    assert!(parse_target_value("5").unwrap().int.is_some());
    assert!(parse_target_value("0xff").unwrap().int.is_some());
    assert!(parse_target_value("b1010").unwrap().int.is_some());
    assert!(parse_target_value("0b1010").unwrap().int.is_some());
    // 4-state literal
    let t = parse_target_value("b1x0z").unwrap();
    assert!(t.int.is_none());
    assert_eq!(t.raw, "1x0z");
}

#[test]
fn numeric_matches_value() {
    let t = parse_target_value("5").unwrap();
    // 3-bit 101 = 5
    assert!(value_matches(Some("101"), "101", &t, 3));
    // 8-bit short form still equals 5
    assert!(value_matches(Some("00000101"), "00000101", &t, 8));
    assert!(!value_matches(Some("100"), "100", &t, 3));
}

#[test]
fn numeric_does_not_collide_with_bits() {
    // target 10 (decimal) must NOT match a 2-bit value "10" (=2).
    let t = parse_target_value("10").unwrap();
    assert!(!value_matches(Some("10"), "10", &t, 2));
    // but 4-bit 1010 = 10 matches
    assert!(value_matches(Some("1010"), "1010", &t, 4));
}

#[test]
fn four_state_pattern() {
    let t = parse_target_value("b1x0").unwrap();
    // width 4: target extends to 01x0? no: msb is '1' -> pad with 0 -> 01x0
    assert!(value_matches(Some("01x0"), "01x0", &t, 4));
    assert!(!value_matches(Some("0100"), "0100", &t, 4));
}

#[test]
fn ne_does_not_match_unknown() {
    let t = parse_target_value("0").unwrap();
    // value x, op != 0 -> false (unknown is not evidence of difference)
    assert!(!condition_match(Some("x"), Some("x"), Op::Ne, &t, 1));
    // value 1, != 0 -> true
    assert!(condition_match(Some("1"), Some("1"), Op::Ne, &t, 1));
}

#[test]
fn eq_x() {
    let t = parse_target_value("x").unwrap();
    assert!(condition_match(Some("x"), Some("x"), Op::Eq, &t, 1));
}

#[test]
fn condition_list() {
    let conds = parse_conditions("valid=1,ready=1").unwrap();
    assert_eq!(conds.len(), 2);
    assert_eq!(conds[0].pattern, "valid");
    assert_eq!(conds[0].op, Op::Eq);
}

#[test]
fn bignum_wide() {
    // 64-bit all ones
    let a = BigUint::from_binary(&"1".repeat(64)).unwrap();
    let b = BigUint::from_decimal("18446744073709551615").unwrap();
    assert_eq!(a, b);
    let c = BigUint::from_hex("ffffffffffffffff").unwrap();
    assert_eq!(a, c);
}

#[test]
fn numeric_targets_keep_their_text() {
    for (text, raw, value) in [
        ("B1010", "b1010", "10"),
        ("0b101", "0b101", "5"),
        (" b101 ", "b101", "5"),
        ("0XfF", "0xff", "255"),
        ("007", "007", "7"),
    ] {
        let t = parse_target_value(text).unwrap();
        assert_eq!(t.raw, raw);
        assert_eq!(t.int, BigUint::from_decimal(value), "{text}");
    }
    // A pattern is its states alone.
    assert_eq!(parse_target_value("0B1X").unwrap().raw, "1x");
    assert_eq!(parse_target_value("1Z").unwrap().raw, "1z");
}
