use rwave::time::{
    general_form, parse_time, split_exp, strip_trailing_zeros, GeneralForm, NoTimescale, Scaled,
    Timescale,
};

const UNITS: &[(&str, f64)] =
    &[("fs", 1e-15), ("ps", 1e-12), ("ns", 1e-9), ("us", 1e-6), ("ms", 1e-3), ("s", 1.0)];

/// Seconds per tick.
struct Seconds(f64);

fn round_half_even(x: f64) -> f64 {
    let r = x.round();
    if (x - x.trunc()).abs() == 0.5 {
        let floor = x.floor();
        if (floor as i64) % 2 == 0 {
            floor
        } else {
            floor + 1.0
        }
    } else {
        r
    }
}

fn fmt_g(x: f64) -> String {
    if x == 0.0 {
        return "0".to_string();
    }
    match general_form(&format!("{:.*e}", 5, x)) {
        GeneralForm::Text(s) => s,
        GeneralForm::Fixed(n) => strip_trailing_zeros(&format!("{:.*}", n, x)),
    }
}

impl Timescale for Seconds {
    fn is_known(&self) -> bool {
        self.0 > 0.0
    }

    fn fmt_time(&self, ticks: i64) -> String {
        if ticks == 0 {
            return "0s".to_string();
        }
        if !self.0.is_finite() || self.0 <= 0.0 {
            return "?".to_string();
        }
        let sec = ticks as f64 * self.0;
        if !sec.is_finite() {
            return "?".to_string();
        }
        for (u, f) in UNITS {
            let scaled = sec / f;
            if (-1000.0 < scaled && scaled < 1000.0) || *u == "s" {
                return format!("{}{}", fmt_g(scaled), u);
            }
        }
        format!("{}s", fmt_g(sec))
    }

    fn scale(&self, number: &str, unit: &str) -> Scaled {
        let factor = UNITS.iter().find(|(u, _)| *u == unit).map(|(_, f)| *f).unwrap();
        let val: f64 = match number.parse() {
            Ok(v) => v,
            Err(_) => return Scaled::Unreadable,
        };
        let scaled = val * factor / self.0;
        if !scaled.is_finite() {
            return Scaled::NotFinite;
        }
        let rounded = round_half_even(scaled);
        if rounded < 0.0 {
            return Scaled::Negative;
        }
        if rounded >= i64::MAX as f64 {
            return Scaled::TooLarge;
        }
        Scaled::Ticks(rounded as i64)
    }
}

#[test]
fn time_underscores_match_python_int() {
    let ts = Seconds(1e-9);
    assert_eq!(parse_time("1_000", &ts).unwrap(), 1000);
    assert_eq!(parse_time("1_0_0_0", &ts).unwrap(), 1000);
    for bad in ["1__000", "_1000", "1000_", "_", "1_"] {
        assert!(parse_time(bad, &ts).is_err(), "should reject {bad}");
    }
    assert!(parse_time("1_000ns", &ts).is_err());
    assert!(parse_time("10_00ns", &ts).is_err());
    assert!(parse_time("0x1_0", &ts).is_err());
}

#[test]
fn time_overflow_reports_too_large() {
    let ts = Seconds(1e-9);
    let e = parse_time("99999999999999999999", &ts).unwrap_err();
    assert!(e.0.contains("too large"), "got: {}", e.0);
    assert!(e.0.contains("9223372036854775807"), "got: {}", e.0);
    let e = parse_time("9223372036854775808", &ts).unwrap_err();
    assert!(e.0.contains("too large"), "got: {}", e.0);
    assert_eq!(parse_time("9223372036854775807", &ts).unwrap(), i64::MAX);
    let e = parse_time("abc", &ts).unwrap_err();
    assert!(e.0.contains("invalid time value"), "got: {}", e.0);
    let e = parse_time("-5", &ts).unwrap_err();
    assert!(e.0.contains("non-negative"), "got: {}", e.0);
}

#[test]
fn time_unit_overflow_rejects_at_f64_boundary() {
    let e = parse_time("9223372036854775808.0ns", &Seconds(1e-9)).unwrap_err();
    assert!(e.0.contains("too large"), "got: {}", e.0);
    let e = parse_time("99999999999999999999.0s", &Seconds(1.0)).unwrap_err();
    assert!(e.0.contains("too large"), "got: {}", e.0);
}

#[test]
fn time_parse_bare_and_units() {
    let ts = Seconds(1e-9);
    assert_eq!(parse_time("0", &ts).unwrap(), 0);
    assert_eq!(parse_time("100", &ts).unwrap(), 100);
    assert_eq!(parse_time("100ns", &ts).unwrap(), 100);
    assert_eq!(parse_time("1us", &ts).unwrap(), 1000);
    assert_eq!(parse_time("17.5us", &ts).unwrap(), 17500);
    assert_eq!(parse_time(".5ns", &ts).unwrap(), 0);
    assert_eq!(parse_time("1.5ns", &ts).unwrap(), 2);
    assert_eq!(parse_time("2.5ns", &ts).unwrap(), 2);
}

#[test]
fn time_parse_rejects() {
    let ts = Seconds(1e-9);
    assert!(parse_time("10.5", &ts).is_err());
    assert!(parse_time("5 ns", &ts).is_err());
    assert!(parse_time("-5", &ts).is_err());
    assert_eq!(parse_time("-0", &ts).unwrap(), 0);
}

#[test]
fn fmt_time_examples() {
    let ts = Seconds(1e-9);
    assert_eq!(ts.fmt_time(0), "0s");
    assert_eq!(ts.fmt_time(5), "5ns");
    assert_eq!(ts.fmt_time(1000), "1us");
    assert_eq!(ts.fmt_time(17534700), "17.5347ms");
    assert_eq!(ts.fmt_time(100), "100ns");
}

#[test]
fn fmt_g_matches_python() {
    assert_eq!(fmt_g(5.0), "5");
    assert_eq!(fmt_g(17.5347), "17.5347");
    assert_eq!(fmt_g(1.0), "1");
    assert_eq!(fmt_g(0.5), "0.5");
    assert_eq!(fmt_g(1000.0), "1000");
    assert_eq!(fmt_g(0.001), "0.001");
}

#[test]
fn scientific_numbers_are_cut_at_the_exponent() {
    assert_eq!(split_exp("1.23456e-7"), ("1.23456".to_string(), -7));
    assert_eq!(split_exp("12.5"), ("12.5".to_string(), 0));
    match general_form("1.20000e-7") {
        GeneralForm::Text(s) => assert_eq!(s, "1.2e-07"),
        GeneralForm::Fixed(_) => panic!("expected scientific form"),
    }
    match general_form("5.00000e12") {
        GeneralForm::Text(s) => assert_eq!(s, "5e+12"),
        GeneralForm::Fixed(_) => panic!("expected scientific form"),
    }
    match general_form("1.75347e1") {
        GeneralForm::Text(_) => panic!("expected fixed form"),
        GeneralForm::Fixed(n) => assert_eq!(n, 4),
    }
    assert_eq!(strip_trailing_zeros("17.5000"), "17.5");
    assert_eq!(strip_trailing_zeros("0.000"), "0");
    assert_eq!(strip_trailing_zeros("-0.0"), "-0");
    assert_eq!(strip_trailing_zeros("100"), "100");
}

#[test]
fn a_file_without_timescale_takes_bare_ticks_only() {
    let ts = NoTimescale;
    assert_eq!(parse_time("12", &ts).unwrap(), 12);
    let e = parse_time("12ns", &ts).unwrap_err();
    assert_eq!(e.0, "cannot convert time with unit because timescale is 0 or invalid");
    assert_eq!(ts.fmt_time(0), "0s");
    assert_eq!(ts.fmt_time(7), "?");
    let e = parse_time(&"1".repeat(101), &ts).unwrap_err();
    assert_eq!(e.0, "time value too long; max length is 100");
    let e = parse_time("1.5", &ts).unwrap_err();
    assert_eq!(
        e.0,
        "bare numeric time must be integer ticks; got '1.5'. Use a unit suffix for fractional times, e.g. 1.5ns"
    );
}
