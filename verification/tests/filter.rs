use rwave::filter::{Filters, MatchMode};

/// Match a path whose leaf is everything after the last '.', which is what
/// the ordinary (non-escaped) signals in these cases have. Real callers
/// take the leaf from the signal table, never by splitting.
fn m(f: &Filters, path: &str) -> bool {
    let leaf = path.rsplit('.').next().unwrap_or(path);
    f.matches_path_leaf(path, leaf)
}

#[test]
fn substring_default() {
    let f = Filters::parse_csv("clk,rst").unwrap();
    assert!(m(&f, "tb.clk"));
    assert!(m(&f, "tb.rst_n"));
    assert!(!m(&f, "tb.data"));
}

#[test]
fn case_insensitive() {
    let f = Filters::parse_csv("CLK").unwrap();
    assert!(m(&f, "tb.clk"));
}

#[test]
fn glob_suffix() {
    let f = Filters::parse_csv("*_valid,*_ready").unwrap();
    assert!(m(&f, "tb.a_valid"));
    assert!(m(&f, "tb.b_ready"));
    assert!(!m(&f, "tb.valid_x"));
}

#[test]
fn glob_scope_prefix() {
    let f = Filters::parse_csv("top.u_dma.*").unwrap();
    assert!(m(&f, "top.u_dma.req"));
    assert!(!m(&f, "top.u_cpu.req"));
}

#[test]
fn brackets_are_literal() {
    // The '[' is literal; '*data[7:0]' matches the leaf 'data[7:0]'.
    let f = Filters::parse_csv("*data[7:0]").unwrap();
    assert!(m(&f, "tb.data[7:0]"));
    assert!(!m(&f, "tb.data[3:0]"));
}

#[test]
fn question_mark() {
    let f = Filters::parse_csv("d?ta").unwrap();
    assert!(m(&f, "data"));
    assert!(m(&f, "dxta"));
    assert!(!m(&f, "dta"));
}

#[test]
fn dotless_pattern_matches_the_leaf_not_the_scope() {
    // The motivating case: a CDC synchronizer instance is named after the
    // signal it synchronizes, so a whole-path match would drag in every net
    // inside it.
    let f = Filters::parse_csv("status").unwrap();
    assert!(m(&f, "top.status"));
    assert!(m(&f, "top.u_dma.status_q"));
    assert!(!m(&f, "top.u_bcm21_sync_status.clk_d"));
    assert!(!m(&f, "top.u_bcm21_sync_status.q_p"));
}

#[test]
fn dotless_glob_anchors_to_the_leaf() {
    // Anchored against the leaf alone, so it cannot swallow scopes.
    let f = Filters::parse_csv("tb*").unwrap();
    assert!(m(&f, "tb_done"));
    assert!(!m(&f, "tb.clk"));
}

#[test]
fn dotted_pattern_matches_the_whole_path() {
    let f = Filters::parse_csv("dma.req").unwrap();
    assert!(m(&f, "top.u_dma.req"));
    assert!(!m(&f, "top.u_cpu.req"));
    // A trailing dot is the way to ask for "anywhere under this name".
    let f = Filters::parse_csv("u_bcm21_sync_status.").unwrap();
    assert!(m(&f, "top.u_bcm21_sync_status.clk_d"));
}

#[test]
fn leaf_matching_ignores_a_scope_that_shares_the_name() {
    // `clk` must not select every signal under a scope called `clk_gen`.
    let f = Filters::parse_csv("clk").unwrap();
    assert!(m(&f, "top.clk_div"));
    assert!(!m(&f, "top.clk_gen.enable"));
}

#[test]
fn a_slash_separated_pattern_addresses_the_path() {
    // The built-in FSDB backend emits '/'-separated hierarchies. A pattern
    // written that way is reaching for the hierarchy just as plainly as a
    // dotted one, so it must not be matched against the leaf name.
    let path = "top/u_dma/req";
    let leaf = "req";
    for pat in ["top/u_dma/*", "u_dma/", "u_dma/req"] {
        let f = Filters::parse_csv(pat).unwrap();
        assert!(f.matches_path_leaf(path, leaf), "{pat} should match {path}");
    }
    // A different subtree is still excluded.
    let f = Filters::parse_csv("u_cpu/").unwrap();
    assert!(!f.matches_path_leaf(path, leaf));
    // And a bare name still means the leaf, on either separator style.
    let f = Filters::parse_csv("req").unwrap();
    assert!(f.matches_path_leaf(path, leaf));
    let f = Filters::parse_csv("u_dma").unwrap();
    assert!(!f.matches_path_leaf(path, leaf), "a scope name is not a leaf name");
}

/// The motivating case for `--exact`: a substring pattern also names every
/// signal that merely starts with it, and a strobe sharing the prefix is
/// exactly the sort of thing that comes back looking like the answer.
#[test]
fn exact_mode_requires_the_whole_leaf() {
    let sub = Filters::parse_csv("DtsmTrainVal0Min").unwrap();
    assert!(m(&sub, "tb.DtsmTrainVal0Min"));
    assert!(m(&sub, "tb.DtsmTrainVal0Min_strobe"), "substring catches the strobe");

    let exact = Filters::parse_csv_mode("DtsmTrainVal0Min", MatchMode::Exact).unwrap();
    assert!(m(&exact, "tb.DtsmTrainVal0Min"));
    assert!(!m(&exact, "tb.DtsmTrainVal0Min_strobe"));
    assert!(!m(&exact, "tb.pre_DtsmTrainVal0Min"));
}

/// Exact mode picks the haystack the same way substring mode does: a
/// separator in the pattern still means "match the whole path".
#[test]
fn exact_mode_keeps_the_leaf_versus_path_split() {
    let f = Filters::parse_csv_mode("tb.clk", MatchMode::Exact).unwrap();
    assert!(f.matches_path_leaf("tb.clk", "clk"));
    assert!(!f.matches_path_leaf("top.tb.clk", "clk"), "anchored, not a suffix");
    let f = Filters::parse_csv_mode("clk", MatchMode::Exact).unwrap();
    assert!(f.matches_path_leaf("top.tb.clk", "clk"), "bare name still means the leaf");
}

/// A pattern that already carries a wildcard is anchored either way, so
/// `--exact` leaves it alone rather than turning `*` into a literal.
#[test]
fn exact_mode_does_not_change_a_glob() {
    for mode in [MatchMode::Substring, MatchMode::Exact] {
        let f = Filters::parse_csv_mode("*_valid", mode).unwrap();
        assert!(m(&f, "tb.a_valid"), "{mode:?}");
        assert!(!m(&f, "tb.a_valid_q"), "{mode:?}");
    }
}

/// Exactness is about anchoring, not about case: every other pattern in the
/// tool folds case, and one that did not would be a trap of its own.
#[test]
fn exact_mode_is_still_case_insensitive() {
    let f = Filters::parse_csv_mode("CLK", MatchMode::Exact).unwrap();
    assert!(m(&f, "tb.clk"));
}

#[test]
fn escaped_identifier_leaf_is_matched_whole() {
    // The leaf comes from the signal table, dots and all — so a pattern
    // naming part of it matches, and one naming the scope does not.
    let f = Filters::parse_csv("bar").unwrap();
    assert!(f.matches_path_leaf(r"tb.\foo.bar", r"\foo.bar"));
    let f = Filters::parse_csv("tb").unwrap();
    assert!(!f.matches_path_leaf(r"tb.\foo.bar", r"\foo.bar"));
}

#[test]
fn separators_as_written_choose_the_text() {
    for mode in [MatchMode::Substring, MatchMode::Exact] {
        for q in ["Req", " req ", "r?q", "*eq*", "re**q"] {
            let f = Filters::parse_csv_mode(q, mode).unwrap();
            for leaf in ["req", "REQ", "xreqy", "ack"] {
                let want = f.matches_path_leaf("a.req", leaf);
                assert_eq!(f.matches_path_leaf("nowhere", leaf), want, "{q} {leaf}");
            }
        }
        for q in ["A.Req", "a/req", "*.req", "a.?eq"] {
            let f = Filters::parse_csv_mode(q, mode).unwrap();
            for path in ["a.req", "A.REQ", "a/req", "b.a.req.c"] {
                let want = f.matches_path_leaf(path, "req");
                assert_eq!(f.matches_path_leaf(path, "nothing"), want, "{q} {path}");
            }
        }
    }
}

#[test]
fn exact_mode_as_written_is_equality() {
    for q in ["Clk", " clk\t", "data[7:0]", "a.b", "x/Y"] {
        let f = Filters::parse_csv_mode(q, MatchMode::Exact).unwrap();
        let whole = q.contains('.') || q.contains('/');
        for h in ["clk", "CLK", "clk2", "Data[7:0]", "data[7]", "A.B", "a.b.c", "X/y", ""] {
            let want = h.to_lowercase() == q.trim().to_lowercase();
            let got = if whole { f.matches_path_leaf(h, "-") } else { f.matches_path_leaf("-", h) };
            assert_eq!(got, want, "{q} {h}");
        }
    }
    for q in ["c*k", "?lk", "a.*", "**"] {
        let exact = Filters::parse_csv_mode(q, MatchMode::Exact).unwrap();
        let part = Filters::parse_csv_mode(q, MatchMode::Substring).unwrap();
        for (path, leaf) in [("a.clk", "clk"), ("a.b", "b"), ("clk", "CLK"), ("", "")] {
            assert_eq!(exact.matches_path_leaf(path, leaf), part.matches_path_leaf(path, leaf), "{q}");
        }
    }
}

#[test]
fn lower_casing_neither_makes_nor_takes_marks() {
    for n in 0..=0x10ffffu32 {
        if let Some(c) = char::from_u32(n) {
            let lower = format!("a{c}b").to_lowercase();
            for m in ['.', '/', '*', '?'] {
                assert_eq!(lower.contains(m), c == m, "{n:x}");
            }
        }
    }
}

#[test]
fn patterns_outside_ascii_match_as_written() {
    // The capital letters here have lower-case forms, one of two characters.
    for q in ["\u{130}N", "\u{c4}\u{3a3}", "\u{212a}", " \u{c9}T\u{c9} "] {
        let lower = q.trim().to_lowercase();
        let exact = Filters::parse_csv_mode(q, MatchMode::Exact).unwrap();
        assert!(exact.matches_path_leaf("nowhere", &lower), "{q}");
        assert!(exact.matches_path_leaf("nowhere", q.trim()), "{q}");
        assert!(!exact.matches_path_leaf(&lower, "x"), "{q}");
        assert!(!exact.matches_path_leaf("nowhere", &format!("{lower}x")), "{q}");
        let part = Filters::parse_csv(q).unwrap();
        assert!(part.matches_path_leaf("nowhere", &format!("x{lower}x")), "{q}");
        let dotted = format!("T\u{dc}.{}", q.trim());
        let path = Filters::parse_csv_mode(&dotted, MatchMode::Exact).unwrap();
        assert!(path.matches_path_leaf(&dotted.to_lowercase(), "x"), "{q}");
        assert!(!path.matches_path_leaf("x", &dotted.to_lowercase()), "{q}");
        let glob = format!("*{}?", q.trim());
        for mode in [MatchMode::Substring, MatchMode::Exact] {
            let f = Filters::parse_csv_mode(&glob, mode).unwrap();
            let hay = glob.to_lowercase().replace('*', "x").replace('?', "y");
            assert!(f.matches_path_leaf("nowhere", &hay), "{q}");
            assert!(!f.matches_path_leaf("nowhere", &lower), "{q}");
        }
    }
}
