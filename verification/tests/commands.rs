use rwave::backend::FileFormat;
use rwave::batch::{answer, plan_line, report_failed, LinePlan};
use rwave::bitstr::BitStr;
use rwave::cli::{parse, Args, ParseOutcome};
use rwave::commands::{failure, run, Outside};
use rwave::format::ValueKind;
use rwave::history::{RawValue, SignalTrace};
use rwave::memory::{FileInfo, MemoryBackend};
use rwave::model::Wave;
use rwave::signal::{BackendSid, VarDecl};
use rwave::time::{Scaled, Timescale};

/// Ticks of one nanosecond.
struct Nanos;

impl Timescale for Nanos {
    fn is_known(&self) -> bool {
        true
    }

    fn fmt_time(&self, ticks: i64) -> String {
        if ticks == 0 {
            "0s".to_string()
        } else {
            format!("{ticks}ns")
        }
    }

    fn scale(&self, number: &str, unit: &str) -> Scaled {
        let n: i64 = match number.parse() {
            Ok(n) => n,
            Err(_) => return Scaled::Unreadable,
        };
        match unit {
            "ns" => Scaled::Ticks(n),
            "us" => Scaled::Ticks(n * 1000),
            _ => Scaled::Ticks(0),
        }
    }
}

fn decl(path: &str, scope: &str, width: u32, type_str: &'static str, kind: ValueKind, h: usize) -> VarDecl {
    VarDecl {
        full_path: path.to_string(),
        scope_path: scope.to_string(),
        width,
        type_str,
        kind,
        backend_sid: BackendSid(h),
    }
}

fn logic(changes: &[(i64, &str)]) -> SignalTrace {
    SignalTrace {
        times: changes.iter().map(|c| c.0).collect(),
        values: changes.iter().map(|c| RawValue::Bits(BitStr::new(c.1))).collect(),
    }
}

fn wave() -> Wave<MemoryBackend> {
    let decls = vec![
        decl("tb.clk", "tb", 1, "wire", ValueKind::Bits, 0),
        decl("tb.u.clk", "tb.u", 1, "wire", ValueKind::Bits, 0),
        decl("tb.u.data[7:0]", "tb.u", 8, "reg", ValueKind::Bits, 1),
        decl("tb.u.busy", "tb.u", 1, "reg", ValueKind::Bits, 2),
        decl("tb.rst", "tb", 1, "wire", ValueKind::Bits, 3),
    ];
    let traces = vec![
        logic(&[(0, "0"), (5, "1"), (10, "0"), (15, "1")]),
        logic(&[(0, "xxxxxxxx"), (5, "00000100"), (15, "11111111")]),
        logic(&[(5, "1"), (10, "0")]),
        logic(&[(0, "1")]),
    ];
    let info = FileInfo {
        path: "t.vcd".to_string(),
        format: FileFormat::Vcd,
        timescale: "1ns".to_string(),
        date: "today".to_string(),
        version: "sim 1".to_string(),
        comments: Vec::new(),
        time_range: Some((0, 15)),
        time_steps: 4,
    };
    Wave::from_backend(MemoryBackend::new(info, decls, traces, false))
}

fn args(words: &[&str]) -> Args {
    let argv: Vec<String> = words.iter().map(|w| w.to_string()).collect();
    match parse(&argv) {
        ParseOutcome::Run(a) => a,
        ParseOutcome::Error(e) => panic!("{e}"),
        _ => panic!("not a command"),
    }
}

fn out(words: &[&str]) -> String {
    run(&mut wave(), &args(words), &Outside::of_file(1234), &Nanos).unwrap()
}

fn err(words: &[&str]) -> String {
    run(&mut wave(), &args(words), &Outside::of_file(1234), &Nanos).unwrap_err()
}

#[test]
fn info_as_text() {
    assert_eq!(
        out(&["info", "t.vcd"]),
        "File      : t.vcd\n\
         Size      : 1,234 bytes\n\
         Date      : today\n\
         Tool      : sim 1\n\
         Timescale : 1ns\n\
         Signals   : 4 unique (5 $var refs via aliases)\n\
         Types     : wire=3, reg=2\n\
         Time      : 0s ~ 15ns (15ns)\n\
         \x20 scope: tb\n\
         \x20 scope: tb.u\n"
    );
}

#[test]
fn info_as_json() {
    assert_eq!(
        out(&["--json", "info", "t.vcd"]),
        "{\"file\":\"t.vcd\",\"size_bytes\":1234,\"timescale\":\"1ns\",\"date\":\"today\",\
         \"version\":\"sim 1\",\"comments\":[],\"signal_count\":4,\"reference_count\":5,\
         \"synthesized_buses\":0,\"var_types\":{\"wire\":3,\"reg\":2},\
         \"time_min_ticks\":0,\"time_min_h\":\"0s\",\"time_max_ticks\":15,\"time_max_h\":\"15ns\",\
         \"duration_ticks\":15,\"duration_h\":\"15ns\",\"scopes\":[\"tb\",\"tb.u\"]}\n"
    );
}

#[test]
fn list_has_a_row_for_every_alias() {
    assert_eq!(
        out(&["--json", "list", "t.vcd", "--filter", "clk"]),
        "{\"shown\":2,\"truncated\":false,\"total\":2,\"total_is_exact\":true,\"hint\":null,\
         \"signals\":[{\"path\":\"tb.clk\",\"width\":1,\"type\":\"wire\"},\
         {\"path\":\"tb.u.clk\",\"width\":1,\"type\":\"wire\"}]}\n"
    );
    assert_eq!(
        out(&["--json", "list", "t.vcd", "--filter", "nope"]),
        "{\"shown\":0,\"truncated\":false,\"total\":0,\"total_is_exact\":true,\
         \"hint\":\"the selection matched no signals; widen --filter/--scope, \
         or run list to see what is there\",\"signals\":[]}\n"
    );
}

#[test]
fn dump_in_time_order() {
    assert_eq!(
        out(&["dump", "t.vcd", "--begin", "5ns", "--end", "12ns"]),
        "Window: 5ns..12ns\n\
         T=5ns\n\
         \x20 tb.clk                                                  = 1\n\
         \x20 tb.u.data[7:0]                                          = 4 (0x04)\n\
         \x20 tb.u.busy                                               = 1\n\
         T=10ns\n\
         \x20 tb.clk                                                  = 0\n\
         \x20 tb.u.busy                                               = 0\n"
    );
    assert_eq!(
        out(&["--json", "dump", "t.vcd", "--filter", "data"]),
        "{\"window\":{\"begin_ticks\":0,\"begin_h\":\"0s\",\"end_ticks\":null,\"end_h\":null},\
         \"matched\":{\"count\":1,\"paths\":[\"tb.u.data[7:0]\"]},\"selected\":1,\"shown\":3,\
         \"truncated\":false,\"total\":3,\"total_is_exact\":true,\"hint\":null,\"events\":[\
         {\"time_ticks\":0,\"time_h\":\"0s\",\"path\":\"tb.u.data[7:0]\",\"value\":\"bxxxxxxxx\"},\
         {\"time_ticks\":5,\"time_h\":\"5ns\",\"path\":\"tb.u.data[7:0]\",\"value\":\"0x4\"},\
         {\"time_ticks\":15,\"time_h\":\"15ns\",\"path\":\"tb.u.data[7:0]\",\"value\":\"0xff\"}]}\n"
    );
}

#[test]
fn dump_stops_at_the_limit_and_says_so() {
    assert_eq!(
        out(&["--json", "--limit", "2", "dump", "t.vcd"]),
        "{\"window\":{\"begin_ticks\":0,\"begin_h\":\"0s\",\"end_ticks\":null,\"end_h\":null},\
         \"matched\":null,\"selected\":4,\"shown\":2,\"truncated\":true,\"total\":3,\
         \"total_is_exact\":false,\"hint\":\"showing 2 of 3+ events; re-run with --limit N \
         (or --limit 0 for all) to see the rest\",\"events\":[\
         {\"time_ticks\":0,\"time_h\":\"0s\",\"path\":\"tb.clk\",\"value\":\"0\"},\
         {\"time_ticks\":0,\"time_h\":\"0s\",\"path\":\"tb.u.data[7:0]\",\"value\":\"bxxxxxxxx\"}]}\n"
    );
    assert_eq!(
        out(&["--limit", "2", "dump", "t.vcd"]),
        "Window: 0s..(end)\n\
         T=0s\n\
         \x20 tb.clk                                                  = 0\n\
         \x20 tb.u.data[7:0]                                          = bxxxxxxxx\n\
         \n\
         >> TRUNCATED: showing 2 of 3+ events. Raise the cap with --limit N, or --limit 0 for all.\n"
    );
}

#[test]
fn summary_groups_signals_by_activity() {
    assert_eq!(
        out(&["summary", "t.vcd"]),
        "Window: 0s..(end)\n\
         Selected: 4, Defined: 4, Undefined: 0\n\
         Active: 3, Static: 1\n\
         \n\
         ACTIVE\n\
         \x20 tb.clk                                        chg=3 r=2 f=1 init=0 last=1\n\
         \x20 tb.u.busy                                     chg=2 r=0 f=1 init=(undef) last=0\n\
         \x20 tb.u.data[7:0]                                chg=2 init=bxxxxxxxx last=255 (0xff) has-unknown\n\
         \n\
         STATIC\n\
         \x20 tb.rst                                        value=1\n"
    );
    assert_eq!(
        out(&["--json", "summary", "t.vcd", "--filter", "data,rst"]),
        "{\"window\":{\"begin_ticks\":0,\"begin_h\":\"0s\",\"end_ticks\":null,\"end_h\":null},\
         \"selected\":2,\
         \"defined\":2,\"undefined\":0,\"active\":1,\"static\":1,\"shown\":2,\"truncated\":false,\
         \"total\":2,\"total_is_exact\":true,\"hint\":null,\"rows\":[\
         {\"kind\":\"active\",\"path\":\"tb.u.data[7:0]\",\"value\":null,\"changes\":2,\
         \"rise_count\":null,\"fall_count\":null,\"init\":\"bxxxxxxxx\",\"last\":\"0xff\",\
         \"first_at_ticks\":5,\"first_at_h\":\"5ns\",\"last_at_ticks\":15,\"last_at_h\":\"15ns\",\
         \"unique\":3,\"has_unknown\":true},\
         {\"kind\":\"static\",\"path\":\"tb.rst\",\"value\":\"1\",\"changes\":0,\"rise_count\":0,\
         \"fall_count\":0,\"init\":\"1\",\"last\":\"1\",\"unique\":1,\"has_unknown\":false}]}\n"
    );
}

#[test]
fn summary_says_nothing_of_the_selection() {
    assert_eq!(
        out(&["summary", "t.vcd", "--filter", "rst"]),
        "Window: 0s..(end)\n\
         Selected: 1, Defined: 1, Undefined: 0\n\
         Active: 0, Static: 1\n\
         \n\
         STATIC\n\
         \x20 tb.rst                                        value=1\n"
    );
    assert_eq!(
        out(&["summary", "t.vcd", "--filter", "nope"]),
        "Window: 0s..(end)\n\
         Selected: 0, Defined: 0, Undefined: 0\n\
         Active: 0, Static: 0\n\
         (no selected signals)\n"
    );
    assert_eq!(
        out(&["--json", "summary", "t.vcd", "--filter", "nope"]),
        "{\"window\":{\"begin_ticks\":0,\"begin_h\":\"0s\",\"end_ticks\":null,\"end_h\":null},\
         \"selected\":0,\"defined\":0,\"undefined\":0,\"active\":0,\"static\":0,\"shown\":0,\
         \"truncated\":false,\"total\":0,\"total_is_exact\":true,\"hint\":null,\"rows\":[]}\n"
    );
}

#[test]
fn snapshot_of_an_instant() {
    assert_eq!(
        out(&["snapshot", "t.vcd", "--at", "5ns"]),
        "Known snapshot @ 5ns\n\
         \x20 tb.clk                                                  = 1\n\
         \x20 tb.rst                                                  = 1\n\
         \x20 tb.u.busy                                               = 1\n\
         \x20 tb.u.data[7:0]                                          = 4 (0x04)\n"
    );
    assert_eq!(
        out(&["--json", "snapshot", "t.vcd", "--at", "3ns"]),
        "{\"at_ticks\":3,\"at_h\":\"3ns\",\"matched\":null,\"selected\":4,\"known\":3,\
         \"undefined\":1,\"shown\":3,\"truncated\":false,\"total\":3,\"total_is_exact\":true,\
         \"hint\":null,\"signals\":[\
         {\"path\":\"tb.clk\",\"value\":\"0\",\"undefined\":false},\
         {\"path\":\"tb.rst\",\"value\":\"1\",\"undefined\":false},\
         {\"path\":\"tb.u.data[7:0]\",\"value\":\"bxxxxxxxx\",\"undefined\":false}]}\n"
    );
}

#[test]
fn compare_of_two_instants() {
    assert_eq!(
        out(&["compare", "t.vcd", "--at", "3ns,12ns"]),
        "Compare: 3ns vs 12ns\n\
         2 changed, 2 unchanged\n\
         \x20 tb.u.busy                                        (undef) -> 0\n\
         \x20 tb.u.data[7:0]                                   bxxxxxxxx -> 4 (0x04)\n"
    );
    assert_eq!(
        out(&["--json", "compare", "t.vcd", "--at", "3ns,12ns"]),
        "{\"t1_ticks\":3,\"t1_h\":\"3ns\",\"t2_ticks\":12,\"t2_h\":\"12ns\",\"matched\":null,\
         \"selected\":4,\"unchanged\":2,\"shown\":2,\"truncated\":false,\"total\":2,\
         \"total_is_exact\":true,\"hint\":null,\"diffs\":[\
         {\"path\":\"tb.u.busy\",\"at_t1\":\"(undef)\",\"at_t2\":\"0\"},\
         {\"path\":\"tb.u.data[7:0]\",\"at_t1\":\"bxxxxxxxx\",\"at_t2\":\"0x4\"}]}\n"
    );
}

#[test]
fn search_for_segments() {
    assert_eq!(
        out(&["search", "t.vcd", "--condition", "busy=1", "--show", "data"]),
        "Found: 1 segment(s)\n\
         \x20 5ns         ..10ns         tb.u.data[7:0]=4 (0x04)\n"
    );
    assert_eq!(
        out(&["--json", "search", "t.vcd", "--condition", "busy=1", "--show", "data"]),
        "{\"mode\":\"segment\",\"condition\":\"busy=1\",\"condition_resolved\":\"tb.u.busy=1\",\
         \"changed\":[],\"show\":[\"tb.u.data[7:0]\"],\"window\":{\"begin_ticks\":0,\
         \"begin_h\":\"0s\",\"end_ticks\":15,\"end_h\":\"15ns\"},\"shown\":1,\"truncated\":false,\
         \"total\":1,\"total_is_exact\":true,\"hint\":null,\"rows\":[{\"begin_ticks\":5,\
         \"begin_h\":\"5ns\",\"end_ticks\":10,\"end_h\":\"10ns\",\
         \"values\":{\"tb.u.data[7:0]\":\"0x4\"}}]}\n"
    );
}

#[test]
fn search_for_events() {
    assert_eq!(
        out(&["search", "t.vcd", "--condition", "changed(tb.clk)", "--show", "data"]),
        "Found: 3 event(s)\n\
         \x20 T=5ns          tb.u.data[7:0]=4 (0x04)\n\
         \x20 T=10ns         tb.u.data[7:0]=4 (0x04)\n\
         \x20 T=15ns         tb.u.data[7:0]=255 (0xff)\n"
    );
    assert_eq!(
        out(&["--json", "search", "t.vcd", "--condition", "changed(data),busy=1"]),
        "{\"mode\":\"event\",\"condition\":\"changed(data),busy=1\",\
         \"condition_resolved\":\"changed(tb.u.data[7:0]),tb.u.busy=1\",\
         \"changed\":[\"tb.u.data[7:0]\"],\"show\":[\"tb.u.data[7:0]\"],\
         \"window\":{\"begin_ticks\":0,\"begin_h\":\"0s\",\"end_ticks\":15,\"end_h\":\"15ns\"},\
         \"shown\":1,\"truncated\":false,\"total\":1,\"total_is_exact\":true,\"hint\":null,\
         \"rows\":[{\"begin_ticks\":5,\"begin_h\":\"5ns\",\"end_ticks\":null,\"end_h\":null,\
         \"values\":{\"tb.u.data[7:0]\":\"0x4\"}}]}\n"
    );
}

#[test]
fn clauses_are_alternatives() {
    let both = out(&[
        "--json", "search", "t.vcd", "--condition", "busy=1", "--condition", "data=255", "--show", "clk",
    ]);
    assert!(both.contains("\"begin_ticks\":5,\"begin_h\":\"5ns\",\"end_ticks\":10"), "{both}");
    assert!(both.contains("\"begin_ticks\":15,"), "{both}");
    let once = out(&["--json", "search", "t.vcd", "--condition", "busy=1"]);
    let twice =
        out(&["--json", "search", "t.vcd", "--condition", "busy=1", "--condition", "busy=0b1"]);
    assert_eq!(once.matches("\"begin_ticks\":5").count(), 1);
    assert_eq!(twice.matches("\"begin_ticks\":5").count(), 1);
}

#[test]
fn search_refuses_what_it_cannot_resolve() {
    assert_eq!(
        err(&["search", "t.vcd", "--condition", "nothing=1"]),
        "condition signal pattern 'nothing' matches no signals"
    );
    assert!(err(&["search", "t.vcd", "--condition", "busy=1", "--condition", "changed(data)"])
        .contains("changed"));
}

#[test]
fn a_full_path_ignores_the_selection() {
    let free = out(&["--json", "search", "t.vcd", "--condition", "tb.u.busy=1"]);
    let shut = out(&["--json", "search", "t.vcd", "--condition", "tb.u.busy=1", "--exclude", "busy"]);
    assert_eq!(free, shut);
}

#[test]
fn tree_of_scopes() {
    assert_eq!(
        out(&["tree", "t.vcd"]),
        "tb — 2 scope(s), depth 1\n\
         \n\
         \x20 tb   2 signal(s), 1 child scope(s)\n\
         \x20   u  3 signal(s)\n"
    );
    assert_eq!(
        out(&["--json", "tree", "t.vcd"]),
        "{\"mode\":\"subtree\",\"roots\":[\"tb\"],\"depth\":1,\"root_signals\":0,\"shown\":2,\
         \"truncated\":false,\"total\":2,\"total_is_exact\":true,\"hint\":null,\"scopes\":[\
         {\"path\":\"tb\",\"name\":\"tb\",\"level\":0,\"signals\":2,\"children\":1},\
         {\"path\":\"tb.u\",\"name\":\"u\",\"level\":1,\"signals\":3,\"children\":0}]}\n"
    );
    assert_eq!(
        out(&["tree", "t.vcd", "--of", "data"]),
        "tb.u.data[7:0] — ancestors (top-down)\n\
         \n\
         \x20 tb    2 signal(s), 1 child scope(s)\n\
         \x20 tb.u  3 signal(s)\n"
    );
}

#[test]
fn selection_options_work_together() {
    let paths = |words: &[&str]| -> String { out(words) };
    let scoped = paths(&["--json", "list", "t.vcd", "--scope", "tb", "--depth", "1"]);
    assert!(scoped.contains("\"total\":2,"), "{scoped}");
    assert!(scoped.contains("tb.clk") && scoped.contains("tb.rst"));
    // A scope is matched by whole segments.
    let part = paths(&["--json", "list", "t.vcd", "--scope", "t"]);
    assert!(part.contains("\"total\":0,"), "{part}");
    // An excluded path does not take the signal's other path with it.
    let other = paths(&["--json", "snapshot", "t.vcd", "--at", "0", "--exclude", "tb.u.clk"]);
    assert!(other.contains("\"path\":\"tb.clk\""), "{other}");
    // A blank option is no option.
    assert_eq!(
        paths(&["--json", "list", "t.vcd", "--filter", ""]),
        paths(&["--json", "list", "t.vcd"])
    );
}

#[test]
fn trace_is_off_by_default() {
    assert_eq!(
        err(&["trace", "t.vcd", "data"]),
        "trace is experimental and off by default; set RWAVE_TRACE_EN=1 to enable it"
    );
}

#[test]
fn failures_are_reported() {
    assert_eq!(failure(true, None, "boom"), "{\"command\":null,\"ok\":false,\"error\":\"boom\"}\n");
    let info = args(&["info", "t.vcd"]).command;
    assert_eq!(
        failure(true, Some(&info), "a\nb"),
        "{\"command\":\"info\",\"ok\":false,\"error\":\"a\\nb\"}\n"
    );
    assert_eq!(failure(false, Some(&info), "boom"), "Error: boom\n");
}

#[test]
fn bad_times_are_refused() {
    assert!(err(&["dump", "t.vcd", "--begin", "soon"]).contains("soon"));
    assert!(!err(&["dump", "t.vcd", "--begin", "9ns", "--end", "3ns"]).is_empty());
}

fn batch(json: bool, lines: &[&str]) -> Vec<String> {
    let mut argv: Vec<String> = vec!["--batch".to_string()];
    if json {
        argv.push("--json".to_string());
    }
    argv.push("t.vcd".to_string());
    let inv = match parse(&argv) {
        ParseOutcome::Batch(b) => b,
        _ => panic!("no batch"),
    };
    let mut w = wave();
    let mut seq: u64 = 0;
    let mut replies: Vec<String> = Vec::new();
    for line in lines {
        let (plan, next) = plan_line(&inv, line, seq);
        seq = next;
        match plan {
            LinePlan::Skip => {}
            LinePlan::Fail { id, msg } => replies.push(report_failed(json, &id, &msg)),
            LinePlan::Run { id, args } => {
                replies.push(answer(&mut w, json, &id, &args, &Outside::of_file(1234), &Nanos))
            }
        }
    }
    replies
}

#[test]
fn batch_answers_every_command_in_order() {
    let replies = batch(
        true,
        &["", "# note", "list --filter clk #clocks", "nonsense", "search --condition zz=1", "list 'a"],
    );
    assert_eq!(replies.len(), 4);
    assert!(replies[0].starts_with("{\"id\":\"clocks\",\"ok\":true,\"result\":{"));
    assert_eq!(
        replies[1],
        "{\"id\":\"2\",\"ok\":false,\"error\":\"invalid command: 'nonsense' (choose from info, list, \
         dump, summary, snapshot, compare, search, tree, trace)\"}\n"
    );
    assert_eq!(
        replies[2],
        "{\"id\":\"3\",\"ok\":false,\"error\":\"condition signal pattern 'zz' matches no signals\"}\n"
    );
    assert_eq!(replies[3], "{\"id\":\"4\",\"ok\":false,\"error\":\"unterminated single quote\"}\n");
    for r in &replies {
        assert_eq!(r.matches('\n').count(), 1);
    }
}

#[test]
fn batch_result_is_the_single_result() {
    for words in [
        vec!["info"],
        vec!["list"],
        vec!["dump", "--filter", "data"],
        vec!["summary"],
        vec!["snapshot", "--at", "5"],
        vec!["compare", "--at", "3,12"],
        vec!["search", "--condition", "busy=1"],
        vec!["tree"],
    ] {
        let reply = batch(true, &[&words.join(" ")]).remove(0);
        let mut single = vec!["--json", words[0], "t.vcd"];
        single.extend(&words[1..]);
        let alone = out(&single);
        let want = format!("{{\"id\":\"1\",\"ok\":true,\"result\":{}}}\n", alone.trim_end());
        assert_eq!(reply, want);
    }
}

#[test]
fn batch_text_has_a_heading() {
    let replies = batch(false, &["snapshot --at 5ns #five", "nonsense"]);
    assert_eq!(replies[0], format!("#five\n{}", out(&["snapshot", "t.vcd", "--at", "5ns"])));
    assert!(replies[1].starts_with("#2\nError: invalid command: 'nonsense'"));
}

#[test]
fn repeated_questions_get_the_same_answer() {
    let mut w = wave();
    let a = args(&["--json", "summary", "t.vcd"]);
    let o = Outside::of_file(1);
    let first = run(&mut w, &a, &o, &Nanos).unwrap();
    run(&mut w, &args(&["dump", "t.vcd"]), &o, &Nanos).unwrap();
    assert_eq!(run(&mut w, &a, &o, &Nanos).unwrap(), first);
}

#[test]
fn values_written_apart_are_terms_apart() {
    let one = out(&["--json", "search", "t.vcd", "--condition", "busy=b1"]);
    let same = out(&["--json", "search", "t.vcd", "--condition", "busy=b1", "--condition", "busy=B1"]);
    assert_eq!(one, same);
    let apart = out(&["--json", "search", "t.vcd", "--condition", "busy=b1", "--condition", "busy=0b1"]);
    assert!(apart.contains("busy=b1"), "{apart}");
    assert!(apart.contains("busy=0b1"), "{apart}");
    assert!(!one.contains("busy=0b1"), "{one}");
}

/// Which ticks of `0..15` the rows of an interval search take in.
fn ticks_found(condition: &str) -> Vec<i64> {
    let text = out(&["--json", "search", "t.vcd", "--condition", condition]);
    let number = |part: &str| -> i64 {
        part.chars().take_while(|c| c.is_ascii_digit()).collect::<String>().parse().unwrap()
    };
    let rows = text.split("\"rows\":").nth(1).unwrap();
    let spans: Vec<(i64, i64)> = rows
        .split("\"begin_ticks\":")
        .skip(1)
        .map(|s| (number(s), number(s.split("\"end_ticks\":").nth(1).unwrap())))
        .collect();
    (0..15).filter(|t| spans.iter().any(|(b, e)| b <= t && t < e)).collect()
}

#[test]
fn rows_take_in_every_tick_of_the_condition() {
    assert_eq!(ticks_found("busy=1"), (5..10).collect::<Vec<i64>>());
    assert_eq!(ticks_found("clk=0"), (0..5).chain(10..15).collect::<Vec<i64>>());
    assert_eq!(ticks_found("data=4"), (5..15).collect::<Vec<i64>>());
    assert_eq!(ticks_found("data=4,clk=0"), (10..15).collect::<Vec<i64>>());
    assert_eq!(ticks_found("data=7"), Vec::<i64>::new());
}
