use rwave::backend::FileFormat;
use rwave::bitstr::BitStr;
use rwave::cli::{parse, Args, ParseOutcome};
use rwave::commands::{run, Outside};
use rwave::design::{Direction, Hop, HopKind, TraceOutcome, TraceStatus};
use rwave::endpoints::endpoint_index;
use rwave::format::ValueKind;
use rwave::history::{RawValue, SignalTrace};
use rwave::memory::{FileInfo, MemoryBackend};
use rwave::model::Wave;
use rwave::signal::{BackendSid, VarDecl};
use rwave::time::{Scaled, Timescale};
use rwave::trace::{trace_data, trace_question, TraceFacts};

/// Ticks of one nanosecond.
struct Nanos;

impl Timescale for Nanos {
    fn is_known(&self) -> bool {
        true
    }

    fn fmt_time(&self, ticks: i64) -> String {
        if ticks == 0 {
            "0s".to_string()
        } else {
            format!("{ticks}ns")
        }
    }

    fn scale(&self, number: &str, unit: &str) -> Scaled {
        let n: i64 = match number.parse() {
            Ok(n) => n,
            Err(_) => return Scaled::Unreadable,
        };
        match unit {
            "ns" => Scaled::Ticks(n),
            "us" => Scaled::Ticks(n * 1000),
            _ => Scaled::Ticks(0),
        }
    }
}

fn decl(path: &str, scope: &str, width: u32, type_str: &'static str, kind: ValueKind, h: usize) -> VarDecl {
    VarDecl {
        full_path: path.to_string(),
        scope_path: scope.to_string(),
        width,
        type_str,
        kind,
        backend_sid: BackendSid(h),
    }
}

fn logic(changes: &[(i64, &str)]) -> SignalTrace {
    SignalTrace {
        times: changes.iter().map(|c| c.0).collect(),
        values: changes.iter().map(|c| RawValue::Bits(BitStr::new(c.1))).collect(),
    }
}

fn wave() -> Wave<MemoryBackend> {
    let decls = vec![
        decl("tb.clk", "tb", 1, "wire", ValueKind::Bits, 0),
        decl("tb.u.clk", "tb.u", 1, "wire", ValueKind::Bits, 0),
        decl("tb.u.data[7:0]", "tb.u", 8, "reg", ValueKind::Bits, 1),
        decl("tb.u.busy", "tb.u", 1, "reg", ValueKind::Bits, 2),
        decl("tb.rst", "tb", 1, "wire", ValueKind::Bits, 3),
    ];
    let traces = vec![
        logic(&[(0, "0"), (5, "1"), (10, "0"), (15, "1")]),
        logic(&[(0, "xxxxxxxx"), (5, "00000100"), (15, "11111111")]),
        logic(&[(5, "1"), (10, "0")]),
        logic(&[(0, "1")]),
    ];
    let info = FileInfo {
        path: "t.vcd".to_string(),
        format: FileFormat::Vcd,
        timescale: "1ns".to_string(),
        date: "today".to_string(),
        version: "sim 1".to_string(),
        comments: Vec::new(),
        time_range: Some((0, 15)),
        time_steps: 4,
    };
    Wave::from_backend(MemoryBackend::new(info, decls, traces, false))
}

fn args(words: &[&str]) -> Args {
    let argv: Vec<String> = words.iter().map(|w| w.to_string()).collect();
    match parse(&argv) {
        ParseOutcome::Run(a) => a,
        ParseOutcome::Error(e) => panic!("{e}"),
        _ => panic!("not a command"),
    }
}

const ON: TraceFacts = TraceFacts { enabled: true, supported: true, replaced: false };

fn hop(kind: HopKind, statement: &str, file: Option<&str>, line: Option<u32>, signals: &[&str]) -> Hop {
    Hop {
        group: 0,
        kind,
        npi_type: "npi".to_string(),
        statement: statement.to_string(),
        scope: "tb.u".to_string(),
        file: file.map(|f| f.to_string()),
        line,
        boundary: false,
        signals: signals.iter().map(|s| s.to_string()).collect(),
    }
}

fn traced(words: &[&str], hops: Vec<Hop>, status: TraceStatus) -> String {
    let mut w = wave();
    let a = args(words);
    let ask = trace_question(&w, &a, ON, &Nanos).unwrap();
    let d = trace_data(ask, "/b/kdb.elab++".to_string(), TraceOutcome { hops, status });
    run(&mut w, &a, &Outside { size_bytes: 0, trace: Ok(d) }, &Nanos).unwrap()
}

fn two_drivers() -> Vec<Hop> {
    vec![
        hop(HopKind::ContAssign, "assign data = d;", Some("/host/rtl/u.sv"), Some(12), &["tb.clk", "tb.gone"]),
        hop(HopKind::Port, "data", None, None, &["TB.RST"]),
    ]
}

#[test]
fn trace_question_is_worked_out_in_order() {
    let w = wave();
    let a = args(&["trace", "t.vcd", "data"]);
    let off = TraceFacts { enabled: false, ..ON };
    assert_eq!(
        trace_question(&w, &a, off, &Nanos).unwrap_err(),
        "trace is experimental and off by default; set RWAVE_TRACE_EN=1 to enable it"
    );
    let none = TraceFacts { supported: false, ..ON };
    assert_eq!(
        trace_question(&w, &a, none, &Nanos).unwrap_err(),
        "trace requires an FSDB opened through the built-in Verdi NPI backend; 'vcd' has no design data."
    );
    assert!(trace_question(&w, &args(&["trace", "t.vcd", "nope"]), ON, &Nanos).is_err());
    // A bad time comes before the question whether the file can answer.
    let late = args(&["trace", "t.vcd", "data", "--at", "soon"]);
    assert!(trace_question(&w, &late, none, &Nanos).unwrap_err().contains("soon"));
    let q = trace_question(&w, &args(&["trace", "t.vcd", "data", "--load", "--control", "--at", "5ns"]), ON, &Nanos)
        .unwrap();
    assert_eq!(q.path, "tb.u.data[7:0]");
    assert_eq!(q.dir, Direction::Load);
    assert!(q.control);
    assert_eq!(q.at, Some(5));
}

#[test]
fn drivers_are_spelled_out() {
    assert_eq!(
        traced(&["trace", "t.vcd", "data"], two_drivers(), TraceStatus::Resolved),
        "tb.u.data[7:0] — 2 drivers\n\
         \n\
         \x20 assign  u.sv:12  assign data = d;\n\
         \x20                  from: tb.clk\n\
         \x20                  from: tb.gone\n\
         \x20 port             data\n\
         \x20                  from: TB.RST\n"
    );
}

#[test]
fn drivers_with_values() {
    assert_eq!(
        traced(&["trace", "t.vcd", "data", "--at", "5ns"], two_drivers(), TraceStatus::BoundaryOnly),
        "tb.u.data[7:0] — 2 drivers\n\
         \n\
         \x20 assign  u.sv:12  assign data = d;\n\
         \x20                  from: tb.clk = 1\n\
         \x20                  from: tb.gone\n\
         \x20 port             data\n\
         \x20                  from: TB.RST = 1\n\
         \n\
         driver is outside the traced hierarchy\n\
         \n\
         1 endpoint(s) not dumped in this waveform\n"
    );
}

#[test]
fn loads_stay_on_one_line() {
    assert_eq!(
        traced(&["trace", "t.vcd", "data", "--load"], two_drivers(), TraceStatus::Resolved),
        "tb.u.data[7:0] — 2 loads\n\
         \n\
         \x20 assign  u.sv:12  assign data = d;\n\
         \x20 port             -> TB.RST\n"
    );
}

#[test]
fn nothing_found() {
    assert_eq!(
        traced(&["--verbose", "trace", "t.vcd", "data"], vec![], TraceStatus::NotFound),
        "tb.u.data[7:0] — 0 drivers\n\
         \n\
         kdb: /b/kdb.elab++\n"
    );
}

#[test]
fn drivers_as_json() {
    assert_eq!(
        traced(&["--json", "--limit", "1", "trace", "t.vcd", "data", "--at", "5ns"], two_drivers(), TraceStatus::Resolved),
        "{\"signal\":\"tb.u.data[7:0]\",\"dir\":\"driver\",\"mode\":\"static\",\
         \"kdb\":\"/b/kdb.elab++\",\"status\":\"resolved\",\"at_ticks\":5,\"at_h\":\"5ns\",\
         \"unresolved_in_wave\":1,\"shown\":1,\"truncated\":true,\"total\":2,\"total_is_exact\":true,\
         \"hint\":\"showing 1 of 2 drivers; re-run with --limit N (or --limit 0 for all) to see the rest\",\
         \"drivers\":[{\"group\":0,\"kind\":\"assign\",\"npi_type\":\"npi\",\
         \"statement\":\"assign data = d;\",\"scope\":\"tb.u\",\"file\":\"/host/rtl/u.sv\",\
         \"line\":12,\"boundary\":false,\"signals\":[{\"path\":\"tb.clk\",\"value\":\"1\"},\
         {\"path\":\"tb.gone\",\"value\":null}]}]}\n"
    );
}

#[test]
fn endpoints_fall_back_to_folded_case_when_unambiguous() {
    let w = wave();
    let names: Vec<String> =
        ["tb.rst", "TB.RST", "Tb.U.Busy", "gone"].iter().map(|s| s.to_string()).collect();
    let index = endpoint_index(w.signals(), &names);
    assert_eq!(index.len(), 4);
    assert!(index[0].is_some());
    assert_eq!(index[0], index[1]);
    assert!(index[2].is_some());
    assert_eq!(index[3], None);
}
