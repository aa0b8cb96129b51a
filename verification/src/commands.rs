//! Running a command against an open waveform, alone or as a line of a batch.

use vstd::prelude::*;

use crate::backend::WaveformBackend;
use crate::cli::{cmd_name, command_name, Args, ArgsView, Command};
use crate::compare::{compare_json, compare_of, compare_text, compute_compare, text_compare};
use crate::dump::{compute_dump, dump_json, dump_of, dump_text, text_dump};
use crate::info::{compute_info, info_json, info_text, text_info};
use crate::json::{compact, Json, JsonView, Obj};
use crate::list::{compute_list, list_json, list_of, list_selective, list_text, text_list};
use crate::model::{Wave, WaveView};
use crate::report::{limit_of, limit_view};
use crate::search::{compute_search, search_json, search_of, search_text, text_search};
use crate::snapshot::{
    compute_snapshot, snapshot_json, snapshot_of, snapshot_text, text_snapshot,
};
use crate::summary::{compute_summary, summary_json, summary_of, summary_text, text_summary};
use crate::time::Timescale;
use crate::trace::{
    trace_json, trace_text, trace_to_json, trace_to_text, TraceData, TraceView, TRACE_OFF,
};
use crate::tree::{compute_tree, text_tree, tree_json, tree_of, tree_text};

verus! {

/// What a command needs to know that is not in the waveform.
pub struct Outside {
    /// The size of the file.
    pub size_bytes: i64,
    /// What the design answered, or why it did not.
    pub trace: Result<TraceData, String>,
}

pub struct OutsideView {
    pub size: int,
    pub trace: Result<TraceView, Seq<char>>,
}

impl View for Outside {
    type V = OutsideView;

    open spec fn view(&self) -> OutsideView {
        OutsideView {
            size: self.size_bytes as int,
            trace: match self.trace {
                Ok(d) => Ok(d@),
                Err(e) => Err(e@),
            },
        }
    }
}

impl Outside {
    /// The file alone; the design is not asked.
    pub fn of_file(size_bytes: i64) -> (r: Outside)
        ensures
            r@ == (OutsideView { size: size_bytes as int, trace: Err(TRACE_OFF@) }),
    {
        Outside { size_bytes, trace: Err(TRACE_OFF.to_owned()) }
    }
}

/// A command's outcome in structured form.
pub open spec fn computed<T: Timescale>(w: WaveView, a: ArgsView, out: OutsideView, ts: &T) -> Result<
    JsonView,
    Seq<char>,
> {
    let limit = limit_view(a);
    match a.command {
        Command::Info => Ok(info_json(w, out.size, ts)),
        Command::List => match list_of(w.table, a) {
            Ok(e) => Ok(list_json(w.table, e, list_selective(a), a.verbose, limit)),
            Err(e) => Err(e),
        },
        Command::Dump => match dump_of(w, a, ts) {
            Ok(d) => Ok(dump_json(w, d, a.verbose, ts)),
            Err(e) => Err(e),
        },
        Command::Summary => match summary_of(w, a, ts) {
            Ok(d) => Ok(summary_json(w.table, d, a.verbose, limit, ts)),
            Err(e) => Err(e),
        },
        Command::Snapshot => match snapshot_of(w, a, ts) {
            Ok(d) => Ok(snapshot_json(w.table, d, a.verbose, limit, ts)),
            Err(e) => Err(e),
        },
        Command::Compare => match compare_of(w, a, ts) {
            Ok(d) => Ok(compare_json(w.table, d, a.verbose, limit, ts)),
            Err(e) => Err(e),
        },
        Command::Search => match search_of(w, a, ts) {
            Ok(d) => Ok(search_json(w, d, a.verbose, limit as usize, ts)),
            Err(e) => Err(e),
        },
        Command::Tree => match tree_of(w.table, a) {
            Ok(d) => Ok(tree_json(d, limit)),
            Err(e) => Err(e),
        },
        Command::Trace => match out.trace {
            Ok(d) => Ok(trace_json(w, d, limit, ts)),
            Err(e) => Err(e),
        },
    }
}

/// A command's outcome as text.
pub open spec fn rendered<T: Timescale>(w: WaveView, a: ArgsView, out: OutsideView, ts: &T) -> Result<
    Seq<char>,
    Seq<char>,
> {
    let limit = limit_view(a);
    match a.command {
        Command::Info => Ok(info_text(w, out.size, a.verbose, ts)),
        Command::List => match list_of(w.table, a) {
            Ok(e) => Ok(list_text(w.table, e, list_selective(a), limit)),
            Err(e) => Err(e),
        },
        Command::Dump => match dump_of(w, a, ts) {
            Ok(d) => Ok(dump_text(w, d, a.verbose, ts)),
            Err(e) => Err(e),
        },
        Command::Summary => match summary_of(w, a, ts) {
            Ok(d) => Ok(summary_text(w.table, d, a.verbose, limit, ts)),
            Err(e) => Err(e),
        },
        Command::Snapshot => match snapshot_of(w, a, ts) {
            Ok(d) => Ok(snapshot_text(w.table, d, a.verbose, limit, ts)),
            Err(e) => Err(e),
        },
        Command::Compare => match compare_of(w, a, ts) {
            Ok(d) => Ok(compare_text(w.table, d, limit, ts)),
            Err(e) => Err(e),
        },
        Command::Search => match search_of(w, a, ts) {
            Ok(d) => Ok(search_text(w, d, limit as usize, ts)),
            Err(e) => Err(e),
        },
        Command::Tree => match tree_of(w.table, a) {
            Ok(d) => Ok(tree_text(d, limit)),
            Err(e) => Err(e),
        },
        Command::Trace => match out.trace {
            Ok(d) => Ok(trace_text(w, d, a.verbose, limit)),
            Err(e) => Err(e),
        },
    }
}

/// Run a command and give its outcome in structured form.
pub fn compute<B: WaveformBackend, T: Timescale>(
    wave: &mut Wave<B>,
    args: &Args,
    outside: &Outside,
    ts: &T,
) -> (r: Result<Json, String>)
    requires
        old(wave).wf(),
    ensures
        final(wave).wf(),
        final(wave).same_wave(old(wave)),
        match computed(old(wave).snap(), args@, outside@, ts) {
            Err(e) => r is Err && r->Err_0@ == e,
            Ok(j) => r is Ok && r->Ok_0@ == j,
        },
{
    proof {
        wave.table_is_ok();
    }
    match args.command {
        Command::Info => Ok(compute_info(wave, outside.size_bytes, ts)),
        Command::List => compute_list(wave.signals(), args),
        Command::Dump => compute_dump(wave, args, ts),
        Command::Summary => compute_summary(wave, args, ts),
        Command::Snapshot => compute_snapshot(wave, args, ts),
        Command::Compare => compute_compare(wave, args, ts),
        Command::Search => compute_search(wave, args, ts),
        Command::Tree => compute_tree(wave, args),
        Command::Trace => match &outside.trace {
            Ok(d) => Ok(trace_to_json(wave, d, limit_of(args), ts)),
            Err(e) => Err(e.clone()),
        },
    }
}

/// Run a command and give its outcome as text.
pub fn render_text<B: WaveformBackend, T: Timescale>(
    wave: &mut Wave<B>,
    args: &Args,
    outside: &Outside,
    ts: &T,
) -> (r: Result<String, String>)
    requires
        old(wave).wf(),
    ensures
        final(wave).wf(),
        final(wave).same_wave(old(wave)),
        match rendered(old(wave).snap(), args@, outside@, ts) {
            Err(e) => r is Err && r->Err_0@ == e,
            Ok(s) => r is Ok && r->Ok_0@ == s,
        },
{
    proof {
        wave.table_is_ok();
    }
    match args.command {
        Command::Info => Ok(text_info(wave, outside.size_bytes, args.verbose, ts)),
        Command::List => text_list(wave.signals(), args),
        Command::Dump => text_dump(wave, args, ts),
        Command::Summary => text_summary(wave, args, ts),
        Command::Snapshot => text_snapshot(wave, args, ts),
        Command::Compare => text_compare(wave, args, ts),
        Command::Search => text_search(wave, args, ts),
        Command::Tree => text_tree(wave, args),
        Command::Trace => match &outside.trace {
            Ok(d) => Ok(trace_to_text(wave, d, args.verbose, limit_of(args))),
            Err(e) => Err(e.clone()),
        },
    }
}

/// What a single command writes.
pub open spec fn output_of<T: Timescale>(w: WaveView, a: ArgsView, out: OutsideView, ts: &T) -> Result<
    Seq<char>,
    Seq<char>,
> {
    if a.json {
        match computed(w, a, out, ts) {
            Ok(j) => Ok(compact(j) + "\n"@),
            Err(e) => Err(e),
        }
    } else {
        rendered(w, a, out, ts)
    }
}

/// Run a single command and give what it writes.
pub fn run<B: WaveformBackend, T: Timescale>(
    wave: &mut Wave<B>,
    args: &Args,
    outside: &Outside,
    ts: &T,
) -> (r: Result<String, String>)
    requires
        old(wave).wf(),
    ensures
        final(wave).wf(),
        final(wave).same_wave(old(wave)),
        match output_of(old(wave).snap(), args@, outside@, ts) {
            Err(e) => r is Err && r->Err_0@ == e,
            Ok(s) => r is Ok && r->Ok_0@ == s,
        },
{
    if args.json {
        match compute(wave, args, outside, ts) {
            Ok(j) => {
                let mut s: String = j.to_compact_string();
                s.push_str("\n");
                Ok(s)
            },
            Err(e) => Err(e),
        }
    } else {
        render_text(wave, args, outside, ts)
    }
}

pub open spec fn opt_command(c: Option<&Command>) -> Option<Command> {
    match c {
        Some(x) => Some(*x),
        None => None,
    }
}

pub open spec fn command_json(c: Option<Command>) -> JsonView {
    match c {
        Some(x) => JsonView::Str(command_name(x)),
        None => JsonView::Null,
    }
}

/// A failure as it is reported: a line of text, or a JSON object.
pub open spec fn failure_text(json: bool, command: Option<Command>, msg: Seq<char>) -> Seq<char> {
    if json {
        compact(
            JsonView::Object(
                seq![
                    ("command"@, command_json(command)),
                    ("ok"@, JsonView::Bool(false)),
                    ("error"@, JsonView::Str(msg)),
                ],
            ),
        ) + "\n"@
    } else {
        "Error: "@ + msg + "\n"@
    }
}

/// Report a failure.
pub fn failure(json: bool, command: Option<&Command>, msg: &str) -> (s: String)
    ensures
        s@ == failure_text(json, opt_command(command), msg@),
{
    if !json {
        let mut s: String = "Error: ".to_owned();
        s.push_str(msg);
        s.push_str("\n");
        return s;
    }
    let name: Json = match command {
        Some(c) => Json::str(cmd_name(c)),
        None => Json::Null,
    };
    assert(name@ == command_json(opt_command(command)));
    let o: Obj = Obj::new().push("command", name).push("ok", Json::Bool(false)).push(
        "error",
        Json::str(msg),
    );
    assert(o@ =~= seq![
        ("command"@, command_json(opt_command(command))),
        ("ok"@, JsonView::Bool(false)),
        ("error"@, JsonView::Str(msg@)),
    ]);
    let mut s: String = o.build().to_compact_string();
    s.push_str("\n");
    s
}

} // verus!
