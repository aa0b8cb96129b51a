//! Batch runs: one command for each input line, all on one open file.

use vstd::prelude::*;

use crate::backend::WaveformBackend;
use crate::cli::{
    line_of, parse_batch_line, split_line, words_of, Args, ArgsView, BatchInvocation, BatchView,
    Command,
};
use crate::commands::{
    compute, computed, output_of, render_text, rendered, Outside, OutsideView,
};
use crate::compare::compare_of;
use crate::dump::dump_of;
use crate::json::{
    compact, compact_members, json_is_one_line, on_one_line, quoted, Json, JsonView, Obj,
};
use crate::list::list_of;
use crate::model::{Wave, WaveView};
use crate::number::{dec, u64_text};
use crate::search::search_of;
use crate::signal::SignalView;
use crate::snapshot::snapshot_of;
use crate::summary::summary_of;
use crate::text::views;
use crate::time::Timescale;
use crate::tree::tree_of;

verus! {

/// What to do with an input line.
pub enum LinePlan {
    /// A blank line or a comment.
    Skip,
    /// Not a command.
    Fail { id: String, msg: String },
    Run { id: String, args: Args },
}

pub enum PlanView {
    Skip,
    Fail { id: Seq<char>, msg: Seq<char> },
    Run { id: Seq<char>, args: ArgsView },
}

impl View for LinePlan {
    type V = PlanView;

    open spec fn view(&self) -> PlanView {
        match self {
            LinePlan::Skip => PlanView::Skip,
            LinePlan::Fail { id, msg } => PlanView::Fail { id: id@, msg: msg@ },
            LinePlan::Run { id, args } => PlanView::Run { id: id@, args: args@ },
        }
    }
}

/// The number after `seq`, as far as a machine integer goes.
pub open spec fn after(seq: u64) -> u64 {
    if seq < u64::MAX {
        (seq + 1) as u64
    } else {
        seq
    }
}

/// What to do with a line, and the number of commands so far. A command
/// without a label is called by its number.
pub open spec fn plan_of(inv: BatchView, line: Seq<char>, seq: u64) -> (PlanView, u64) {
    let n = after(seq);
    match words_of(line, None) {
        Err(msg) => (PlanView::Fail { id: dec(n as nat), msg }, n),
        Ok((words, label)) => if words.len() == 0 {
            (PlanView::Skip, seq)
        } else {
            let id = match label {
                Some(l) => l,
                None => dec(n as nat),
            };
            match line_of(words, inv.file, inv.defaults) {
                Err(msg) => (PlanView::Fail { id, msg }, n),
                Ok(args) => (PlanView::Run { id, args }, n),
            }
        },
    }
}

/// Decide what to do with a line; `seq` commands came before it.
pub fn plan_line(inv: &BatchInvocation, line: &str, seq: u64) -> (r: (LinePlan, u64))
    ensures
        (r.0@, r.1) == plan_of(inv@, line@, seq),
{
    let n: u64 = if seq < u64::MAX {
        seq + 1
    } else {
        seq
    };
    match split_line(line) {
        Err(msg) => (LinePlan::Fail { id: u64_text(n), msg }, n),
        Ok((tokens, label)) => {
            assert(views(tokens@).len() == tokens@.len());
            if tokens.len() == 0 {
                return (LinePlan::Skip, seq);
            }
            let id: String = match label {
                Some(l) => l,
                None => u64_text(n),
            };
            match parse_batch_line(&tokens, inv.file.as_str(), &inv.defaults) {
                Err(msg) => (LinePlan::Fail { id, msg }, n),
                Ok(args) => (LinePlan::Run { id, args }, n),
            }
        },
    }
}

/// A result with its id, as one JSON object.
pub open spec fn framed(id: Seq<char>, r: Result<JsonView, Seq<char>>) -> JsonView {
    JsonView::Object(
        match r {
            Ok(j) => seq![
                ("id"@, JsonView::Str(id)),
                ("ok"@, JsonView::Bool(true)),
                ("result"@, j),
            ],
            Err(e) => seq![
                ("id"@, JsonView::Str(id)),
                ("ok"@, JsonView::Bool(false)),
                ("error"@, JsonView::Str(e)),
            ],
        },
    )
}

/// What is written for a line that is no command.
pub open spec fn failed_line(json: bool, id: Seq<char>, msg: Seq<char>) -> Seq<char> {
    if json {
        compact(framed(id, Err(msg))) + "\n"@
    } else {
        "#"@ + id + "\n"@ + "Error: "@ + msg + "\n"@
    }
}

/// What is written for a command.
pub open spec fn answered_line<T: Timescale>(
    w: WaveView,
    json: bool,
    id: Seq<char>,
    a: ArgsView,
    out: OutsideView,
    ts: &T,
) -> Seq<char> {
    if json {
        compact(framed(id, computed(w, a, out, ts))) + "\n"@
    } else {
        "#"@ + id + "\n"@ + match rendered(w, a, out, ts) {
            Ok(s) => s,
            Err(e) => "Error: "@ + e + "\n"@,
        }
    }
}

fn frame(id: &str, r: Result<Json, String>) -> (s: String)
    ensures
        s@ == compact(
            framed(
                id@,
                match r {
                    Ok(j) => Ok(j@),
                    Err(e) => Err(e@),
                },
            ),
        ) + "\n"@,
{
    let mut s: String = match r {
        Ok(j) => {
            let o: Obj = Obj::new().push("id", Json::str(id)).push("ok", Json::Bool(true)).push(
                "result",
                j,
            );
            assert(o@ =~= framed(id@, Ok(j@))->Object_0);
            o.build().to_compact_string()
        },
        Err(e) => {
            let o: Obj = Obj::new().push("id", Json::str(id)).push("ok", Json::Bool(false)).push(
                "error",
                Json::str(e.as_str()),
            );
            assert(o@ =~= framed(id@, Err(e@))->Object_0);
            o.build().to_compact_string()
        },
    };
    s.push_str("\n");
    s
}

/// Report a line that is no command.
pub fn report_failed(json: bool, id: &str, msg: &str) -> (s: String)
    ensures
        s@ == failed_line(json, id@, msg@),
{
    if json {
        return frame(id, Err(msg.to_owned()));
    }
    let mut s: String = "#".to_owned();
    s.push_str(id);
    s.push_str("\n");
    s.push_str("Error: ");
    s.push_str(msg);
    s.push_str("\n");
    s
}

/// Run the command of a line and give what is written for it.
pub fn answer<B: WaveformBackend, T: Timescale>(
    wave: &mut Wave<B>,
    json: bool,
    id: &str,
    args: &Args,
    outside: &Outside,
    ts: &T,
) -> (s: String)
    requires
        old(wave).wf(),
    ensures
        final(wave).wf(),
        final(wave).same_wave(old(wave)),
        s@ == answered_line(old(wave).snap(), json, id@, args@, outside@, ts),
{
    if json {
        return frame(id, compute(wave, args, outside, ts));
    }
    let mut s: String = "#".to_owned();
    s.push_str(id);
    s.push_str("\n");
    let body: String = match render_text(wave, args, outside, ts) {
        Ok(t) => t,
        Err(e) => {
            let mut m: String = "Error: ".to_owned();
            m.push_str(e.as_str());
            m.push_str("\n");
            m
        },
    };
    s.push_str(body.as_str());
    s
}

/// The same invocation, alone and with JSON output.
pub open spec fn alone(a: ArgsView) -> ArgsView {
    ArgsView { json: true, ..a }
}

/// The outcome of a command does not depend on how it is to be written.
pub proof fn outcome_ignores_framing<T: Timescale>(
    w: WaveView,
    a: ArgsView,
    out: OutsideView,
    ts: &T,
)
    ensures
        computed(w, alone(a), out, ts) == computed(w, a, out, ts),
{
    match a.command {
        Command::Info => {},
        Command::List => lemma_list_alone(w.table, a),
        Command::Dump => lemma_dump_alone(w, a, ts),
        Command::Summary => lemma_summary_alone(w, a, ts),
        Command::Snapshot => lemma_snapshot_alone(w, a, ts),
        Command::Compare => lemma_compare_alone(w, a, ts),
        Command::Search => lemma_search_alone(w, a, ts),
        Command::Tree => lemma_tree_alone(w.table, a),
        Command::Trace => {},
    }
}

proof fn lemma_list_alone(table: Seq<SignalView>, a: ArgsView)
    ensures
        list_of(table, alone(a)) == list_of(table, a),
{
}

proof fn lemma_dump_alone<T: Timescale>(w: WaveView, a: ArgsView, ts: &T)
    ensures
        dump_of(w, alone(a), ts) == dump_of(w, a, ts),
{
}

proof fn lemma_summary_alone<T: Timescale>(w: WaveView, a: ArgsView, ts: &T)
    ensures
        summary_of(w, alone(a), ts) == summary_of(w, a, ts),
{
}

proof fn lemma_snapshot_alone<T: Timescale>(w: WaveView, a: ArgsView, ts: &T)
    ensures
        snapshot_of(w, alone(a), ts) == snapshot_of(w, a, ts),
{
}

proof fn lemma_compare_alone<T: Timescale>(w: WaveView, a: ArgsView, ts: &T)
    ensures
        compare_of(w, alone(a), ts) == compare_of(w, a, ts),
{
}

proof fn lemma_search_alone<T: Timescale>(w: WaveView, a: ArgsView, ts: &T)
    ensures
        search_of(w, alone(a), ts) == search_of(w, a, ts),
{
}

proof fn lemma_tree_alone(table: Seq<SignalView>, a: ArgsView)
    ensures
        tree_of(table, alone(a)) == tree_of(table, a),
{
}

/// The result of a command in a batch is, letter for letter, what the command
/// writes when it is run alone.
pub proof fn batch_result_is_single_result<T: Timescale>(
    w: WaveView,
    id: Seq<char>,
    a: ArgsView,
    out: OutsideView,
    ts: &T,
    j: JsonView,
)
    requires
        computed(w, a, out, ts) == Ok::<JsonView, Seq<char>>(j),
    ensures
        output_of(w, alone(a), out, ts) == Ok::<Seq<char>, Seq<char>>(compact(j) + "\n"@),
        answered_line(w, true, id, a, out, ts) == "{"@ + quoted("id"@) + ":"@ + quoted(id) + ","@
            + quoted("ok"@) + ":true,"@ + quoted("result"@) + ":"@ + compact(j) + "}\n"@,
{
    outcome_ignores_framing(w, a, out, ts);
    lemma_frame(id, j);
}

proof fn lemma_frame(id: Seq<char>, j: JsonView)
    ensures
        compact(framed(id, Ok(j))) + "\n"@ == "{"@ + quoted("id"@) + ":"@ + quoted(id) + ","@ + quoted(
            "ok"@,
        ) + ":true,"@ + quoted("result"@) + ":"@ + compact(j) + "}\n"@,
{
    let m = seq![
        ("id"@, JsonView::Str(id)),
        ("ok"@, JsonView::Bool(true)),
        ("result"@, j),
    ];
    assert(compact(JsonView::Str(id)) == quoted(id));
    assert(m[0].1 == JsonView::Str(id) && m[0].0 == "id"@);
    assert(compact_members(m, 1) == quoted("id"@) + seq![':'] + quoted(id));
    assert(compact(JsonView::Bool(true)) == seq!['t', 'r', 'u', 'e']);
    assert(compact_members(m, 2) == compact_members(m, 1) + seq![','] + quoted("ok"@) + seq![':']
        + seq!['t', 'r', 'u', 'e']);
    assert(compact_members(m, 3) == compact_members(m, 2) + seq![','] + quoted("result"@)
        + seq![':'] + compact(j));
    reveal_strlit("{");
    reveal_strlit(":");
    reveal_strlit(",");
    reveal_strlit(":true,");
    reveal_strlit("}\n");
    reveal_strlit("\n");
    assert(compact(framed(id, Ok(j))) + "\n"@ =~= "{"@ + quoted("id"@) + ":"@ + quoted(id) + ","@
        + quoted("ok"@) + ":true,"@ + quoted("result"@) + ":"@ + compact(j) + "}\n"@);
}

/// With JSON output every answer is one line.
pub proof fn json_answers_are_lines<T: Timescale>(
    w: WaveView,
    id: Seq<char>,
    a: ArgsView,
    out: OutsideView,
    ts: &T,
)
    ensures
        ({
            let s = answered_line(w, true, id, a, out, ts);
            s.len() > 0 && s.last() == '\n' && on_one_line(s.drop_last())
        }),
{
    let j = framed(id, computed(w, a, out, ts));
    json_is_one_line(j);
    reveal_strlit("\n");
    assert((compact(j) + "\n"@).drop_last() =~= compact(j));
}

/// A line that is no command is answered, on one line with JSON output, and
/// says that it failed.
pub proof fn failures_are_lines(id: Seq<char>, msg: Seq<char>)
    ensures
        ({
            let s = failed_line(true, id, msg);
            &&& s.len() > 0 && s.last() == '\n' && on_one_line(s.drop_last())
            &&& framed(id, Err(msg))->Object_0[1] == ("ok"@, JsonView::Bool(false))
        }),
{
    let j = framed(id, Err(msg));
    json_is_one_line(j);
    reveal_strlit("\n");
    assert((compact(j) + "\n"@).drop_last() =~= compact(j));
}

} // verus!
