//! When an answer adds a hint, a header or a note, and what it counts.

use vstd::prelude::*;

use crate::answers::says;
use crate::clauses::{spelled_out, term_label};
use crate::cli::{ArgsView, Command};
use crate::commands::{command_json, failure_text};
use crate::compare::{compare_hints, compare_of, CompareView};
use crate::condition::op_text;
use crate::decl::{type_kind, DeclaredType};
use crate::dump::{dump_hints, dump_of, DumpView};
use crate::format::{value_text, ValueKind};
use crate::json::{compact, JsonView};
use crate::lines::middle_is_in_the_whole;
use crate::list::{list_hints, list_selective};
use crate::model::{seen_of, Sighting, WaveView};
use crate::number::dec;
use crate::pairs::PairView;
use crate::plugin::{reader_problem, ReaderFacts};
use crate::report::{
    alias_note_text, aliased, choice_of, empties, header_text, hint_json, report_of,
    trunc_hint_text, trunc_text, undumped, ReportView,
};
use crate::search::{search_hints, SearchView};
use crate::select::{selects_all, SelectionView};
use crate::signal::SignalView;
use crate::snapshot::{snapshot_hints, snapshot_of, SnapView};
use crate::summary::{summary_hints, SummaryView};
use crate::sweep::{shown_text, BoundView, CondView};
use crate::text::has_infix;
use crate::time::Timescale;

verus! {

// ---- hints ----

/// A hint is given just when there is something to say.
pub proof fn hints_are_told(h: Seq<Seq<char>>)
    ensures
        hint_json(h) is Null <==> h.len() == 0,
        h.len() == 1 ==> hint_json(h) == JsonView::Str(h[0]),
{
}

/// A list that shows all its paths, and has some, needs no hint; one that is cut
/// short or empty has one.
pub proof fn lists_hint_when_cut_or_empty(total: nat, limit: int, selective: bool)
    requires
        limit >= 0,
    ensures
        list_hints(total, limit, selective).len() > 0 <==> total == 0 || (limit > 0 && limit < total),
{
}

/// So does a summary, when it is cut short.
pub proof fn summaries_hint_when_cut(d: SummaryView, limit: int)
    requires
        limit >= 0,
    ensures
        summary_hints(d, limit).len() > 0 <==> limit > 0 && limit < d.rows.len(),
{
}

/// A search hints when it is cut short, or finds nothing.
pub proof fn searches_hint_when_cut_or_empty<T: Timescale>(
    d: SearchView,
    n: nat,
    limit: usize,
    ts: &T,
)
    ensures
        search_hints(d, n, limit, ts).len() > 0 <==> n == 0 || (limit != 0 && n > limit),
{
}

/// A dump hints when it is cut short, shows nothing, or matched an alias.
pub proof fn dumps_hint_when_cut_or_empty<T: Timescale>(w: WaveView, d: DumpView, ts: &T)
    ensures
        dump_hints(w, d, ts).len() > 0 <==> d.truncated || d.events.len() == 0 || alias_note_text(
            d.matched,
        ) is Some,
{
}

/// A comparison hints when it is cut short, finds no difference, or matched an
/// alias.
pub proof fn comparisons_hint_when_cut_or_empty<T: Timescale>(d: CompareView, limit: int, ts: &T)
    requires
        limit >= 0,
    ensures
        compare_hints(d, limit, ts).len() > 0 <==> (limit > 0 && limit < d.diffs.len())
            || d.selected == 0 || d.diffs.len() == 0 || alias_note_text(d.matched) is Some,
{
}

/// A snapshot hints when it is cut short, knows no value, or matched an alias.
pub proof fn snapshots_hint_when_cut_or_empty<T: Timescale>(d: SnapView, limit: int, ts: &T)
    requires
        limit >= 0,
    ensures
        snapshot_hints(d, limit, ts).len() > 0 <==> (limit > 0 && limit < d.rows.len())
            || d.selected == 0 || d.known == 0 || alias_note_text(d.matched) is Some,
{
}

/// What is cut short says how much is shown, and of how much.
pub proof fn cuts_are_told(shown: nat, total: nat, noun: Seq<char>)
    ensures
        trunc_hint_text(false, shown, total, true, noun) is None,
        trunc_hint_text(true, shown, total, true, noun) is Some,
        has_infix(
            trunc_hint_text(true, shown, total, true, noun)->0,
            "showing "@ + dec(shown) + " of "@ + dec(total),
        ),
        has_infix(
            trunc_text(shown, total, ""@, noun),
            "\n>> TRUNCATED: showing "@ + dec(shown) + " of "@ + dec(total),
        ),
{
    let head = "showing "@ + dec(shown) + " of "@ + dec(total);
    let all = trunc_hint_text(true, shown, total, true, noun)->0;
    middle_is_in_the_whole(Seq::empty(), head, all.skip(head.len() as int));
    assert(Seq::<char>::empty() + head + all.skip(head.len() as int) =~= all);
    let front = "\n>> TRUNCATED: showing "@ + dec(shown) + " of "@ + dec(total);
    let text = trunc_text(shown, total, ""@, noun);
    middle_is_in_the_whole(Seq::empty(), front, text.skip(front.len() as int));
    assert(Seq::<char>::empty() + front + text.skip(front.len() as int) =~= text);
}

// ---- what was matched ----

/// A header is written of a selection, and counts what it matched.
pub proof fn headers_count_the_matches(r: ReportView)
    ensures
        header_text(r) is Some <==> r.selective,
        r.selective && r.pairs.len() > 0 ==> has_infix(
            header_text(r)->0,
            "Matched "@ + dec(r.pairs.len()),
        ),
{
    if r.selective && r.pairs.len() > 0 {
        let head = "Matched "@ + dec(r.pairs.len());
        let all = header_text(r)->0;
        middle_is_in_the_whole(Seq::empty(), head, all.skip(head.len() as int));
        assert(Seq::<char>::empty() + head + all.skip(head.len() as int) =~= all);
    }
}

proof fn lemma_aliased(pairs: Seq<PairView>)
    ensures
        aliased(pairs) == pairs.filter(|p: PairView| p.0 != p.1),
        aliased(pairs).len() > 0 <==> exists|i: int|
            0 <= i < pairs.len() && (#[trigger] pairs[i]).0 != pairs[i].1,
    decreases pairs.len(),
{
    reveal(Seq::filter);
    if pairs.len() > 0 {
        let less = pairs.drop_last();
        lemma_aliased(less);
        if exists|i: int| 0 <= i < less.len() && (#[trigger] less[i]).0 != less[i].1 {
            let i = choose|i: int| 0 <= i < less.len() && (#[trigger] less[i]).0 != less[i].1;
            assert(pairs[i] == less[i]);
        }
        if exists|i: int| 0 <= i < pairs.len() && (#[trigger] pairs[i]).0 != pairs[i].1 {
            let i = choose|i: int| 0 <= i < pairs.len() && (#[trigger] pairs[i]).0 != pairs[i].1;
            if i < less.len() {
                assert(less[i] == pairs[i]);
            }
        }
        assert(pairs[pairs.len() - 1] == pairs.last());
    }
}

/// A note is made of aliases just when a signal was matched by a path that is
/// not its own.
pub proof fn aliases_are_noted(r: ReportView)
    ensures
        alias_note_text(r) is Some <==> exists|i: int|
            0 <= i < r.pairs.len() && (#[trigger] r.pairs[i]).0 != r.pairs[i].1,
        aliased(r.pairs) == r.pairs.filter(|p: PairView| p.0 != p.1),
{
    lemma_aliased(r.pairs);
}

proof fn lemma_empties(seen: Seq<Sighting>)
    ensures
        empties(seen) == seen.filter(|s: Sighting| s.1.len() == 0).len(),
    decreases seen.len(),
{
    reveal(Seq::filter);
    if seen.len() > 0 {
        lemma_empties(seen.drop_last());
    }
}

/// The signals without any entry are counted, of a selection that is not too
/// large.
pub proof fn undumped_signals_are_counted(w: WaveView, sids: Seq<usize>)
    ensures
        undumped(w, sids) matches Some(n) ==> n == seen_of(w, sids).filter(
            |s: Sighting| s.1.len() == 0,
        ).len(),
        undumped(w, sids) is Some <==> sids.len() <= 8192,
{
    lemma_empties(seen_of(w, sids));
}

// ---- terms and values ----

/// A term is spelled with the path of its signal.
pub proof fn terms_are_spelled(c: CondView)
    ensures
        c.term is Changed ==> term_label(c) == "changed("@ + c.path + ")"@,
        c.term matches BoundView::Level { op, target, width, kind, value_text } ==> term_label(c)
            == c.path + op_text(op) + value_text,
        spelled_out(seq![c]) == term_label(c),
{
    assert(seq![c].map_values(|x: CondView| term_label(x)) =~= seq![term_label(c)]);
}

/// A value that is shown is written as its signal has it; where there is none, a
/// word says so.
pub proof fn shown_values_are_written(raw: Seq<char>, g: SignalView)
    ensures
        shown_text(Some(raw), g) == value_text(raw, g.kind, g.width),
        shown_text(None, g) == "(undef)"@,
{
}

/// The kinds of the declared types: events, numbers with a fraction, texts; and
/// all others are logic.
pub proof fn types_have_kinds(t: DeclaredType)
    ensures
        type_kind(t) == ValueKind::Event <==> t == DeclaredType::Event || t
            == DeclaredType::EventParameter,
        type_kind(t) == ValueKind::Real <==> t == DeclaredType::Real || t == DeclaredType::RealTime
            || t == DeclaredType::RealParameter || t == DeclaredType::ShortReal,
        type_kind(t) == ValueKind::Str <==> t == DeclaredType::Text,
{
}

// ---- failures ----

/// A failure is told as JSON where that is asked for, with the command and the
/// message; and as a line of text otherwise.
pub proof fn failures_are_told(command: Option<Command>, msg: Seq<char>)
    ensures
        failure_text(false, command, msg) == "Error: "@ + msg + "\n"@,
        exists|j: JsonView|
            failure_text(true, command, msg) == #[trigger] compact(j) + "\n"@
                && says(j, "ok"@, JsonView::Bool(false)) && says(
                j,
                "error"@,
                JsonView::Str(msg),
            ),
{
    let j = JsonView::Object(
        seq![
            ("command"@, command_json(command)),
            ("ok"@, JsonView::Bool(false)),
            ("error"@, JsonView::Str(msg)),
        ],
    );
    assert(j->Object_0[1] == ("ok"@, JsonView::Bool(false)));
    assert(j->Object_0[2] == ("error"@, JsonView::Str(msg)));
    assert(failure_text(true, command, msg) == compact(j) + "\n"@);
}

/// A reader is taken just when it is of this version, complete, and of the
/// format that is asked for.
pub proof fn readers_are_taken_when_right(format: Seq<char>, facts: ReaderFacts, host_abi: u32)
    ensures
        reader_problem(format, facts, host_abi) is None <==> facts.abi_version == host_abi
            && facts.complete && (facts.name matches Some(name) && name@ == format),
{
}

/// Dumps, snapshots and comparisons report what their selection matched; and a
/// list knows whether it has one.
pub proof fn answers_report_their_matches<T: Timescale>(
    w: WaveView,
    a: ArgsView,
    ts: &T,
    s: SelectionView,
)
    requires
        choice_of(a) == Ok::<SelectionView, Seq<char>>(s),
    ensures
        dump_of(w, a, ts) matches Ok(d) ==> d.matched == report_of(w.table, s),
        snapshot_of(w, a, ts) matches Ok(d) ==> d.matched == report_of(w.table, s),
        compare_of(w, a, ts) matches Ok(d) ==> d.matched == report_of(w.table, s),
        report_of(w.table, s).selective <==> !selects_all(s),
        list_selective(a) <==> !selects_all(s),
{
}

} // verus!
