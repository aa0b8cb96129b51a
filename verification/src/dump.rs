//! The `dump` command: the value changes of a time window, in time order.

use vstd::prelude::*;

use crate::backend::WaveformBackend;
use crate::cli::{Args, ArgsView};
use crate::format::{value_compact, value_text};
use crate::history::{raw_text, shown_kind, RawValue, RawView};
use crate::json::{array, json_views, Json, JsonView, Obj};
use crate::model::{
    clipped, decl_orders, event_lists, in_table, seen_of, selection, Sid, Wave, WaveView,
};
use crate::number::{dec, u64_text};
use crate::replay::{event_views, events_in, least, opt_tick, prefix, replay, DumpEvent, EventView};
use crate::report::{
    alias_note_text, chosen, choice_of, count_json, count_members, count_view, empty_reason,
    empty_window_reason, header_text, hint_json, limit_of, limit_view, match_report, push_counts,
    report_json, report_of, selected_sids, selection_of, should_stream, trunc_hint,
    trunc_hint_text, trunc_line_lb, trunc_text, window_json, window_line, window_text, window_view,
    with_hint, Hints, MatchReport, ReportView, STREAMING_BATCH,
};
use crate::select::Selection;
use crate::signal::{signal_views, SignalInfo, SignalView};
use crate::text::{left_justified, ljust, opt_view};
use crate::time::{parse_window, window_meaning, Timescale};

verus! {

/// A recorded value as JSON shows it.
pub open spec fn compact_value(v: RawView, s: SignalView) -> Seq<char> {
    value_compact(raw_text(v), shown_kind(v, s.kind), s.width)
}

/// A recorded value as text shows it.
pub open spec fn text_value(v: RawView, s: SignalView) -> Seq<char> {
    value_text(raw_text(v), shown_kind(v, s.kind), s.width)
}

/// What `dump` found.
pub struct DumpData {
    pub events: Vec<DumpEvent>,
    pub truncated: bool,
    pub t0: i64,
    pub t1: Option<i64>,
    pub selected: Vec<Sid>,
    pub matched: MatchReport,
}

pub struct DumpView {
    pub events: Seq<EventView>,
    pub truncated: bool,
    pub t0: int,
    pub t1: Option<int>,
    pub selected: Seq<usize>,
    pub matched: ReportView,
}

impl View for DumpData {
    type V = DumpView;

    open spec fn view(&self) -> DumpView {
        DumpView {
            events: event_views(self.events@),
            truncated: self.truncated,
            t0: self.t0 as int,
            t1: opt_tick(self.t1),
            selected: self.selected@,
            matched: self.matched@,
        }
    }
}

/// The changes of the given signals in a window, in replay order.
pub open spec fn window_events(w: WaveView, sids: Seq<usize>, t0: int, t1: Option<int>) -> Seq<
    EventView,
> {
    replay(event_lists(seen_of(w, sids), decl_orders(w.table), t0, t1))
}

/// Are some of `n` events left out? (They are counted as far as a machine
/// integer goes.)
pub open spec fn left_out(n: nat, limit: usize) -> bool {
    limit != 0 && least(n as int, usize::MAX as int) > limit
}

/// What `dump` finds.
pub open spec fn dump_of<T: Timescale>(w: WaveView, a: ArgsView, ts: &T) -> Result<
    DumpView,
    Seq<char>,
> {
    match window_meaning(a.begin, a.end, ts) {
        Err(e) => Err(e),
        Ok((t0, t1)) => match choice_of(a) {
            Err(e) => Err(e),
            Ok(s) => {
                let sids = chosen(w.table, s);
                let all = window_events(w, sids, t0, t1);
                let limit = limit_view(a) as usize;
                Ok(
                    DumpView {
                        events: clipped(all, limit),
                        truncated: left_out(all.len(), limit),
                        t0,
                        t1,
                        selected: sids,
                        matched: report_of(w.table, s),
                    },
                )
            },
        },
    }
}

/// The changes of the given signals in a window, their traces being decoded
/// and kept.
pub fn loaded_changes<B: WaveformBackend>(
    wave: &mut Wave<B>,
    selected: &Vec<Sid>,
    t0: i64,
    t1: Option<i64>,
) -> (r: Vec<DumpEvent>)
    requires
        old(wave).wf(),
        in_table(selected@, old(wave).table().len()),
    ensures
        final(wave).wf(),
        final(wave).same_wave(old(wave)),
        events_in(event_views(r@), old(wave).table().len()),
        event_views(r@) == window_events(old(wave).snap(), selected@, t0 as int, opt_tick(t1)),
{
    wave.ensure_loaded(selected);
    proof {
        wave.same_snap(old(wave));
        wave.sightings_of_snap(selected@);
        assert forall|i: int| 0 <= i < selected@.len() implies wave.loaded(
            #[trigger] selected@[i] as int,
        ) by {
            assert(selected@[i] < old(wave).table().len());
            assert(selected@.contains(selected@[i]));
        }
    }
    wave.for_each_event(t0, t1, Some(selected))
}

/// The changes of the given signals in a window, at most `limit` of them, and
/// whether some are left out.
pub fn collect_changes<B: WaveformBackend>(
    wave: &mut Wave<B>,
    selected: &Vec<Sid>,
    t0: i64,
    t1: Option<i64>,
    limit: usize,
) -> (r: (Vec<DumpEvent>, bool))
    requires
        old(wave).wf(),
        in_table(selected@, old(wave).table().len()),
    ensures
        final(wave).wf(),
        final(wave).same_wave(old(wave)),
        events_in(event_views(r.0@), old(wave).table().len()),
        ({
            let w = old(wave).snap();
            let all = window_events(w, selected@, t0 as int, opt_tick(t1));
            &&& event_views(r.0@) == clipped(all, limit)
            &&& r.1 == left_out(all.len(), limit)
        }),
{
    let ghost w = old(wave).snap();
    let ghost all = window_events(w, selected@, t0 as int, opt_tick(t1));
    proof {
        old(wave).sightings_of_snap(selected@);
    }
    if should_stream(selected.len()) {
        let (events, _total, truncated) = wave.collect_events_bounded(
            t0,
            t1,
            Some(selected),
            limit,
            STREAMING_BATCH,
        );
        (events, truncated)
    } else {
        let mut events: Vec<DumpEvent> = loaded_changes(wave, selected, t0, t1);
        assert(event_views(events@) == all);
        assert(event_views(events@).len() == events@.len());
        let truncated: bool = limit != 0 && events.len() > limit;
        if truncated {
            let ghost e0 = events@;
            events.truncate(limit);
            assert(event_views(events@) =~= event_views(e0).take(limit as int));
        } else if limit != 0 {
            assert(prefix(all, limit as int) =~= all);
        }
        (events, truncated)
    }
}

/// Collect what `dump` shows.
pub fn dump_collect<B: WaveformBackend, T: Timescale>(
    wave: &mut Wave<B>,
    args: &Args,
    ts: &T,
) -> (r: Result<DumpData, String>)
    requires
        old(wave).wf(),
    ensures
        final(wave).wf(),
        final(wave).same_wave(old(wave)),
        match r {
            Err(e) => dump_of(old(wave).snap(), args@, ts) == Err::<DumpView, Seq<char>>(e@),
            Ok(d) => {
                &&& in_table(d.selected@, old(wave).table().len())
                &&& events_in(d@.events, old(wave).table().len())
                &&& dump_of(old(wave).snap(), args@, ts) == Ok::<DumpView, Seq<char>>(d@)
            },
        },
{
    let (t0, t1) = match parse_window(&args.begin, &args.end, ts) {
        Ok(w) => w,
        Err(e) => {
            return Err(e);
        },
    };
    let selection: Selection = match selection_of(args) {
        Ok(s) => s,
        Err(e) => {
            return Err(e);
        },
    };
    proof {
        wave.table_is_ok();
    }
    let limit: usize = limit_of(args);
    let selected: Vec<Sid> = selected_sids(wave.signals(), &selection);
    let matched: MatchReport = match_report(wave.signals(), &selection, &selected);
    let (events, truncated) = collect_changes(wave, &selected, t0, t1, limit);
    Ok(DumpData { events, truncated, t0, t1, selected, matched })
}

/// The members that a verbose row adds.
pub open spec fn verbose_members(verbose: bool, s: SignalView) -> Seq<(Seq<char>, JsonView)> {
    if verbose {
        seq![("width"@, JsonView::Int(s.width as int)), ("type"@, JsonView::Str(s.type_str))]
    } else {
        Seq::empty()
    }
}

pub fn push_verbose(obj: Obj, verbose: bool, info: &SignalInfo) -> (o: Obj)
    ensures
        o@ == obj@ + verbose_members(verbose, info@),
{
    if verbose {
        let o: Obj = obj.push("width", Json::Int(info.width as i64)).push(
            "type",
            Json::str(info.type_str),
        );
        assert(o@ =~= obj@ + verbose_members(verbose, info@));
        o
    } else {
        assert(obj@ + verbose_members(verbose, info@) =~= obj@);
        obj
    }
}

pub open spec fn event_json<T: Timescale>(
    table: Seq<SignalView>,
    e: EventView,
    verbose: bool,
    ts: &T,
) -> JsonView {
    let s = table[e.sid as int];
    JsonView::Object(
        seq![
            ("time_ticks"@, JsonView::Int(e.tick)),
            ("time_h"@, JsonView::Str(ts.shown(e.tick))),
            ("path"@, JsonView::Str(s.path)),
            ("value"@, JsonView::Str(compact_value(e.value, s))),
        ] + verbose_members(verbose, s),
    )
}

/// The total that is reported: one more than is shown when some are left out
/// (as far as a machine integer goes).
pub open spec fn at_least(shown: nat, truncated: bool) -> nat {
    if truncated {
        least((shown + 1) as int, usize::MAX as int) as nat
    } else {
        shown
    }
}

pub fn total_at_least(shown: usize, truncated: bool) -> (n: usize)
    ensures
        n == at_least(shown as nat, truncated),
{
    if truncated && shown < usize::MAX {
        shown + 1
    } else {
        shown
    }
}

pub open spec fn dump_hints<T: Timescale>(w: WaveView, d: DumpView, ts: &T) -> Seq<Seq<char>> {
    let n = d.events.len();
    let h = with_hint(
        with_hint(
            Seq::empty(),
            trunc_hint_text(d.truncated, n, at_least(n, d.truncated), false, "events"@),
        ),
        alias_note_text(d.matched),
    );
    if n == 0 {
        h.push(empty_reason(w, d.selected, d.matched.selective, d.t0, ts))
    } else {
        h
    }
}

/// What `dump` writes as JSON.
pub open spec fn dump_json<T: Timescale>(w: WaveView, d: DumpView, verbose: bool, ts: &T) -> JsonView {
    let n = d.events.len();
    JsonView::Object(
        (seq![
            ("window"@, window_view(d.t0, d.t1, ts)),
            ("matched"@, report_json(d.matched)),
            ("selected"@, count_view(d.selected.len() as int)),
        ] + count_members(n as int, at_least(n, d.truncated) as int, !d.truncated, d.truncated)).push(
            ("hint"@, hint_json(dump_hints(w, d, ts))),
        ).push(
            (
                "events"@,
                JsonView::Array(
                    d.events.map_values(|e: EventView| event_json(w.table, e, verbose, ts)),
                ),
            ),
        ),
    )
}

fn events_array<T: Timescale>(
    table: &Vec<SignalInfo>,
    events: &Vec<DumpEvent>,
    verbose: bool,
    ts: &T,
) -> (v: Vec<Json>)
    requires
        events_in(event_views(events@), table@.len()),
    ensures
        json_views(v@) == event_views(events@).map_values(
            |e: EventView| event_json(signal_views(table@), e, verbose, ts),
        ),
{
    let ghost ev = event_views(events@);
    let ghost tab = signal_views(table@);
    let mut v: Vec<Json> = Vec::new();
    let mut i: usize = 0;
    while i < events.len()
        invariant
            i <= events.len(),
            ev == event_views(events@),
            tab == signal_views(table@),
            events_in(ev, table@.len()),
            v.len() == i,
            forall|k: int| 0 <= k < i ==> (#[trigger] v@[k])@ == event_json(tab, ev[k], verbose, ts),
        decreases events.len() - i,
    {
        let e: &DumpEvent = &events[i];
        assert(ev[i as int] == e@);
        let info: &SignalInfo = &table[e.sid];
        assert(tab[e.sid as int] == info@);
        let o: Obj = Obj::new().push("time_ticks", Json::Int(e.tick)).push(
            "time_h",
            Json::str(ts.fmt_time(e.tick).as_str()),
        ).push("path", Json::str(info.path.as_str())).push(
            "value",
            Json::str(e.value.fmt_value_compact(info.kind, info.width).as_str()),
        );
        assert(o@ =~= seq![
            ("time_ticks"@, JsonView::Int(e@.tick)),
            ("time_h"@, JsonView::Str(ts.shown(e@.tick))),
            ("path"@, JsonView::Str(info@.path)),
            ("value"@, JsonView::Str(compact_value(e@.value, info@))),
        ]);
        v.push(push_verbose(o, verbose, info).build());
        i += 1;
    }
    assert(json_views(v@) =~= ev.map_values(|e: EventView| event_json(tab, e, verbose, ts)));
    v
}

/// Render what `dump` found as JSON.
pub fn dump_to_json<B: WaveformBackend, T: Timescale>(
    wave: &mut Wave<B>,
    d: &DumpData,
    verbose: bool,
    ts: &T,
) -> (j: Json)
    requires
        old(wave).wf(),
        in_table(d.selected@, old(wave).table().len()),
        events_in(d@.events, old(wave).table().len()),
    ensures
        final(wave).wf(),
        final(wave).same_wave(old(wave)),
        j@ == dump_json(old(wave).snap(), d@, verbose, ts),
{
    let shown: usize = d.events.len();
    let ghost dv = d@;
    let ghost w = old(wave).snap();
    assert(dv.events.len() == shown);
    let arr: Vec<Json> = events_array(wave.signals(), &d.events, verbose, ts);
    let total: usize = total_at_least(shown, d.truncated);
    let obj: Obj = Obj::new().push("window", window_json(d.t0, d.t1, ts)).push(
        "matched",
        d.matched.json(),
    ).push("selected", count_json(d.selected.len()));
    assert(obj@ =~= seq![
        ("window"@, window_view(dv.t0, dv.t1, ts)),
        ("matched"@, report_json(dv.matched)),
        ("selected"@, count_view(dv.selected.len() as int)),
    ]);
    let obj: Obj = push_counts(obj, shown, total, !d.truncated, d.truncated);
    let mut hints: Hints = Hints::new();
    hints.push_opt(trunc_hint(d.truncated, shown, total, false, "events"));
    hints.push_opt(d.matched.alias_note());
    if shown == 0 {
        hints.push(empty_window_reason(wave, &d.selected, d.matched.selective, d.t0, ts));
    }
    assert(hints@ == dump_hints(w, dv, ts));
    hints.attach(obj).push("events", array(arr)).build()
}

/// The `dump` command with JSON output.
pub fn compute_dump<B: WaveformBackend, T: Timescale>(
    wave: &mut Wave<B>,
    args: &Args,
    ts: &T,
) -> (r: Result<Json, String>)
    requires
        old(wave).wf(),
    ensures
        final(wave).wf(),
        final(wave).same_wave(old(wave)),
        ({
            let w = old(wave).snap();
            match dump_of(w, args@, ts) {
                Err(e) => r is Err && r->Err_0@ == e,
                Ok(d) => r is Ok && r->Ok_0@ == dump_json(w, d, args.verbose, ts),
            }
        }),
{
    match dump_collect(wave, args, ts) {
        Err(e) => Err(e),
        Ok(d) => {
            proof {
                wave.same_snap(old(wave));
            }
            Ok(dump_to_json(wave, &d, args.verbose, ts))
        },
    }
}

/// One line on a value change.
pub open spec fn event_line(s: SignalView, v: RawView, verbose: bool) -> Seq<char> {
    "  "@ + left_justified(s.path, 55) + (if verbose {
        " w="@ + dec(s.width as nat) + " "@ + s.type_str
    } else {
        Seq::empty()
    }) + " = "@ + text_value(v, s) + "\n"@
}

/// The lines on the first `n` changes; a line with the time goes before the
/// first change of each tick.
pub open spec fn event_lines<T: Timescale>(
    table: Seq<SignalView>,
    events: Seq<EventView>,
    n: int,
    verbose: bool,
    ts: &T,
) -> Seq<char>
    decreases n,
{
    if n <= 0 {
        Seq::empty()
    } else {
        let e = events[n - 1];
        event_lines(table, events, n - 1, verbose, ts) + (if n == 1 || events[n - 2].tick != e.tick {
            "T="@ + ts.shown(e.tick) + "\n"@
        } else {
            Seq::empty()
        }) + event_line(table[e.sid as int], e.value, verbose)
    }
}

/// A line, if there is one.
pub open spec fn opt_line(before: Seq<char>, s: Option<Seq<char>>) -> Seq<char> {
    match s {
        Some(t) => before + t + "\n"@,
        None => Seq::empty(),
    }
}

pub fn push_opt_line(out: &mut String, before: &str, s: Option<String>)
    ensures
        final(out)@ == old(out)@ + opt_line(before@, opt_view(s)),
{
    match s {
        Some(t) => {
            let ghost o0 = out@;
            out.push_str(before);
            out.push_str(t.as_str());
            out.push_str("\n");
            assert(out@ =~= o0 + opt_line(before@, Some(t@)));
        },
        None => {
            assert(out@ + Seq::<char>::empty() =~= out@);
        },
    }
}

/// What `dump` writes as text.
pub open spec fn dump_text<T: Timescale>(w: WaveView, d: DumpView, verbose: bool, ts: &T) -> Seq<char> {
    let n = d.events.len();
    window_text(d.t0, d.t1, ts) + "\n"@ + opt_line(""@, header_text(d.matched)) + opt_line(
        "Note: "@,
        alias_note_text(d.matched),
    ) + (if n == 0 {
        "(no events: "@ + empty_reason(w, d.selected, d.matched.selective, d.t0, ts) + ")\n"@
    } else {
        event_lines(w.table, d.events, n as int, verbose, ts) + opt_line(
            ""@,
            if d.truncated {
                Some(trunc_text(n, at_least(n, true), "+"@, "events"@))
            } else {
                None
            },
        )
    })
}

pub fn event_line_text(info: &SignalInfo, v: &RawValue, verbose: bool) -> (s: String)
    ensures
        s@ == event_line(info@, v@, verbose),
{
    let mut m: String = "  ".to_owned();
    m.push_str(ljust(info.path.as_str(), 55).as_str());
    let mut extra: String = "".to_owned();
    if verbose {
        extra = " w=".to_owned();
        extra.push_str(u64_text(info.width as u64).as_str());
        extra.push_str(" ");
        extra.push_str(info.type_str);
    }
    proof {
        reveal_strlit("");
        assert(!verbose ==> extra@ =~= Seq::empty());
    }
    m.push_str(extra.as_str());
    m.push_str(" = ");
    m.push_str(v.fmt_value(info.kind, info.width).as_str());
    m.push_str("\n");
    m
}

fn push_events<T: Timescale>(
    out: &mut String,
    table: &Vec<SignalInfo>,
    events: &Vec<DumpEvent>,
    verbose: bool,
    ts: &T,
)
    requires
        events_in(event_views(events@), table@.len()),
    ensures
        final(out)@ == old(out)@ + event_lines(
            signal_views(table@),
            event_views(events@),
            events@.len() as int,
            verbose,
            ts,
        ),
{
    let ghost ev = event_views(events@);
    let ghost tab = signal_views(table@);
    let ghost o0 = out@;
    let mut i: usize = 0;
    assert(out@ =~= o0 + Seq::<char>::empty());
    while i < events.len()
        invariant
            i <= events.len(),
            ev == event_views(events@),
            tab == signal_views(table@),
            events_in(ev, table@.len()),
            out@ == o0 + event_lines(tab, ev, i as int, verbose, ts),
        decreases events.len() - i,
    {
        let e: &DumpEvent = &events[i];
        assert(ev[i as int] == e@);
        let ghost o1 = out@;
        if i == 0 || events[i - 1].tick != e.tick {
            out.push_str("T=");
            out.push_str(ts.fmt_time(e.tick).as_str());
            out.push_str("\n");
        }
        assert(i > 0 ==> ev[i - 1] == events@[i - 1]@);
        let info: &SignalInfo = &table[e.sid];
        assert(tab[e.sid as int] == info@);
        let ghost o2 = out@;
        out.push_str(event_line_text(info, &e.value, verbose).as_str());
        proof {
            let before = event_lines(tab, ev, i as int, verbose, ts);
            let line = event_line(info@, e@.value, verbose);
            assert(event_lines(tab, ev, i + 1, verbose, ts) == before + (if i == 0 || ev[i - 1].tick
                != e@.tick {
                "T="@ + ts.shown(e@.tick) + "\n"@
            } else {
                Seq::empty()
            }) + line);
            assert(o2 =~= o0 + (before + (if i == 0 || ev[i - 1].tick != e@.tick {
                "T="@ + ts.shown(e@.tick) + "\n"@
            } else {
                Seq::empty()
            })));
        }
        assert(out@ =~= o0 + event_lines(tab, ev, i + 1, verbose, ts));
        i += 1;
    }
}

/// Render what `dump` found as text.
pub fn dump_to_text<B: WaveformBackend, T: Timescale>(
    wave: &mut Wave<B>,
    d: &DumpData,
    verbose: bool,
    ts: &T,
) -> (s: String)
    requires
        old(wave).wf(),
        in_table(d.selected@, old(wave).table().len()),
        events_in(d@.events, old(wave).table().len()),
    ensures
        final(wave).wf(),
        final(wave).same_wave(old(wave)),
        s@ == dump_text(old(wave).snap(), d@, verbose, ts),
{
    let shown: usize = d.events.len();
    let ghost dv = d@;
    assert(dv.events.len() == shown);
    let mut out: String = window_line(d.t0, d.t1, ts);
    out.push_str("\n");
    push_opt_line(&mut out, "", d.matched.header());
    push_opt_line(&mut out, "Note: ", d.matched.alias_note());
    let ghost head = out@;
    if shown == 0 {
        out.push_str("(no events: ");
        out.push_str(
            empty_window_reason(wave, &d.selected, d.matched.selective, d.t0, ts).as_str(),
        );
        out.push_str(")\n");
        assert(out@ =~= dump_text(old(wave).snap(), dv, verbose, ts));
        return out;
    }
    push_events(&mut out, wave.signals(), &d.events, verbose, ts);
    let notice: Option<String> = if d.truncated {
        Some(trunc_line_lb(shown, total_at_least(shown, true), "events"))
    } else {
        None
    };
    push_opt_line(&mut out, "", notice);
    assert(out@ =~= dump_text(old(wave).snap(), dv, verbose, ts));
    out
}

/// The `dump` command with text output.
pub fn text_dump<B: WaveformBackend, T: Timescale>(
    wave: &mut Wave<B>,
    args: &Args,
    ts: &T,
) -> (r: Result<String, String>)
    requires
        old(wave).wf(),
    ensures
        final(wave).wf(),
        final(wave).same_wave(old(wave)),
        ({
            let w = old(wave).snap();
            match dump_of(w, args@, ts) {
                Err(e) => r is Err && r->Err_0@ == e,
                Ok(d) => r is Ok && r->Ok_0@ == dump_text(w, d, args.verbose, ts),
            }
        }),
{
    match dump_collect(wave, args, ts) {
        Err(e) => Err(e),
        Ok(d) => {
            proof {
                wave.same_snap(old(wave));
            }
            Ok(dump_to_text(wave, &d, args.verbose, ts))
        },
    }
}

} // verus!
