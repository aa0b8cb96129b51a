//! The `snapshot` command: the values known at one instant.

use vstd::prelude::*;

use crate::backend::WaveformBackend;
use crate::cli::{Args, ArgsView};
use crate::dump::{
    compact_value, event_line, event_line_text, opt_line, push_opt_line, push_verbose,
    verbose_members,
};
use crate::history::{value_at, RawValue, RawView};
use crate::instants::{opt_raw, opt_raws, values_now, values_of};
use crate::json::{array, json_views, Json, JsonView, Obj};
use crate::model::{in_table, Sid, Wave, WaveView};
use crate::number::{dec, usize_text};
use crate::report::{
    alias_note_text, choice_of, chosen, clip_len, count_json, count_members, count_view,
    header_text, hint_json, limit_of, limit_view, match_report, push_counts, push_time,
    report_json, report_of, selected_sids, selection_of, shown_count, time_members, trunc_hint,
    trunc_hint_text, trunc_line, trunc_text, with_hint, Hints, MatchReport, ReportView, NO_SIGNALS,
    SELECTION_EMPTY,
};
use crate::select::Selection;
use crate::signal::{signal_views, SignalInfo, SignalView};
use crate::text::{left_justified, ljust};
use crate::time::{parse_time, time_of, Timescale};

verus! {

pub const NO_KNOWN_VALUE: &'static str =
    "every selected signal's first recorded sample is later, or it was never dumped";

/// A signal with its value, if it has one.
pub struct SnapRow {
    pub sid: Sid,
    pub value: Option<RawValue>,
}

pub struct SnapRowView {
    pub sid: usize,
    pub value: Option<RawView>,
}

impl View for SnapRow {
    type V = SnapRowView;

    open spec fn view(&self) -> SnapRowView {
        SnapRowView { sid: self.sid, value: opt_raw(self.value) }
    }
}

pub open spec fn snap_rows(v: Seq<SnapRow>) -> Seq<SnapRowView> {
    v.map_values(|r: SnapRow| r@)
}

/// What `snapshot` found.
pub struct SnapData {
    pub rows: Vec<SnapRow>,
    pub selected_len: usize,
    pub known_count: usize,
    pub undef_len: usize,
    pub t_at: i64,
    pub matched: MatchReport,
}

pub struct SnapView {
    pub rows: Seq<SnapRowView>,
    pub selected: nat,
    pub known: nat,
    pub undef: nat,
    pub t_at: int,
    pub matched: ReportView,
}

impl View for SnapData {
    type V = SnapView;

    open spec fn view(&self) -> SnapView {
        SnapView {
            rows: snap_rows(self.rows@),
            selected: self.selected_len as nat,
            known: self.known_count as nat,
            undef: self.undef_len as nat,
            t_at: self.t_at as int,
            matched: self.matched@,
        }
    }
}

/// The rows of the signals that have a value, or of those that have none.
pub open spec fn rows_with(w: WaveView, sids: Seq<usize>, t: int, known: bool) -> Seq<SnapRowView>
    decreases sids.len(),
{
    if sids.len() == 0 {
        Seq::empty()
    } else {
        let rest = rows_with(w, sids.drop_last(), t, known);
        let v = value_at(w.traces[sids.last() as int], t);
        if (v is Some) == known {
            rest.push(SnapRowView { sid: sids.last(), value: v })
        } else {
            rest
        }
    }
}

/// What `snapshot` finds: the known values, and with `--verbose` the signals
/// without one behind them.
pub open spec fn snapshot_of<T: Timescale>(w: WaveView, a: ArgsView, ts: &T) -> Result<
    SnapView,
    Seq<char>,
> {
    match a.at {
        None => Err("the following arguments are required: --at"@),
        Some(at) => match time_of(at, ts) {
            Err(e) => Err(e),
            Ok(t) => match choice_of(a) {
                Err(e) => Err(e),
                Ok(s) => {
                    let sids = chosen(w.table, s);
                    let known = rows_with(w, sids, t, true);
                    let undef = rows_with(w, sids, t, false);
                    Ok(
                        SnapView {
                            rows: if a.verbose {
                                known + undef
                            } else {
                                known
                            },
                            selected: sids.len(),
                            known: known.len(),
                            undef: undef.len(),
                            t_at: t,
                            matched: report_of(w.table, s),
                        },
                    )
                },
            },
        },
    }
}

/// Every selected signal has a value or has none.
pub proof fn snapshot_counts_add_up(w: WaveView, sids: Seq<usize>, t: int)
    ensures
        rows_with(w, sids, t, true).len() + rows_with(w, sids, t, false).len() == sids.len(),
    decreases sids.len(),
{
    if sids.len() > 0 {
        snapshot_counts_add_up(w, sids.drop_last(), t);
    }
}

fn rows_from(
    sids: &Vec<Sid>,
    values: &Vec<Option<RawValue>>,
    known: bool,
    Ghost(w): Ghost<WaveView>,
    Ghost(t): Ghost<int>,
) -> (r: Vec<SnapRow>)
    requires
        values.len() == sids.len(),
        opt_raws(values@) == values_of(w, sids@, t),
        in_table(sids@, w.table.len()),
    ensures
        snap_rows(r@) == rows_with(w, sids@, t, known),
        r.len() == rows_with(w, sids@, t, known).len(),
        forall|i: int| 0 <= i < r.len() ==> (#[trigger] r@[i]).sid < w.table.len(),
{
    let mut r: Vec<SnapRow> = Vec::new();
    let mut i: usize = 0;
    assert(sids@.take(0) =~= Seq::empty());
    assert(snap_rows(r@) =~= Seq::empty());
    while i < sids.len()
        invariant
            i <= sids.len() == values.len(),
            opt_raws(values@) == values_of(w, sids@, t),
            in_table(sids@, w.table.len()),
            snap_rows(r@) == rows_with(w, sids@.take(i as int), t, known),
            forall|k: int| 0 <= k < r.len() ==> (#[trigger] r@[k]).sid < w.table.len(),
        decreases sids.len() - i,
    {
        let sid: Sid = sids[i];
        proof {
            assert(sids@.take(i + 1).drop_last() =~= sids@.take(i as int));
            assert(sids@.take(i + 1).last() == sid);
            assert(opt_raws(values@)[i as int] == values_of(w, sids@, t)[i as int]);
            assert(sids@[i as int] < w.table.len());
        }
        match &values[i] {
            Some(v) => {
                if known {
                    let ghost r0 = snap_rows(r@);
                    let row = SnapRow { sid, value: Some(v.clone()) };
                    r.push(row);
                    assert(snap_rows(r@) =~= r0.push(row@));
                }
            },
            None => {
                if !known {
                    let ghost r0 = snap_rows(r@);
                    let row = SnapRow { sid, value: None };
                    r.push(row);
                    assert(snap_rows(r@) =~= r0.push(row@));
                }
            },
        }
        i += 1;
    }
    assert(sids@.take(i as int) =~= sids@);
    assert(snap_rows(r@).len() == r@.len());
    r
}

/// Are the rows of signals in the table?
pub open spec fn rows_in(rows: Seq<SnapRowView>, n: nat) -> bool {
    forall|i: int| 0 <= i < rows.len() ==> (#[trigger] rows[i]).sid < n
}

/// Collect what `snapshot` shows.
pub fn snapshot_data<B: WaveformBackend, T: Timescale>(
    wave: &mut Wave<B>,
    args: &Args,
    ts: &T,
) -> (r: Result<SnapData, String>)
    requires
        old(wave).wf(),
    ensures
        final(wave).wf(),
        final(wave).same_wave(old(wave)),
        match r {
            Err(e) => snapshot_of(old(wave).snap(), args@, ts) == Err::<SnapView, Seq<char>>(e@),
            Ok(d) => snapshot_of(old(wave).snap(), args@, ts) == Ok::<SnapView, Seq<char>>(d@)
                && rows_in(d@.rows, old(wave).table().len()),
        },
{
    let at: &String = match &args.at {
        Some(s) => s,
        None => {
            return Err("the following arguments are required: --at".to_owned());
        },
    };
    let t_at: i64 = match parse_time(at.as_str(), ts) {
        Ok(t) => t,
        Err(e) => {
            return Err(e.0);
        },
    };
    let selection: Selection = match selection_of(args) {
        Ok(s) => s,
        Err(e) => {
            return Err(e);
        },
    };
    proof {
        wave.table_is_ok();
    }
    let ghost w = old(wave).snap();
    let selected: Vec<Sid> = selected_sids(wave.signals(), &selection);
    let matched: MatchReport = match_report(wave.signals(), &selection, &selected);
    let values: Vec<Option<RawValue>> = values_now(wave, &selected, t_at);
    let mut rows: Vec<SnapRow> = rows_from(&selected, &values, true, Ghost(w), Ghost(t_at as int));
    let mut undef: Vec<SnapRow> = rows_from(
        &selected,
        &values,
        false,
        Ghost(w),
        Ghost(t_at as int),
    );
    let known_count: usize = rows.len();
    let undef_len: usize = undef.len();
    if args.verbose {
        let ghost k0 = rows@;
        let ghost u0 = undef@;
        rows.append(&mut undef);
        assert(snap_rows(rows@) =~= snap_rows(k0) + snap_rows(u0));
        assert forall|i: int| 0 <= i < rows@.len() implies (#[trigger] rows@[i]).sid
            < w.table.len() by {
            if i < k0.len() {
                assert(rows@[i] == k0[i]);
            } else {
                assert(rows@[i] == u0[i - k0.len()]);
            }
        }
    }
    Ok(
        SnapData {
            rows,
            selected_len: selected.len(),
            known_count,
            undef_len,
            t_at,
            matched,
        },
    )
}

pub open spec fn opt_value_json(v: Option<RawView>, s: SignalView) -> JsonView {
    match v {
        Some(x) => JsonView::Str(compact_value(x, s)),
        None => JsonView::Null,
    }
}

pub open spec fn snap_row_json(table: Seq<SignalView>, r: SnapRowView, verbose: bool) -> JsonView {
    let s = table[r.sid as int];
    JsonView::Object(
        seq![
            ("path"@, JsonView::Str(s.path)),
            ("value"@, opt_value_json(r.value, s)),
            ("undefined"@, JsonView::Bool(r.value is None)),
        ] + verbose_members(verbose, s),
    )
}

pub open spec fn snapshot_hints<T: Timescale>(d: SnapView, limit: int, ts: &T) -> Seq<Seq<char>> {
    let total = d.rows.len();
    let shown = shown_count(total as int, limit);
    let h = with_hint(
        with_hint(
            Seq::empty(),
            trunc_hint_text(shown < total, shown as nat, total, true, "signals"@),
        ),
        alias_note_text(d.matched),
    );
    if d.selected == 0 {
        h.push(
            if d.matched.selective {
                SELECTION_EMPTY@
            } else {
                NO_SIGNALS@
            },
        )
    } else if d.known == 0 {
        h.push("no signal has a known value at "@ + ts.shown(d.t_at) + ": "@ + NO_KNOWN_VALUE@)
    } else {
        h
    }
}

/// What `snapshot` writes as JSON.
pub open spec fn snapshot_json<T: Timescale>(
    table: Seq<SignalView>,
    d: SnapView,
    verbose: bool,
    limit: int,
    ts: &T,
) -> JsonView {
    let total = d.rows.len();
    let shown = shown_count(total as int, limit);
    JsonView::Object(
        (time_members("at"@, Some(d.t_at), ts) + seq![
            ("matched"@, report_json(d.matched)),
            ("selected"@, count_view(d.selected as int)),
            ("known"@, count_view(d.known as int)),
            ("undefined"@, count_view(d.undef as int)),
        ] + count_members(shown, total as int, true, shown < total)).push(
            ("hint"@, hint_json(snapshot_hints(d, limit, ts))),
        ).push(
            (
                "signals"@,
                JsonView::Array(
                    d.rows.take(shown).map_values(
                        |r: SnapRowView| snap_row_json(table, r, verbose),
                    ),
                ),
            ),
        ),
    )
}

fn snap_array(table: &Vec<SignalInfo>, rows: &Vec<SnapRow>, shown: usize, verbose: bool) -> (v: Vec<
    Json,
>)
    requires
        shown <= rows.len(),
        rows_in(snap_rows(rows@), table@.len()),
    ensures
        json_views(v@) == snap_rows(rows@).take(shown as int).map_values(
            |r: SnapRowView| snap_row_json(signal_views(table@), r, verbose),
        ),
{
    let ghost rv = snap_rows(rows@);
    let ghost tab = signal_views(table@);
    let mut v: Vec<Json> = Vec::new();
    let mut i: usize = 0;
    while i < shown
        invariant
            i <= shown <= rows.len(),
            rv == snap_rows(rows@),
            tab == signal_views(table@),
            rows_in(rv, table@.len()),
            v.len() == i,
            forall|k: int| 0 <= k < i ==> (#[trigger] v@[k])@ == snap_row_json(tab, rv[k], verbose),
        decreases shown - i,
    {
        let r: &SnapRow = &rows[i];
        assert(rv[i as int] == r@);
        let info: &SignalInfo = &table[r.sid];
        assert(tab[r.sid as int] == info@);
        let value: Json = match &r.value {
            Some(x) => Json::str(x.fmt_value_compact(info.kind, info.width).as_str()),
            None => Json::Null,
        };
        let o: Obj = Obj::new().push("path", Json::str(info.path.as_str())).push(
            "value",
            value,
        ).push("undefined", Json::Bool(r.value.is_none()));
        assert(o@ =~= seq![
            ("path"@, JsonView::Str(info@.path)),
            ("value"@, opt_value_json(r@.value, info@)),
            ("undefined"@, JsonView::Bool(r@.value is None)),
        ]);
        v.push(push_verbose(o, verbose, info).build());
        i += 1;
    }
    assert(json_views(v@) =~= rv.take(shown as int).map_values(
        |r: SnapRowView| snap_row_json(tab, r, verbose),
    ));
    v
}

/// Render what `snapshot` found as JSON.
pub fn snapshot_to_json<T: Timescale>(
    table: &Vec<SignalInfo>,
    d: &SnapData,
    verbose: bool,
    limit: usize,
    ts: &T,
) -> (j: Json)
    requires
        rows_in(d@.rows, table@.len()),
    ensures
        j@ == snapshot_json(signal_views(table@), d@, verbose, limit as int, ts),
{
    let ghost dv = d@;
    let total: usize = d.rows.len();
    assert(dv.rows.len() == total);
    let (shown, trunc) = clip_len(total, limit);
    let arr: Vec<Json> = snap_array(table, &d.rows, shown, verbose);
    let obj: Obj = push_time(Obj::new(), "at", d.t_at, ts).push("matched", d.matched.json()).push(
        "selected",
        count_json(d.selected_len),
    ).push("known", count_json(d.known_count)).push("undefined", count_json(d.undef_len));
    assert(obj@ =~= time_members("at"@, Some(dv.t_at), ts) + seq![
        ("matched"@, report_json(dv.matched)),
        ("selected"@, count_view(dv.selected as int)),
        ("known"@, count_view(dv.known as int)),
        ("undefined"@, count_view(dv.undef as int)),
    ]);
    let obj: Obj = push_counts(obj, shown, total, true, trunc);
    let mut hints: Hints = Hints::new();
    hints.push_opt(trunc_hint(trunc, shown, total, true, "signals"));
    hints.push_opt(d.matched.alias_note());
    if d.selected_len == 0 {
        if d.matched.selective {
            hints.push(SELECTION_EMPTY.to_owned());
        } else {
            hints.push(NO_SIGNALS.to_owned());
        }
    } else if d.known_count == 0 {
        let mut m: String = "no signal has a known value at ".to_owned();
        m.push_str(ts.fmt_time(d.t_at).as_str());
        m.push_str(": ");
        m.push_str(NO_KNOWN_VALUE);
        hints.push(m);
    }
    assert(hints@ == snapshot_hints(dv, limit as int, ts));
    hints.attach(obj).push("signals", array(arr)).build()
}

/// The `snapshot` command with JSON output.
pub fn compute_snapshot<B: WaveformBackend, T: Timescale>(
    wave: &mut Wave<B>,
    args: &Args,
    ts: &T,
) -> (r: Result<Json, String>)
    requires
        old(wave).wf(),
    ensures
        final(wave).wf(),
        final(wave).same_wave(old(wave)),
        match snapshot_of(old(wave).snap(), args@, ts) {
            Err(e) => r is Err && r->Err_0@ == e,
            Ok(d) => r is Ok && r->Ok_0@ == snapshot_json(
                old(wave).table(),
                d,
                args.verbose,
                limit_view(args@),
                ts,
            ),
        },
{
    match snapshot_data(wave, args, ts) {
        Err(e) => Err(e),
        Ok(d) => Ok(snapshot_to_json(wave.signals(), &d, args.verbose, limit_of(args), ts)),
    }
}

/// One line on a signal.
pub open spec fn snap_line(table: Seq<SignalView>, r: SnapRowView, verbose: bool) -> Seq<char> {
    let s = table[r.sid as int];
    match r.value {
        Some(v) => event_line(s, v, verbose),
        None => "  "@ + left_justified(s.path, 55) + " = (undef)\n"@,
    }
}

pub open spec fn snap_lines(
    table: Seq<SignalView>,
    rows: Seq<SnapRowView>,
    n: int,
    verbose: bool,
) -> Seq<char>
    decreases n,
{
    if n <= 0 {
        Seq::empty()
    } else {
        snap_lines(table, rows, n - 1, verbose) + snap_line(table, rows[n - 1], verbose)
    }
}

/// What `snapshot` writes as text.
pub open spec fn snapshot_text<T: Timescale>(
    table: Seq<SignalView>,
    d: SnapView,
    verbose: bool,
    limit: int,
    ts: &T,
) -> Seq<char> {
    let total = d.rows.len();
    let shown = shown_count(total as int, limit);
    (if d.known == 0 {
        "No known values at "@ + ts.shown(d.t_at) + ".\n"@
    } else {
        "Known snapshot @ "@ + ts.shown(d.t_at) + "\n"@
    }) + opt_line(""@, header_text(d.matched)) + opt_line("Note: "@, alias_note_text(d.matched)) + (
    if verbose {
        "Selected: "@ + dec(d.selected) + ", Known: "@ + dec(d.known) + ", Undefined: "@ + dec(
            d.undef,
        ) + "\n"@
    } else {
        Seq::empty()
    }) + snap_lines(table, d.rows, shown, verbose) + opt_line(
        ""@,
        if shown < total {
            Some(trunc_text(shown as nat, total, ""@, "signals"@))
        } else {
            None
        },
    )
}

fn push_snap_lines(
    out: &mut String,
    table: &Vec<SignalInfo>,
    rows: &Vec<SnapRow>,
    shown: usize,
    verbose: bool,
)
    requires
        shown <= rows.len(),
        rows_in(snap_rows(rows@), table@.len()),
    ensures
        final(out)@ == old(out)@ + snap_lines(
            signal_views(table@),
            snap_rows(rows@),
            shown as int,
            verbose,
        ),
{
    let ghost rv = snap_rows(rows@);
    let ghost tab = signal_views(table@);
    let ghost o0 = out@;
    let mut i: usize = 0;
    assert(out@ =~= o0 + Seq::<char>::empty());
    while i < shown
        invariant
            i <= shown <= rows.len(),
            rv == snap_rows(rows@),
            tab == signal_views(table@),
            rows_in(rv, table@.len()),
            out@ == o0 + snap_lines(tab, rv, i as int, verbose),
        decreases shown - i,
    {
        let r: &SnapRow = &rows[i];
        assert(rv[i as int] == r@);
        let info: &SignalInfo = &table[r.sid];
        assert(tab[r.sid as int] == info@);
        let line: String = match &r.value {
            Some(v) => event_line_text(info, v, verbose),
            None => {
                let mut m: String = "  ".to_owned();
                m.push_str(ljust(info.path.as_str(), 55).as_str());
                m.push_str(" = (undef)\n");
                m
            },
        };
        out.push_str(line.as_str());
        assert(out@ =~= o0 + snap_lines(tab, rv, i + 1, verbose));
        i += 1;
    }
}

/// Render what `snapshot` found as text.
pub fn snapshot_to_text<T: Timescale>(
    table: &Vec<SignalInfo>,
    d: &SnapData,
    verbose: bool,
    limit: usize,
    ts: &T,
) -> (s: String)
    requires
        rows_in(d@.rows, table@.len()),
    ensures
        s@ == snapshot_text(signal_views(table@), d@, verbose, limit as int, ts),
{
    let ghost dv = d@;
    let total: usize = d.rows.len();
    assert(dv.rows.len() == total);
    let (shown, trunc) = clip_len(total, limit);
    let mut out: String = if d.known_count == 0 {
        let mut m: String = "No known values at ".to_owned();
        m.push_str(ts.fmt_time(d.t_at).as_str());
        m.push_str(".\n");
        m
    } else {
        let mut m: String = "Known snapshot @ ".to_owned();
        m.push_str(ts.fmt_time(d.t_at).as_str());
        m.push_str("\n");
        m
    };
    push_opt_line(&mut out, "", d.matched.header());
    push_opt_line(&mut out, "Note: ", d.matched.alias_note());
    let mut sums: String = "".to_owned();
    if verbose {
        sums = "Selected: ".to_owned();
        sums.push_str(usize_text(d.selected_len).as_str());
        sums.push_str(", Known: ");
        sums.push_str(usize_text(d.known_count).as_str());
        sums.push_str(", Undefined: ");
        sums.push_str(usize_text(d.undef_len).as_str());
        sums.push_str("\n");
    }
    proof {
        reveal_strlit("");
        assert(!verbose ==> sums@ =~= Seq::empty());
    }
    out.push_str(sums.as_str());
    push_snap_lines(&mut out, table, &d.rows, shown, verbose);
    let notice: Option<String> = if trunc {
        Some(trunc_line(shown, total, "signals"))
    } else {
        None
    };
    push_opt_line(&mut out, "", notice);
    out
}

/// The `snapshot` command with text output.
pub fn text_snapshot<B: WaveformBackend, T: Timescale>(
    wave: &mut Wave<B>,
    args: &Args,
    ts: &T,
) -> (r: Result<String, String>)
    requires
        old(wave).wf(),
    ensures
        final(wave).wf(),
        final(wave).same_wave(old(wave)),
        match snapshot_of(old(wave).snap(), args@, ts) {
            Err(e) => r is Err && r->Err_0@ == e,
            Ok(d) => r is Ok && r->Ok_0@ == snapshot_text(
                old(wave).table(),
                d,
                args.verbose,
                limit_view(args@),
                ts,
            ),
        },
{
    match snapshot_data(wave, args, ts) {
        Err(e) => Err(e),
        Ok(d) => Ok(snapshot_to_text(wave.signals(), &d, args.verbose, limit_of(args), ts)),
    }
}

} // verus!
