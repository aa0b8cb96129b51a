//! The `search` command: when a condition holds, or when it fires.

use vstd::prelude::*;

use crate::backend::WaveformBackend;
use crate::clauses::{
    bound_clauses, clause_labels, either, involved, involved_sids, is_mixed, mixed,
    resolve_clauses, spelled_out, watched, watched_sids, written,
};
use crate::cli::{Args, ArgsView};
use crate::dump::{loaded_changes, opt_line, push_opt_line, window_events};
use crate::filter::MatchMode;
use crate::format::{fmt_val_compact, value_compact};
use crate::info::{text_array, texts_json};
use crate::json::{array, json_views, member_views, object, Json, JsonView, Obj};
use crate::model::{in_table, Sid, Wave, WaveView};
use crate::replay::{opt_tick, DumpEvent, EventView};
use crate::report::{
    choice_of, count_label, count_members, count_text, hint_json, last_tick, limit_of, limit_view,
    match_mode, mode_view, push_counts, push_opt_time, selection_of, time_members, trunc_hint,
    trunc_hint_text, trunc_line_lb, trunc_text, window_json, window_view, with_hint, Hints,
};
use crate::resolve::{paths_at, resolve_show_sids, show_meant};
use crate::select::Selection;
use crate::signal::{signal_views, SignalInfo, SignalView};
use crate::sweep::{
    clause_views, first_rows, firing_views, firings, group_end, later_points, points, question_ok,
    rows_counted, run_length, search_event_collect, search_firings, search_interval_collect,
    search_spans, shown_text, show_value, span_views, spans, state_views, CondView, Firing,
    FiringView, IntervalRow, PointView, Question, ResolvedCond, SpanView,
};
use crate::text::{clone_opt, join, joined, left_justified, ljust, opt_view, views};
use crate::time::{parse_time, time_of, Timescale};

verus! {

/// A search with its names resolved.
pub struct SearchSetup {
    pub clauses: Vec<Vec<ResolvedCond>>,
    pub show_sids: Vec<Sid>,
    /// The signals asked to change; there are some just when the search looks
    /// for ticks rather than spans.
    pub changed_sids: Vec<Sid>,
    /// The signals that have to be decoded.
    pub selected: Vec<Sid>,
    pub t0: i64,
    pub t1: i64,
    pub cond_label: String,
    pub cond_text: String,
}

pub struct SearchView {
    pub clauses: Seq<Seq<CondView>>,
    pub show: Seq<usize>,
    pub changed: Seq<usize>,
    pub selected: Seq<usize>,
    pub t0: int,
    pub t1: int,
    pub label: Seq<char>,
    pub text: Seq<char>,
}

impl View for SearchSetup {
    type V = SearchView;

    open spec fn view(&self) -> SearchView {
        SearchView {
            clauses: clause_views(self.clauses@),
            show: self.show_sids@,
            changed: self.changed_sids@,
            selected: self.selected@,
            t0: self.t0 as int,
            t1: self.t1 as int,
            label: self.cond_label@,
            text: self.cond_text@,
        }
    }
}

/// The end of the window: the one given, or the last tick of the file.
pub open spec fn end_meant<T: Timescale>(w: WaveView, end: Option<Seq<char>>, ts: &T) -> Result<
    int,
    Seq<char>,
> {
    match end {
        Some(e) => time_of(e, ts),
        None => match last_tick(w) {
            Some(t) => Ok(t),
            None => Err(
                "search cannot evaluate condition: VCD data section contains no value changes"@,
            ),
        },
    }
}

/// The window of a search.
pub open spec fn search_window<T: Timescale>(w: WaveView, a: ArgsView, ts: &T) -> Result<
    (int, int),
    Seq<char>,
> {
    let begin = match a.begin {
        Some(b) => time_of(b, ts),
        None => Ok(0),
    };
    match begin {
        Err(e) => Err(e),
        Ok(t0) => match end_meant(w, a.end, ts) {
            Err(e) => Err(e),
            Ok(t1) => if t1 < t0 {
                Err(
                    if a.end is Some {
                        "end time must be >= begin time"@
                    } else {
                        "--begin "@ + ts.shown(t0) + " is after the last event at "@ + ts.shown(t1)
                            + "; the window is empty"@
                    },
                )
            } else {
                Ok((t0, t1))
            },
        },
    }
}

pub const MIXED_CLAUSES: &'static str =
    "cannot mix changed() and level-only --condition clauses: a changed() clause fires at ticks (event mode) while a level-only clause spans time (interval mode); give every clause a changed() term, or run two searches";

/// A search over the clauses, showing what is asked for or, failing that, the
/// signals that are to change.
pub open spec fn search_over(
    n: nat,
    clauses: Seq<Seq<CondView>>,
    show: Seq<usize>,
    t0: int,
    t1: int,
) -> SearchView {
    let changed = watched(clauses, n);
    let shown = if show.len() == 0 {
        changed
    } else {
        show
    };
    SearchView {
        clauses,
        show: shown,
        changed,
        selected: involved(clauses, shown, n),
        t0,
        t1,
        label: either(clauses.map_values(|c: Seq<CondView>| written(c))),
        text: either(clauses.map_values(|c: Seq<CondView>| spelled_out(c))),
    }
}

/// What an invocation asks to search for.
pub open spec fn search_of<T: Timescale>(w: WaveView, a: ArgsView, ts: &T) -> Result<
    SearchView,
    Seq<char>,
> {
    match search_window(w, a, ts) {
        Err(e) => Err(e),
        Ok((t0, t1)) => if a.condition.len() == 0 {
            Err("the following arguments are required: --condition"@)
        } else {
            match choice_of(a) {
                Err(e) => Err(e),
                Ok(sel) => match bound_clauses(w.table, sel, a.condition, mode_view(a)) {
                    Err(e) => Err(e),
                    Ok(clauses) => if is_mixed(clauses) {
                        Err(MIXED_CLAUSES@)
                    } else {
                        match show_meant(w.table, sel, a.show, mode_view(a)) {
                            Err(e) => Err(e),
                            Ok(show) => Ok(search_over(w.table.len(), clauses, show, t0, t1)),
                        }
                    },
                },
            }
        },
    }
}

/// Is everything the search names in a table of `n` signals?
pub open spec fn setup_ok(d: SearchView, n: nat) -> bool {
    &&& crate::sweep::clauses_in(d.clauses, n)
    &&& forall|i: int| 0 <= i < d.show.len() ==> (#[trigger] d.show[i]) < n
    &&& forall|i: int| 0 <= i < d.changed.len() ==> (#[trigger] d.changed[i]) < n
    &&& forall|i: int| 0 <= i < d.selected.len() ==> (#[trigger] d.selected[i]) < n
}

fn window_of_search<B: WaveformBackend, T: Timescale>(wave: &Wave<B>, args: &Args, ts: &T) -> (r:
    Result<(i64, i64), String>)
    ensures
        match r {
            Ok(w) => search_window(wave.snap(), args@, ts) == Ok::<(int, int), Seq<char>>(
                (w.0 as int, w.1 as int),
            ),
            Err(e) => search_window(wave.snap(), args@, ts) == Err::<(int, int), Seq<char>>(e@),
        },
{
    let t0: i64 = match &args.begin {
        Some(b) => match parse_time(b.as_str(), ts) {
            Ok(t) => t,
            Err(e) => {
                return Err(e.0);
            },
        },
        None => 0,
    };
    let t1: i64 = match &args.end {
        Some(x) => match parse_time(x.as_str(), ts) {
            Ok(t) => t,
            Err(e) => {
                return Err(e.0);
            },
        },
        None => match wave.time_range() {
            Some((_, mx)) => mx,
            None => {
                return Err(
                    "search cannot evaluate condition: VCD data section contains no value changes".to_owned(),
                );
            },
        },
    };
    if t1 < t0 {
        if args.end.is_some() {
            return Err("end time must be >= begin time".to_owned());
        }
        let mut m: String = "--begin ".to_owned();
        m.push_str(ts.fmt_time(t0).as_str());
        m.push_str(" is after the last event at ");
        m.push_str(ts.fmt_time(t1).as_str());
        m.push_str("; the window is empty");
        return Err(m);
    }
    Ok((t0, t1))
}

fn copy_sids(v: &Vec<Sid>) -> (r: Vec<Sid>)
    ensures
        r@ == v@,
{
    let n: usize = v.len();
    let r: Vec<Sid> = crate::model::copy_range(v, 0, n);
    assert(v@.subrange(0, n as int) =~= v@);
    r
}

/// Resolve the names of a search.
pub fn search_setup<B: WaveformBackend, T: Timescale>(wave: &Wave<B>, args: &Args, ts: &T) -> (r:
    Result<SearchSetup, String>)
    requires
        wave.wf(),
    ensures
        match r {
            Ok(d) => search_of(wave.snap(), args@, ts) == Ok::<SearchView, Seq<char>>(d@)
                && setup_ok(d@, wave.table().len()),
            Err(e) => search_of(wave.snap(), args@, ts) == Err::<SearchView, Seq<char>>(e@),
        },
{
    let (t0, t1) = match window_of_search(wave, args, ts) {
        Ok(w) => w,
        Err(e) => {
            return Err(e);
        },
    };
    assert(args@.condition.len() == args.condition@.len());
    if args.condition.len() == 0 {
        return Err("the following arguments are required: --condition".to_owned());
    }
    let mode: MatchMode = match_mode(args);
    let sel: Selection = match selection_of(args) {
        Ok(s) => s,
        Err(e) => {
            return Err(e);
        },
    };
    proof {
        wave.table_is_ok();
    }
    let table: &Vec<SignalInfo> = wave.signals();
    let count: usize = table.len();
    assert(wave.table().len() == count);
    let clauses: Vec<Vec<ResolvedCond>> = match resolve_clauses(
        table,
        &sel,
        &args.condition,
        mode,
    ) {
        Ok(c) => c,
        Err(e) => {
            return Err(e);
        },
    };
    if mixed(&clauses) {
        return Err(MIXED_CLAUSES.to_owned());
    }
    let changed_sids: Vec<Sid> = watched_sids(&clauses, count);
    let asked: Vec<Sid> = match resolve_show_sids(table, &sel, &args.show, mode) {
        Ok(v) => v,
        Err(e) => {
            return Err(e);
        },
    };
    let show_sids: Vec<Sid> = if asked.len() == 0 {
        copy_sids(&changed_sids)
    } else {
        asked
    };
    let selected: Vec<Sid> = involved_sids(&clauses, &show_sids, count);
    let (cond_label, cond_text) = clause_labels(&clauses);
    Ok(SearchSetup { clauses, show_sids, changed_sids, selected, t0, t1, cond_label, cond_text })
}

/// One row of a search: a span, or a tick (without an end), with the values
/// shown as they are recorded.
pub struct Hit {
    pub begin: i64,
    pub end: Option<i64>,
    pub raws: Vec<Option<String>>,
}

pub struct HitView {
    pub begin: int,
    pub end: Option<int>,
    pub raws: Seq<Option<Seq<char>>>,
}

impl View for Hit {
    type V = HitView;

    open spec fn view(&self) -> HitView {
        HitView {
            begin: self.begin as int,
            end: opt_tick(self.end),
            raws: state_views(self.raws@),
        }
    }
}

pub open spec fn hit_views(v: Seq<Hit>) -> Seq<HitView> {
    v.map_values(|h: Hit| h@)
}

pub open spec fn question_of(w: WaveView, d: SearchView) -> Question {
    Question { clauses: d.clauses, table: w.table, show: d.show }
}

pub open spec fn hit_of_firing(f: FiringView) -> HitView {
    HitView { begin: f.tick, end: None, raws: f.raws }
}

pub open spec fn hit_of_span(s: SpanView) -> HitView {
    HitView { begin: s.begin, end: Some(s.end), raws: s.raws }
}

/// All rows of a search.
pub open spec fn hits_of(w: WaveView, d: SearchView) -> Seq<HitView> {
    let q = question_of(w, d);
    let ev = window_events(w, d.selected, 0, Some(d.t1));
    if d.changed.len() > 0 {
        search_firings(q, ev, d.t0).map_values(|f: FiringView| hit_of_firing(f))
    } else {
        search_spans(q, ev, d.t0, d.t1).map_values(|s: SpanView| hit_of_span(s))
    }
}

/// Does every row have a value for each signal shown?
pub open spec fn hits_ok(h: Seq<HitView>, n: nat) -> bool {
    forall|i: int| 0 <= i < h.len() ==> (#[trigger] h[i]).raws.len() == n
}

proof fn lemma_firings_ok(q: Question, events: Seq<EventView>, i: int)
    ensures
        forall|k: int|
            0 <= k < firings(q, events, i).len() ==> (#[trigger] firings(q, events, i)[k]).raws.len()
                == q.show.len(),
    decreases events.len() - i,
{
    if i < events.len() {
        let j = group_end(events, i);
        if i < j <= events.len() {
            lemma_firings_ok(q, events, j);
            let all = firings(q, events, i);
            let rest = firings(q, events, j);
            assert forall|k: int| 0 <= k < all.len() implies (#[trigger] all[k]).raws.len()
                == q.show.len() by {
                if all.len() == rest.len() {
                    assert(all[k] == rest[k]);
                } else if k > 0 {
                    assert(all[k] == rest[k - 1]);
                }
            }
        }
    }
}

proof fn lemma_points_ok(q: Question, events: Seq<EventView>, i: int)
    ensures
        forall|k: int|
            0 <= k < later_points(q, events, i).len() ==> (#[trigger] later_points(
                q,
                events,
                i,
            )[k]).raws.len() == q.show.len(),
    decreases events.len() - i,
{
    if i < events.len() {
        let j = group_end(events, i);
        if i < j <= events.len() {
            lemma_points_ok(q, events, j);
        }
    }
}

proof fn lemma_spans_ok(ps: Seq<PointView>, t1: int, n: nat)
    requires
        forall|k: int| 0 <= k < ps.len() ==> (#[trigger] ps[k]).raws.len() == n,
    ensures
        forall|k: int| 0 <= k < spans(ps, t1).len() ==> (#[trigger] spans(ps, t1)[k]).raws.len() == n,
    decreases ps.len(),
{
    if ps.len() > 0 {
        let m = run_length(ps);
        if 0 < m < ps.len() {
            let rest = ps.skip(m);
            assert forall|k: int| 0 <= k < rest.len() implies (#[trigger] rest[k]).raws.len()
                == n by {
                assert(rest[k] == ps[m + k]);
            }
            lemma_spans_ok(rest, t1, n);
            let all = spans(ps, t1);
            let later = spans(rest, t1);
            assert forall|k: int| 0 <= k < all.len() implies (#[trigger] all[k]).raws.len() == n by {
                if ps[0].key is None {
                    assert(all[k] == later[k]);
                } else if k > 0 {
                    assert(all[k] == later[k - 1]);
                }
            }
        }
    }
}

proof fn lemma_hits_ok(w: WaveView, d: SearchView)
    ensures
        hits_ok(hits_of(w, d), d.show.len()),
{
    let q = question_of(w, d);
    let ev = window_events(w, d.selected, 0, Some(d.t1));
    if d.changed.len() > 0 {
        lemma_firings_ok(q, ev, crate::sweep::first_after(ev, d.t0 - 1, 0));
        let f = search_firings(q, ev, d.t0);
        assert forall|i: int| 0 <= i < hits_of(w, d).len() implies (
        #[trigger] hits_of(w, d)[i]).raws.len() == d.show.len() by {
            assert(hits_of(w, d)[i] == hit_of_firing(f[i]));
        }
    } else {
        let s = search_spans(q, ev, d.t0, d.t1);
        if d.t0 != d.t1 {
            lemma_points_ok(q, ev, crate::sweep::first_after(ev, d.t0, 0));
            lemma_spans_ok(points(q, ev, d.t0), d.t1, d.show.len());
        }
        assert forall|i: int| 0 <= i < hits_of(w, d).len() implies (
        #[trigger] hits_of(w, d)[i]).raws.len() == d.show.len() by {
            assert(hits_of(w, d)[i] == hit_of_span(s[i]));
        }
    }
}

fn clone_raws(v: &Vec<Option<String>>) -> (r: Vec<Option<String>>)
    ensures
        state_views(r@) == state_views(v@),
{
    let mut r: Vec<Option<String>> = Vec::new();
    let mut i: usize = 0;
    while i < v.len()
        invariant
            i <= v.len(),
            r.len() == i,
            forall|k: int| 0 <= k < i ==> opt_view(#[trigger] r@[k]) == opt_view(v@[k]),
        decreases v.len() - i,
    {
        r.push(clone_opt(&v[i]));
        i += 1;
    }
    assert(state_views(r@) =~= state_views(v@));
    r
}

fn hits_of_firings(v: &Vec<Firing>) -> (r: Vec<Hit>)
    ensures
        hit_views(r@) == firing_views(v@).map_values(|f: FiringView| hit_of_firing(f)),
{
    let mut r: Vec<Hit> = Vec::new();
    let mut i: usize = 0;
    while i < v.len()
        invariant
            i <= v.len(),
            r.len() == i,
            forall|k: int| 0 <= k < i ==> (#[trigger] r@[k])@ == hit_of_firing(v@[k]@),
        decreases v.len() - i,
    {
        r.push(Hit { begin: v[i].time_ticks, end: None, raws: clone_raws(&v[i].raws) });
        i += 1;
    }
    assert(hit_views(r@) =~= firing_views(v@).map_values(|f: FiringView| hit_of_firing(f)));
    r
}

fn hits_of_spans(v: &Vec<IntervalRow>) -> (r: Vec<Hit>)
    ensures
        hit_views(r@) == span_views(v@).map_values(|s: SpanView| hit_of_span(s)),
{
    let mut r: Vec<Hit> = Vec::new();
    let mut i: usize = 0;
    while i < v.len()
        invariant
            i <= v.len(),
            r.len() == i,
            forall|k: int| 0 <= k < i ==> (#[trigger] r@[k])@ == hit_of_span(v@[k]@),
        decreases v.len() - i,
    {
        r.push(
            Hit { begin: v[i].begin_ticks, end: Some(v[i].end_ticks), raws: clone_raws(&v[i].raws) },
        );
        i += 1;
    }
    assert(hit_views(r@) =~= span_views(v@).map_values(|s: SpanView| hit_of_span(s)));
    r
}

/// Find the rows of a search, at most `limit` of them unless it is zero; how
/// many were counted, and whether there are more.
pub fn collect_hits<B: WaveformBackend>(wave: &mut Wave<B>, d: &SearchSetup, limit: usize) -> (r: (
    Vec<Hit>,
    usize,
    bool,
))
    requires
        old(wave).wf(),
        setup_ok(d@, old(wave).table().len()),
    ensures
        final(wave).wf(),
        final(wave).same_wave(old(wave)),
        ({
            let all = hits_of(old(wave).snap(), d@);
            &&& hit_views(r.0@) == first_rows(all, limit)
            &&& r.1 == rows_counted(all.len(), limit)
            &&& r.2 == (limit != 0 && all.len() > limit)
            &&& hits_ok(hit_views(r.0@), d@.show.len())
        }),
{
    let ghost w = old(wave).snap();
    let ghost all = hits_of(w, d@);
    let ghost q = question_of(w, d@);
    proof {
        lemma_hits_ok(w, d@);
        assert(in_table(d.selected@, old(wave).table().len()));
        assert(question_ok(q));
    }
    let events: Vec<DumpEvent> = loaded_changes(wave, &d.selected, 0, Some(d.t1));
    if d.changed_sids.len() > 0 {
        let (rows, total, more) = search_event_collect(
            wave.signals(),
            &d.clauses,
            &d.show_sids,
            &events,
            d.t0,
            limit,
        );
        let hits: Vec<Hit> = hits_of_firings(&rows);
        assert(hit_views(hits@) =~= first_rows(all, limit));
        (hits, total, more)
    } else {
        let (rows, total, more) = search_interval_collect(
            wave.signals(),
            &d.clauses,
            &d.show_sids,
            &events,
            d.t0,
            d.t1,
            limit,
        );
        let hits: Vec<Hit> = hits_of_spans(&rows);
        assert(hit_views(hits@) =~= first_rows(all, limit));
        (hits, total, more)
    }
}

/// A value shown, as JSON has it.
pub open spec fn shown_compact(raw: Option<Seq<char>>, s: SignalView) -> Seq<char> {
    match raw {
        Some(r) => value_compact(r, s.kind, s.width),
        None => "(undef)"@,
    }
}

fn compact_shown(raw: &Option<String>, info: &SignalInfo) -> (s: String)
    ensures
        s@ == shown_compact(opt_view(*raw), info@),
{
    match raw {
        Some(r) => fmt_val_compact(r.as_str(), info.kind, info.width),
        None => "(undef)".to_owned(),
    }
}

/// The values shown, by path.
pub open spec fn values_json(
    table: Seq<SignalView>,
    show: Seq<usize>,
    raws: Seq<Option<Seq<char>>>,
) -> JsonView {
    JsonView::Object(
        Seq::new(
            show.len(),
            |i: int|
                (
                    table[show[i] as int].path,
                    JsonView::Str(shown_compact(raws[i], table[show[i] as int])),
                ),
        ),
    )
}

pub open spec fn opt_text_json(s: Option<Seq<char>>) -> JsonView {
    match s {
        Some(t) => JsonView::Str(t),
        None => JsonView::Null,
    }
}

pub open spec fn meta_entry(s: SignalView, raw: Option<Seq<char>>) -> JsonView {
    JsonView::Object(
        seq![
            ("raw"@, opt_text_json(raw)),
            ("width"@, JsonView::Int(s.width as int)),
            ("type"@, JsonView::Str(s.type_str)),
        ],
    )
}

/// What is recorded of the signals shown, by path.
pub open spec fn meta_json(
    table: Seq<SignalView>,
    show: Seq<usize>,
    raws: Seq<Option<Seq<char>>>,
) -> JsonView {
    JsonView::Object(
        Seq::new(
            show.len(),
            |i: int| (table[show[i] as int].path, meta_entry(table[show[i] as int], raws[i])),
        ),
    )
}

pub open spec fn hit_json<T: Timescale>(
    table: Seq<SignalView>,
    show: Seq<usize>,
    h: HitView,
    verbose: bool,
    ts: &T,
) -> JsonView {
    JsonView::Object(
        (time_members("begin"@, Some(h.begin), ts) + time_members("end"@, h.end, ts)).push(
            ("values"@, values_json(table, show, h.raws)),
        ) + (if verbose {
            seq![("meta"@, meta_json(table, show, h.raws))]
        } else {
            Seq::empty()
        }),
    )
}

fn values_object(table: &Vec<SignalInfo>, show: &Vec<Sid>, raws: &Vec<Option<String>>) -> (j: Json)
    requires
        raws@.len() == show@.len(),
        forall|i: int| 0 <= i < show@.len() ==> (#[trigger] show@[i]) < table@.len(),
    ensures
        j@ == values_json(signal_views(table@), show@, state_views(raws@)),
{
    let ghost tab = signal_views(table@);
    let ghost rv = state_views(raws@);
    let mut out: Vec<(String, Json)> = Vec::new();
    let mut i: usize = 0;
    while i < show.len()
        invariant
            i <= show.len() == raws.len(),
            tab == signal_views(table@),
            rv == state_views(raws@),
            forall|k: int| 0 <= k < show@.len() ==> (#[trigger] show@[k]) < table@.len(),
            out.len() == i,
            forall|k: int|
                0 <= k < i ==> (#[trigger] out@[k]).0@ == tab[show@[k] as int].path && out@[k].1@
                    == JsonView::Str(shown_compact(rv[k], tab[show@[k] as int])),
        decreases show.len() - i,
    {
        let sid: Sid = show[i];
        assert(show@[i as int] < table@.len());
        let info: &SignalInfo = &table[sid];
        assert(tab[sid as int] == info@);
        assert(rv[i as int] == opt_view(raws@[i as int]));
        out.push((info.path.clone(), Json::str(compact_shown(&raws[i], info).as_str())));
        i += 1;
    }
    assert(member_views(out@) =~= values_json(tab, show@, rv)->Object_0);
    object(out)
}

fn meta_object(table: &Vec<SignalInfo>, show: &Vec<Sid>, raws: &Vec<Option<String>>) -> (j: Json)
    requires
        raws@.len() == show@.len(),
        forall|i: int| 0 <= i < show@.len() ==> (#[trigger] show@[i]) < table@.len(),
    ensures
        j@ == meta_json(signal_views(table@), show@, state_views(raws@)),
{
    let ghost tab = signal_views(table@);
    let ghost rv = state_views(raws@);
    let mut out: Vec<(String, Json)> = Vec::new();
    let mut i: usize = 0;
    while i < show.len()
        invariant
            i <= show.len() == raws.len(),
            tab == signal_views(table@),
            rv == state_views(raws@),
            forall|k: int| 0 <= k < show@.len() ==> (#[trigger] show@[k]) < table@.len(),
            out.len() == i,
            forall|k: int|
                0 <= k < i ==> (#[trigger] out@[k]).0@ == tab[show@[k] as int].path && out@[k].1@
                    == meta_entry(tab[show@[k] as int], rv[k]),
        decreases show.len() - i,
    {
        let sid: Sid = show[i];
        assert(show@[i as int] < table@.len());
        let info: &SignalInfo = &table[sid];
        assert(tab[sid as int] == info@);
        assert(rv[i as int] == opt_view(raws@[i as int]));
        let raw: Json = match &raws[i] {
            Some(r) => Json::str(r.as_str()),
            None => Json::Null,
        };
        let o: Obj = Obj::new().push("raw", raw).push("width", Json::Int(info.width as i64)).push(
            "type",
            Json::str(info.type_str),
        );
        assert(o@ =~= meta_entry(info@, rv[i as int])->Object_0);
        out.push((info.path.clone(), o.build()));
        i += 1;
    }
    assert(member_views(out@) =~= meta_json(tab, show@, rv)->Object_0);
    object(out)
}

fn hit_object<T: Timescale>(
    table: &Vec<SignalInfo>,
    show: &Vec<Sid>,
    h: &Hit,
    verbose: bool,
    ts: &T,
) -> (j: Json)
    requires
        h.raws@.len() == show@.len(),
        forall|i: int| 0 <= i < show@.len() ==> (#[trigger] show@[i]) < table@.len(),
    ensures
        j@ == hit_json(signal_views(table@), show@, h@, verbose, ts),
{
    let ghost tab = signal_views(table@);
    let o: Obj = push_opt_time(Obj::new(), "begin", Some(h.begin), ts);
    let o: Obj = push_opt_time(o, "end", h.end, ts).push(
        "values",
        values_object(table, show, &h.raws),
    );
    let ghost base = (time_members("begin"@, Some(h@.begin), ts) + time_members(
        "end"@,
        h@.end,
        ts,
    )).push(("values"@, values_json(tab, show@, h@.raws)));
    assert(o@ =~= base);
    if verbose {
        let p: Obj = o.push("meta", meta_object(table, show, &h.raws));
        assert(p@ =~= base + seq![("meta"@, meta_json(tab, show@, h@.raws))]);
        p.build()
    } else {
        assert(base + Seq::<(Seq<char>, JsonView)>::empty() =~= base);
        o.build()
    }
}

/// What the rows are: ticks, spans with values, or plain spans.
pub open spec fn row_noun(d: SearchView) -> Seq<char> {
    if d.changed.len() > 0 {
        "event"@
    } else if d.show.len() > 0 {
        "segment"@
    } else {
        "interval"@
    }
}

fn noun_of(d: &SearchSetup) -> (s: &'static str)
    ensures
        s@ == row_noun(d@),
{
    if d.changed_sids.len() > 0 {
        "event"
    } else if d.show_sids.len() > 0 {
        "segment"
    } else {
        "interval"
    }
}

/// Why a search came back with nothing.
pub open spec fn never_held<T: Timescale>(d: SearchView, ts: &T) -> Seq<char> {
    "the condition "@ + d.text + " never held in "@ + ts.shown(d.t0) + ".."@ + ts.shown(d.t1)
}

fn no_match_reason<T: Timescale>(d: &SearchSetup, ts: &T) -> (m: String)
    ensures
        m@ == never_held(d@, ts),
{
    let mut m: String = "the condition ".to_owned();
    m.push_str(d.cond_text.as_str());
    m.push_str(" never held in ");
    m.push_str(ts.fmt_time(d.t0).as_str());
    m.push_str("..");
    m.push_str(ts.fmt_time(d.t1).as_str());
    m
}

pub open spec fn search_hints<T: Timescale>(d: SearchView, n: nat, limit: usize, ts: &T) -> Seq<
    Seq<char>,
> {
    let h = with_hint(
        Seq::empty(),
        trunc_hint_text(
            limit != 0 && n > limit,
            limit as nat,
            rows_counted(n, limit),
            false,
            "rows"@,
        ),
    );
    if n == 0 {
        h.push(never_held(d, ts))
    } else {
        h
    }
}

/// What `search` writes as JSON.
pub open spec fn search_json<T: Timescale>(
    w: WaveView,
    d: SearchView,
    verbose: bool,
    limit: usize,
    ts: &T,
) -> JsonView {
    let all = hits_of(w, d);
    let shown = first_rows(all, limit);
    let more = limit != 0 && all.len() > limit;
    JsonView::Object(
        (seq![
            ("mode"@, JsonView::Str(row_noun(d))),
            ("condition"@, JsonView::Str(d.label)),
            ("condition_resolved"@, JsonView::Str(d.text)),
            ("changed"@, texts_json(paths_at(w.table, d.changed))),
            ("show"@, texts_json(paths_at(w.table, d.show))),
            ("window"@, window_view(d.t0, Some(d.t1), ts)),
        ] + count_members(
            shown.len() as int,
            rows_counted(all.len(), limit) as int,
            !more,
            more,
        )).push(("hint"@, hint_json(search_hints(d, all.len(), limit, ts)))).push(
            (
                "rows"@,
                JsonView::Array(
                    shown.map_values(|h: HitView| hit_json(w.table, d.show, h, verbose, ts)),
                ),
            ),
        ),
    )
}

fn path_array(table: &Vec<SignalInfo>, sids: &Vec<Sid>) -> (j: Json)
    requires
        forall|i: int| 0 <= i < sids@.len() ==> (#[trigger] sids@[i]) < table@.len(),
    ensures
        j@ == texts_json(paths_at(signal_views(table@), sids@)),
{
    let ghost tab = signal_views(table@);
    let mut paths: Vec<String> = Vec::new();
    let mut i: usize = 0;
    while i < sids.len()
        invariant
            i <= sids.len(),
            tab == signal_views(table@),
            forall|k: int| 0 <= k < sids@.len() ==> (#[trigger] sids@[k]) < table@.len(),
            paths.len() == i,
            forall|k: int| 0 <= k < i ==> (#[trigger] paths@[k])@ == tab[sids@[k] as int].path,
        decreases sids.len() - i,
    {
        let sid: Sid = sids[i];
        assert(sids@[i as int] < table@.len());
        assert(tab[sid as int] == table@[sid as int]@);
        paths.push(table[sid].path.clone());
        i += 1;
    }
    assert(views(paths@) =~= paths_at(tab, sids@));
    text_array(&paths)
}

fn hit_array<T: Timescale>(
    table: &Vec<SignalInfo>,
    show: &Vec<Sid>,
    hits: &Vec<Hit>,
    verbose: bool,
    ts: &T,
) -> (v: Vec<Json>)
    requires
        hits_ok(hit_views(hits@), show@.len()),
        forall|i: int| 0 <= i < show@.len() ==> (#[trigger] show@[i]) < table@.len(),
    ensures
        json_views(v@) == hit_views(hits@).map_values(
            |h: HitView| hit_json(signal_views(table@), show@, h, verbose, ts),
        ),
{
    let ghost hv = hit_views(hits@);
    let ghost tab = signal_views(table@);
    let mut v: Vec<Json> = Vec::new();
    let mut i: usize = 0;
    while i < hits.len()
        invariant
            i <= hits.len(),
            hv == hit_views(hits@),
            tab == signal_views(table@),
            hits_ok(hv, show@.len()),
            forall|k: int| 0 <= k < show@.len() ==> (#[trigger] show@[k]) < table@.len(),
            v.len() == i,
            forall|k: int|
                0 <= k < i ==> (#[trigger] v@[k])@ == hit_json(tab, show@, hv[k], verbose, ts),
        decreases hits.len() - i,
    {
        assert(hv[i as int] == hits@[i as int]@);
        assert(hv[i as int].raws.len() == show@.len());
        v.push(hit_object(table, show, &hits[i], verbose, ts));
        i += 1;
    }
    assert(json_views(v@) =~= hv.map_values(|h: HitView| hit_json(tab, show@, h, verbose, ts)));
    v
}

/// Render the rows of a search as JSON.
pub fn search_to_json<B: WaveformBackend, T: Timescale>(
    wave: &mut Wave<B>,
    d: &SearchSetup,
    verbose: bool,
    limit: usize,
    ts: &T,
) -> (j: Json)
    requires
        old(wave).wf(),
        setup_ok(d@, old(wave).table().len()),
    ensures
        final(wave).wf(),
        final(wave).same_wave(old(wave)),
        j@ == search_json(old(wave).snap(), d@, verbose, limit, ts),
{
    let ghost w = old(wave).snap();
    let ghost dv = d@;
    let ghost all = hits_of(w, dv);
    let (hits, total, more) = collect_hits(wave, d, limit);
    let shown: usize = hits.len();
    assert(hit_views(hits@).len() == shown);
    let table: &Vec<SignalInfo> = wave.signals();
    let arr: Vec<Json> = hit_array(table, &d.show_sids, &hits, verbose, ts);
    let obj: Obj = Obj::new().push("mode", Json::str(noun_of(d))).push(
        "condition",
        Json::str(d.cond_label.as_str()),
    ).push("condition_resolved", Json::str(d.cond_text.as_str())).push(
        "changed",
        path_array(table, &d.changed_sids),
    ).push("show", path_array(table, &d.show_sids)).push(
        "window",
        window_json(d.t0, Some(d.t1), ts),
    );
    assert(obj@ =~= seq![
        ("mode"@, JsonView::Str(row_noun(dv))),
        ("condition"@, JsonView::Str(dv.label)),
        ("condition_resolved"@, JsonView::Str(dv.text)),
        ("changed"@, texts_json(paths_at(w.table, dv.changed))),
        ("show"@, texts_json(paths_at(w.table, dv.show))),
        ("window"@, window_view(dv.t0, Some(dv.t1), ts)),
    ]);
    let obj: Obj = push_counts(obj, shown, total, !more, more);
    let mut hints: Hints = Hints::new();
    hints.push_opt(trunc_hint(more, limit, total, false, "rows"));
    if shown == 0 {
        hints.push(no_match_reason(d, ts));
    }
    assert(hints@ == search_hints(dv, all.len(), limit, ts));
    hints.attach(obj).push("rows", array(arr)).build()
}

/// The `search` command with JSON output.
pub fn compute_search<B: WaveformBackend, T: Timescale>(
    wave: &mut Wave<B>,
    args: &Args,
    ts: &T,
) -> (r: Result<Json, String>)
    requires
        old(wave).wf(),
    ensures
        final(wave).wf(),
        final(wave).same_wave(old(wave)),
        match search_of(old(wave).snap(), args@, ts) {
            Err(e) => r is Err && r->Err_0@ == e,
            Ok(d) => r is Ok && r->Ok_0@ == search_json(
                old(wave).snap(),
                d,
                args.verbose,
                limit_view(args@) as usize,
                ts,
            ),
        },
{
    match search_setup(wave, args, ts) {
        Err(e) => Err(e),
        Ok(d) => Ok(search_to_json(wave, &d, args.verbose, limit_of(args), ts)),
    }
}

/// The values shown, as text.
pub open spec fn values_text(
    table: Seq<SignalView>,
    show: Seq<usize>,
    raws: Seq<Option<Seq<char>>>,
) -> Seq<char> {
    joined(
        Seq::new(
            show.len(),
            |i: int|
                table[show[i] as int].path + "="@ + shown_text(raws[i], table[show[i] as int]),
        ),
        " "@,
    )
}

fn values_line(table: &Vec<SignalInfo>, show: &Vec<Sid>, raws: &Vec<Option<String>>) -> (s: String)
    requires
        raws@.len() == show@.len(),
        forall|i: int| 0 <= i < show@.len() ==> (#[trigger] show@[i]) < table@.len(),
    ensures
        s@ == values_text(signal_views(table@), show@, state_views(raws@)),
{
    let ghost tab = signal_views(table@);
    let ghost rv = state_views(raws@);
    let mut out: Vec<String> = Vec::new();
    let mut i: usize = 0;
    while i < show.len()
        invariant
            i <= show.len() == raws.len(),
            tab == signal_views(table@),
            rv == state_views(raws@),
            forall|k: int| 0 <= k < show@.len() ==> (#[trigger] show@[k]) < table@.len(),
            out.len() == i,
            forall|k: int|
                0 <= k < i ==> (#[trigger] out@[k])@ == tab[show@[k] as int].path + "="@
                    + shown_text(rv[k], tab[show@[k] as int]),
        decreases show.len() - i,
    {
        let sid: Sid = show[i];
        assert(show@[i as int] < table@.len());
        let info: &SignalInfo = &table[sid];
        assert(tab[sid as int] == info@);
        assert(rv[i as int] == opt_view(raws@[i as int]));
        let mut m: String = info.path.clone();
        m.push_str("=");
        m.push_str(show_value(&raws[i], info).as_str());
        out.push(m);
        i += 1;
    }
    assert(views(out@) =~= Seq::new(
        show@.len(),
        |i: int| tab[show@[i] as int].path + "="@ + shown_text(rv[i], tab[show@[i] as int]),
    ));
    join(&out, " ")
}

/// One line on a row: the tick or the span, and then the values shown or, in
/// their absence, the condition.
pub open spec fn hit_line<T: Timescale>(
    table: Seq<SignalView>,
    d: SearchView,
    h: HitView,
    ts: &T,
) -> Seq<char> {
    let what = if d.show.len() > 0 {
        values_text(table, d.show, h.raws)
    } else {
        d.text
    };
    match h.end {
        None => "  T="@ + left_justified(ts.shown(h.begin), 12) + " "@ + what + "\n"@,
        Some(e) => "  "@ + left_justified(ts.shown(h.begin), 12) + ".."@ + left_justified(
            ts.shown(e),
            12,
        ) + " "@ + what + "\n"@,
    }
}

pub open spec fn hit_lines<T: Timescale>(
    table: Seq<SignalView>,
    d: SearchView,
    h: Seq<HitView>,
    n: int,
    ts: &T,
) -> Seq<char>
    decreases n,
{
    if n <= 0 {
        Seq::empty()
    } else {
        hit_lines(table, d, h, n - 1, ts) + hit_line(table, d, h[n - 1], ts)
    }
}

/// What `search` writes as text.
pub open spec fn search_text<T: Timescale>(w: WaveView, d: SearchView, limit: usize, ts: &T) -> Seq<
    char,
> {
    let all = hits_of(w, d);
    let shown = first_rows(all, limit);
    let more = limit != 0 && all.len() > limit;
    let total = rows_counted(all.len(), limit);
    if shown.len() > 0 {
        "Found: "@ + count_text(total, more) + " "@ + row_noun(d) + "(s)\n"@ + hit_lines(
            w.table,
            d,
            shown,
            shown.len() as int,
            ts,
        ) + opt_line(
            ""@,
            if more {
                Some(trunc_text(shown.len(), total, "+"@, row_noun(d) + "s"@))
            } else {
                None
            },
        )
    } else {
        "No "@ + row_noun(d) + " in "@ + ts.shown(d.t0) + ".."@ + ts.shown(d.t1) + " where "@ + d.text
            + ".\n"@
    }
}

fn hit_text<T: Timescale>(table: &Vec<SignalInfo>, d: &SearchSetup, h: &Hit, ts: &T) -> (m: String)
    requires
        h.raws@.len() == d.show_sids@.len(),
        setup_ok(d@, table@.len()),
    ensures
        m@ == hit_line(signal_views(table@), d@, h@, ts),
{
    assert forall|i: int| 0 <= i < d.show_sids@.len() implies (#[trigger] d.show_sids@[i])
        < table@.len() by {
        assert(d@.show[i] < table@.len());
    }
    let what: String = if d.show_sids.len() > 0 {
        values_line(table, &d.show_sids, &h.raws)
    } else {
        d.cond_text.clone()
    };
    match h.end {
        None => {
            let mut m: String = "  T=".to_owned();
            m.push_str(ljust(ts.fmt_time(h.begin).as_str(), 12).as_str());
            m.push_str(" ");
            m.push_str(what.as_str());
            m.push_str("\n");
            m
        },
        Some(e) => {
            let mut m: String = "  ".to_owned();
            m.push_str(ljust(ts.fmt_time(h.begin).as_str(), 12).as_str());
            m.push_str("..");
            m.push_str(ljust(ts.fmt_time(e).as_str(), 12).as_str());
            m.push_str(" ");
            m.push_str(what.as_str());
            m.push_str("\n");
            m
        },
    }
}

fn push_hits<T: Timescale>(
    out: &mut String,
    table: &Vec<SignalInfo>,
    d: &SearchSetup,
    hits: &Vec<Hit>,
    ts: &T,
)
    requires
        hits_ok(hit_views(hits@), d.show_sids@.len()),
        setup_ok(d@, table@.len()),
    ensures
        final(out)@ == old(out)@ + hit_lines(
            signal_views(table@),
            d@,
            hit_views(hits@),
            hits@.len() as int,
            ts,
        ),
{
    let ghost hv = hit_views(hits@);
    let ghost tab = signal_views(table@);
    let ghost dv = d@;
    let ghost o0 = out@;
    let mut i: usize = 0;
    assert(out@ =~= o0 + Seq::<char>::empty());
    while i < hits.len()
        invariant
            i <= hits.len(),
            hv == hit_views(hits@),
            tab == signal_views(table@),
            dv == d@,
            hits_ok(hv, d.show_sids@.len()),
            setup_ok(dv, table@.len()),
            out@ == o0 + hit_lines(tab, dv, hv, i as int, ts),
        decreases hits.len() - i,
    {
        assert(hv[i as int] == hits@[i as int]@);
        assert(hv[i as int].raws.len() == d.show_sids@.len());
        out.push_str(hit_text(table, d, &hits[i], ts).as_str());
        assert(out@ =~= o0 + hit_lines(tab, dv, hv, i + 1, ts));
        i += 1;
    }
}

fn nothing_found<T: Timescale>(d: &SearchSetup, ts: &T) -> (m: String)
    ensures
        m@ == "No "@ + row_noun(d@) + " in "@ + ts.shown(d@.t0) + ".."@ + ts.shown(d@.t1) + " where "@
            + d@.text + ".\n"@,
{
    let mut m: String = "No ".to_owned();
    m.push_str(noun_of(d));
    m.push_str(" in ");
    m.push_str(ts.fmt_time(d.t0).as_str());
    m.push_str("..");
    m.push_str(ts.fmt_time(d.t1).as_str());
    m.push_str(" where ");
    m.push_str(d.cond_text.as_str());
    m.push_str(".\n");
    m
}

/// Render the rows of a search as text.
pub fn search_to_text<B: WaveformBackend, T: Timescale>(
    wave: &mut Wave<B>,
    d: &SearchSetup,
    limit: usize,
    ts: &T,
) -> (s: String)
    requires
        old(wave).wf(),
        setup_ok(d@, old(wave).table().len()),
    ensures
        final(wave).wf(),
        final(wave).same_wave(old(wave)),
        s@ == search_text(old(wave).snap(), d@, limit, ts),
{
    let ghost w = old(wave).snap();
    let ghost dv = d@;
    let (hits, total, more) = collect_hits(wave, d, limit);
    let shown: usize = hits.len();
    assert(hit_views(hits@).len() == shown);
    if shown == 0 {
        return nothing_found(d, ts);
    }
    let mut out: String = "Found: ".to_owned();
    out.push_str(count_label(total, more).as_str());
    out.push_str(" ");
    out.push_str(noun_of(d));
    out.push_str("(s)\n");
    push_hits(&mut out, wave.signals(), d, &hits, ts);
    let mut noun: String = noun_of(d).to_owned();
    noun.push_str("s");
    let notice: Option<String> = if more {
        Some(trunc_line_lb(shown, total, noun.as_str()))
    } else {
        None
    };
    push_opt_line(&mut out, "", notice);
    out
}

/// The `search` command with text output.
pub fn text_search<B: WaveformBackend, T: Timescale>(
    wave: &mut Wave<B>,
    args: &Args,
    ts: &T,
) -> (r: Result<String, String>)
    requires
        old(wave).wf(),
    ensures
        final(wave).wf(),
        final(wave).same_wave(old(wave)),
        match search_of(old(wave).snap(), args@, ts) {
            Err(e) => r is Err && r->Err_0@ == e,
            Ok(d) => r is Ok && r->Ok_0@ == search_text(
                old(wave).snap(),
                d,
                limit_view(args@) as usize,
                ts,
            ),
        },
{
    match search_setup(wave, args, ts) {
        Err(e) => Err(e),
        Ok(d) => Ok(search_to_text(wave, &d, limit_of(args), ts)),
    }
}

} // verus!
