//! The `summary` command: which signals are active, which stay put, and which
//! have no value.

use vstd::prelude::*;

use crate::activity::{all_stats, collect_stats, stats_views, Stats, StatsView};
use crate::backend::WaveformBackend;
use crate::cli::{Args, ArgsView};
use crate::compare::{compact_of, compact_or_undef, text_of, text_or_undef};
use crate::dump::{
    compact_value, opt_line, push_opt_line, push_verbose, text_value, verbose_members,
};
use crate::json::{array, json_views, Json, JsonView, Obj};
use crate::model::{Sid, Wave, WaveView};
use crate::number::{dec, u64_text, usize_text};
use crate::replay::opt_tick;
use crate::report::{
    choice_of, chosen, clip_len, count_json, count_members, count_view, hint_json, limit_of,
    limit_view, push_counts, push_time, selected_sids, selection_of, shown_count, time_members,
    trunc_hint, trunc_hint_text, trunc_line, trunc_text, window_json, window_line, window_text,
    window_view, with_hint, Hints,
};
use crate::select::Selection;
use crate::signal::{signal_views, SignalInfo, SignalView};
use crate::text::{left_justified, ljust};
use crate::time::{parse_window, window_meaning, Timescale};

verus! {

/// What a signal does over a window.
#[derive(Debug, Clone, Copy, PartialEq, Eq, Structural)]
pub enum RowKind {
    Active,
    Static,
    Undefined,
}

pub open spec fn kind_of(s: StatsView) -> RowKind {
    if s.changes > 0 {
        RowKind::Active
    } else if s.initial is Some {
        RowKind::Static
    } else {
        RowKind::Undefined
    }
}

pub open spec fn kind_name(k: RowKind) -> Seq<char> {
    match k {
        RowKind::Active => "active"@,
        RowKind::Static => "static"@,
        RowKind::Undefined => "undefined"@,
    }
}

pub open spec fn kind_heading(k: RowKind) -> Seq<char> {
    match k {
        RowKind::Active => "ACTIVE"@,
        RowKind::Static => "STATIC"@,
        RowKind::Undefined => "UNDEFINED"@,
    }
}

impl RowKind {
    fn name(self) -> (s: &'static str)
        ensures
            s@ == kind_name(self),
    {
        match self {
            RowKind::Active => "active",
            RowKind::Static => "static",
            RowKind::Undefined => "undefined",
        }
    }

    fn heading(self) -> (s: &'static str)
        ensures
            s@ == kind_heading(self),
    {
        match self {
            RowKind::Active => "ACTIVE",
            RowKind::Static => "STATIC",
            RowKind::Undefined => "UNDEFINED",
        }
    }
}

fn row_kind(s: &Stats) -> (k: RowKind)
    ensures
        k == kind_of(s@),
{
    if s.changes > 0 {
        RowKind::Active
    } else if s.initial.is_some() {
        RowKind::Static
    } else {
        RowKind::Undefined
    }
}

/// The signals of one kind, in their order.
pub open spec fn of_kind(all: Seq<StatsView>, k: RowKind) -> Seq<StatsView>
    decreases all.len(),
{
    if all.len() == 0 {
        Seq::empty()
    } else {
        let rest = of_kind(all.drop_last(), k);
        if kind_of(all.last()) == k {
            rest.push(all.last())
        } else {
            rest
        }
    }
}

/// The rows: the active signals, then the static ones, and in a verbose
/// summary those without a value.
pub open spec fn summary_rows(all: Seq<StatsView>, verbose: bool) -> Seq<StatsView> {
    of_kind(all, RowKind::Active) + of_kind(all, RowKind::Static) + (if verbose {
        of_kind(all, RowKind::Undefined)
    } else {
        Seq::empty()
    })
}

/// Every signal is of just one kind.
pub proof fn kinds_partition_signals(all: Seq<StatsView>)
    ensures
        of_kind(all, RowKind::Active).len() + of_kind(all, RowKind::Static).len() + of_kind(
            all,
            RowKind::Undefined,
        ).len() == all.len(),
        summary_rows(all, true).len() == all.len(),
    decreases all.len(),
{
    if all.len() > 0 {
        kinds_partition_signals(all.drop_last());
    }
}

/// What `summary` found: every selected signal, and the rows as positions
/// among them.
pub struct SummaryData {
    pub stats: Vec<Stats>,
    pub rows: Vec<usize>,
    pub active: usize,
    pub static_: usize,
    pub undefined: usize,
    pub t0: i64,
    pub t1: Option<i64>,
}

pub struct SummaryView {
    pub rows: Seq<StatsView>,
    pub selected: nat,
    pub active: nat,
    pub static_: nat,
    pub undefined: nat,
    pub t0: int,
    pub t1: Option<int>,
}

/// The signals at the given positions.
pub open spec fn at_positions(all: Seq<StatsView>, p: Seq<usize>) -> Seq<StatsView> {
    p.map_values(|i: usize| all[i as int])
}

impl View for SummaryData {
    type V = SummaryView;

    open spec fn view(&self) -> SummaryView {
        SummaryView {
            rows: at_positions(stats_views(self.stats@), self.rows@),
            selected: self.stats@.len(),
            active: self.active as nat,
            static_: self.static_ as nat,
            undefined: self.undefined as nat,
            t0: self.t0 as int,
            t1: opt_tick(self.t1),
        }
    }
}

/// What `summary` finds.
pub open spec fn summary_of<T: Timescale>(w: WaveView, a: ArgsView, ts: &T) -> Result<
    SummaryView,
    Seq<char>,
> {
    match window_meaning(a.begin, a.end, ts) {
        Err(e) => Err(e),
        Ok((t0, t1)) => match choice_of(a) {
            Err(e) => Err(e),
            Ok(s) => {
                let all = all_stats(w, chosen(w.table, s), t0, t1);
                Ok(
                    SummaryView {
                        rows: summary_rows(all, a.verbose),
                        selected: all.len(),
                        active: of_kind(all, RowKind::Active).len(),
                        static_: of_kind(all, RowKind::Static).len(),
                        undefined: of_kind(all, RowKind::Undefined).len(),
                        t0,
                        t1,
                    },
                )
            },
        },
    }
}

/// Are the positions and the signals they lead to there?
pub open spec fn summary_ok(d: SummaryData, n: nat) -> bool {
    &&& forall|i: int| 0 <= i < d.rows@.len() ==> (#[trigger] d.rows@[i]) < d.stats@.len()
    &&& forall|i: int| 0 <= i < d.stats@.len() ==> (#[trigger] d.stats@[i]).sid < n
    &&& d.active + d.static_ + d.undefined == d.stats@.len()
}

/// Append the positions of the signals of one kind; how many there are.
fn push_kind(rows: &mut Vec<usize>, stats: &Vec<Stats>, kind: RowKind) -> (n: usize)
    requires
        forall|i: int| 0 <= i < old(rows)@.len() ==> (#[trigger] old(rows)@[i]) < stats@.len(),
    ensures
        forall|i: int| 0 <= i < final(rows)@.len() ==> (#[trigger] final(rows)@[i]) < stats@.len(),
        at_positions(stats_views(stats@), final(rows)@) == at_positions(
            stats_views(stats@),
            old(rows)@,
        ) + of_kind(stats_views(stats@), kind),
        n == of_kind(stats_views(stats@), kind).len(),
{
    let ghost all = stats_views(stats@);
    let ghost r0 = at_positions(all, rows@);
    let mut i: usize = 0;
    let mut n: usize = 0;
    assert(all.take(0) =~= Seq::empty());
    assert(r0 + of_kind(all.take(0), kind) =~= r0);
    while i < stats.len()
        invariant
            i <= stats.len(),
            n <= i,
            all == stats_views(stats@),
            forall|k: int| 0 <= k < rows@.len() ==> (#[trigger] rows@[k]) < stats@.len(),
            at_positions(all, rows@) == r0 + of_kind(all.take(i as int), kind),
            n == of_kind(all.take(i as int), kind).len(),
        decreases stats.len() - i,
    {
        proof {
            assert(all.take(i + 1).drop_last() =~= all.take(i as int));
            assert(all.take(i + 1).last() == stats@[i as int]@);
        }
        if row_kind(&stats[i]) == kind {
            let ghost p0 = at_positions(all, rows@);
            rows.push(i);
            n += 1;
            assert(at_positions(all, rows@) =~= p0.push(all[i as int]));
            assert(at_positions(all, rows@) =~= r0 + of_kind(all.take(i + 1), kind));
        }
        i += 1;
    }
    assert(all.take(i as int) =~= all);
    n
}

/// Collect what `summary` shows.
pub fn summary_data<B: WaveformBackend, T: Timescale>(
    wave: &mut Wave<B>,
    args: &Args,
    ts: &T,
) -> (r: Result<SummaryData, String>)
    requires
        old(wave).wf(),
    ensures
        final(wave).wf(),
        final(wave).same_wave(old(wave)),
        match r {
            Err(e) => summary_of(old(wave).snap(), args@, ts) == Err::<SummaryView, Seq<char>>(e@),
            Ok(d) => summary_of(old(wave).snap(), args@, ts) == Ok::<SummaryView, Seq<char>>(d@)
                && summary_ok(d, old(wave).table().len()),
        },
{
    let (t0, t1) = match parse_window(&args.begin, &args.end, ts) {
        Ok(w) => w,
        Err(e) => {
            return Err(e);
        },
    };
    let selection: Selection = match selection_of(args) {
        Ok(s) => s,
        Err(e) => {
            return Err(e);
        },
    };
    proof {
        wave.table_is_ok();
    }
    let ghost w = old(wave).snap();
    let selected: Vec<Sid> = selected_sids(wave.signals(), &selection);
    let stats: Vec<Stats> = collect_stats(wave, &selected, t0, t1);
    let ghost all = stats_views(stats@);
    proof {
        assert(all.len() == stats@.len());
        assert forall|i: int| 0 <= i < stats@.len() implies (#[trigger] stats@[i]).sid
            < w.table.len() by {
            assert(all[i] == stats@[i]@);
            assert(all[i].sid == selected@[i]);
        }
        kinds_partition_signals(all);
    }
    let mut rows: Vec<usize> = Vec::new();
    assert(at_positions(all, rows@) =~= Seq::empty());
    let active: usize = push_kind(&mut rows, &stats, RowKind::Active);
    let static_: usize = push_kind(&mut rows, &stats, RowKind::Static);
    let mut extra: Vec<usize> = Vec::new();
    assert(at_positions(all, extra@) =~= Seq::empty());
    let undefined: usize = push_kind(&mut extra, &stats, RowKind::Undefined);
    if args.verbose {
        let _again: usize = push_kind(&mut rows, &stats, RowKind::Undefined);
    }
    assert(at_positions(all, rows@) =~= summary_rows(all, args.verbose));
    Ok(SummaryData { stats, rows, active, static_, undefined, t0, t1 })
}

pub open spec fn edge_json(s: SignalView, n: nat) -> JsonView {
    if s.width == 1 {
        count_view(n as int)
    } else {
        JsonView::Null
    }
}

fn edge_count(info: &SignalInfo, n: usize) -> (j: Json)
    ensures
        j@ == edge_json(info@, n as nat),
{
    if info.width == 1 {
        count_json(n)
    } else {
        Json::Null
    }
}

/// The value that a static signal keeps.
pub open spec fn kept_json(s: SignalView, r: StatsView) -> JsonView {
    match r.last {
        Some(v) => if kind_of(r) == RowKind::Static {
            JsonView::Str(compact_value(v, s))
        } else {
            JsonView::Null
        },
        None => JsonView::Null,
    }
}

fn kept_value(info: &SignalInfo, r: &Stats) -> (j: Json)
    ensures
        j@ == kept_json(info@, r@),
{
    match &r.last {
        Some(v) => if row_kind(r) == RowKind::Static {
            Json::str(v.fmt_value_compact(info.kind, info.width).as_str())
        } else {
            Json::Null
        },
        None => Json::Null,
    }
}

/// The times of the first and of the last change, if there was one.
pub open spec fn change_times<T: Timescale>(r: StatsView, ts: &T) -> Seq<(Seq<char>, JsonView)> {
    if r.first_at is Some && r.last_at is Some {
        time_members("first_at"@, r.first_at, ts) + time_members("last_at"@, r.last_at, ts)
    } else {
        Seq::empty()
    }
}

pub open spec fn unique_member(n: nat) -> Seq<(Seq<char>, JsonView)> {
    if n > 0 {
        seq![("unique"@, count_view(n as int))]
    } else {
        Seq::empty()
    }
}

pub open spec fn row_json<T: Timescale>(s: SignalView, r: StatsView, verbose: bool, ts: &T) -> JsonView {
    JsonView::Object(
        (seq![
            ("kind"@, JsonView::Str(kind_name(kind_of(r)))),
            ("path"@, JsonView::Str(s.path)),
            ("value"@, kept_json(s, r)),
            ("changes"@, count_view(r.changes as int)),
            ("rise_count"@, edge_json(s, r.rises)),
            ("fall_count"@, edge_json(s, r.falls)),
            ("init"@, JsonView::Str(compact_or_undef(r.initial, s))),
            ("last"@, JsonView::Str(compact_or_undef(r.last, s))),
        ] + change_times(r, ts) + unique_member(r.unique)).push(
            ("has_unknown"@, JsonView::Bool(r.unknown)),
        ) + verbose_members(verbose, s),
    )
}

fn push_change_times<T: Timescale>(o: Obj, r: &Stats, ts: &T) -> (p: Obj)
    ensures
        p@ == o@ + change_times(r@, ts),
{
    match r.first_at {
        Some(fa) => match r.last_at {
            Some(la) => {
                let q: Obj = push_time(o, "first_at", fa, ts);
                let p: Obj = push_time(q, "last_at", la, ts);
                assert(p@ =~= o@ + change_times(r@, ts));
                p
            },
            None => {
                assert(o@ + change_times(r@, ts) =~= o@);
                o
            },
        },
        None => {
            assert(o@ + change_times(r@, ts) =~= o@);
            o
        },
    }
}

fn summary_row_json<T: Timescale>(info: &SignalInfo, r: &Stats, verbose: bool, ts: &T) -> (j: Json)
    ensures
        j@ == row_json(info@, r@, verbose, ts),
{
    let ghost s = info@;
    let ghost rv = r@;
    let o: Obj = Obj::new().push("kind", Json::str(row_kind(r).name())).push(
        "path",
        Json::str(info.path.as_str()),
    ).push("value", kept_value(info, r)).push("changes", count_json(r.changes)).push(
        "rise_count",
        edge_count(info, r.rises),
    ).push("fall_count", edge_count(info, r.falls)).push(
        "init",
        Json::str(compact_of(&r.initial, info).as_str()),
    ).push("last", Json::str(compact_of(&r.last, info).as_str()));
    assert(o@ =~= seq![
        ("kind"@, JsonView::Str(kind_name(kind_of(rv)))),
        ("path"@, JsonView::Str(s.path)),
        ("value"@, kept_json(s, rv)),
        ("changes"@, count_view(rv.changes as int)),
        ("rise_count"@, edge_json(s, rv.rises)),
        ("fall_count"@, edge_json(s, rv.falls)),
        ("init"@, JsonView::Str(compact_or_undef(rv.initial, s))),
        ("last"@, JsonView::Str(compact_or_undef(rv.last, s))),
    ]);
    let mut o: Obj = push_change_times(o, r, ts);
    let ghost o1 = o@;
    if r.unique > 0 {
        o = o.push("unique", count_json(r.unique));
    }
    assert(o@ =~= o1 + unique_member(rv.unique));
    push_verbose(o.push("has_unknown", Json::Bool(r.unknown)), verbose, info).build()
}

/// What a summary has to say of its rows: that there are more.
pub open spec fn summary_hints(d: SummaryView, limit: int) -> Seq<Seq<char>> {
    let total = d.rows.len();
    let shown = shown_count(total as int, limit);
    with_hint(
        Seq::empty(),
        trunc_hint_text(shown < total, shown as nat, total, true, "rows"@),
    )
}

/// What `summary` writes as JSON.
pub open spec fn summary_json<T: Timescale>(
    table: Seq<SignalView>,
    d: SummaryView,
    verbose: bool,
    limit: int,
    ts: &T,
) -> JsonView {
    let total = d.rows.len();
    let shown = shown_count(total as int, limit);
    JsonView::Object(
        (seq![
            ("window"@, window_view(d.t0, d.t1, ts)),
            ("selected"@, count_view(d.selected as int)),
            ("defined"@, count_view((d.active + d.static_) as int)),
            ("undefined"@, count_view(d.undefined as int)),
            ("active"@, count_view(d.active as int)),
            ("static"@, count_view(d.static_ as int)),
        ] + count_members(shown, total as int, true, shown < total)).push(
            ("hint"@, hint_json(summary_hints(d, limit))),
        ).push(
            (
                "rows"@,
                JsonView::Array(
                    d.rows.take(shown).map_values(
                        |r: StatsView| row_json(table[r.sid as int], r, verbose, ts),
                    ),
                ),
            ),
        ),
    )
}

fn row_array<T: Timescale>(
    table: &Vec<SignalInfo>,
    d: &SummaryData,
    shown: usize,
    verbose: bool,
    ts: &T,
) -> (v: Vec<Json>)
    requires
        shown <= d.rows.len(),
        summary_ok(*d, table@.len()),
    ensures
        json_views(v@) == d@.rows.take(shown as int).map_values(
            |r: StatsView| row_json(signal_views(table@)[r.sid as int], r, verbose, ts),
        ),
{
    let ghost rows = d@.rows;
    let ghost tab = signal_views(table@);
    let mut v: Vec<Json> = Vec::new();
    let mut i: usize = 0;
    while i < shown
        invariant
            i <= shown <= d.rows.len(),
            rows == d@.rows,
            tab == signal_views(table@),
            summary_ok(*d, table@.len()),
            v.len() == i,
            forall|k: int|
                0 <= k < i ==> (#[trigger] v@[k])@ == row_json(
                    tab[rows[k].sid as int],
                    rows[k],
                    verbose,
                    ts,
                ),
        decreases shown - i,
    {
        let p: usize = d.rows[i];
        let r: &Stats = &d.stats[p];
        assert(rows[i as int] == r@);
        let info: &SignalInfo = &table[r.sid];
        assert(tab[r.sid as int] == info@);
        v.push(summary_row_json(info, r, verbose, ts));
        i += 1;
    }
    assert(json_views(v@) =~= rows.take(shown as int).map_values(
        |r: StatsView| row_json(tab[r.sid as int], r, verbose, ts),
    ));
    v
}

/// Render what `summary` found as JSON.
pub fn summary_to_json<T: Timescale>(
    table: &Vec<SignalInfo>,
    d: &SummaryData,
    verbose: bool,
    limit: usize,
    ts: &T,
) -> (j: Json)
    requires
        summary_ok(*d, table@.len()),
    ensures
        j@ == summary_json(signal_views(table@), d@, verbose, limit as int, ts),
{
    let ghost dv = d@;
    let total: usize = d.rows.len();
    assert(dv.rows.len() == total);
    let (shown, trunc) = clip_len(total, limit);
    let selected: usize = d.stats.len();
    let arr: Vec<Json> = row_array(table, d, shown, verbose, ts);
    let obj: Obj = Obj::new().push("window", window_json(d.t0, d.t1, ts)).push(
        "selected",
        count_json(selected),
    ).push("defined", count_json(d.active + d.static_)).push("undefined", count_json(d.undefined)).push("active", count_json(d.active)).push("static", count_json(d.static_));
    assert(obj@ =~= seq![
        ("window"@, window_view(dv.t0, dv.t1, ts)),
        ("selected"@, count_view(dv.selected as int)),
        ("defined"@, count_view((dv.active + dv.static_) as int)),
        ("undefined"@, count_view(dv.undefined as int)),
        ("active"@, count_view(dv.active as int)),
        ("static"@, count_view(dv.static_ as int)),
    ]);
    let obj: Obj = push_counts(obj, shown, total, true, trunc);
    let mut hints: Hints = Hints::new();
    hints.push_opt(trunc_hint(trunc, shown, total, true, "rows"));
    assert(hints@ == summary_hints(dv, limit as int));
    hints.attach(obj).push("rows", array(arr)).build()
}

/// The `summary` command with JSON output.
pub fn compute_summary<B: WaveformBackend, T: Timescale>(
    wave: &mut Wave<B>,
    args: &Args,
    ts: &T,
) -> (r: Result<Json, String>)
    requires
        old(wave).wf(),
    ensures
        final(wave).wf(),
        final(wave).same_wave(old(wave)),
        match summary_of(old(wave).snap(), args@, ts) {
            Err(e) => r is Err && r->Err_0@ == e,
            Ok(d) => r is Ok && r->Ok_0@ == summary_json(
                old(wave).table(),
                d,
                args.verbose,
                limit_view(args@),
                ts,
            ),
        },
{
    match summary_data(wave, args, ts) {
        Err(e) => Err(e),
        Ok(d) => Ok(summary_to_json(wave.signals(), &d, args.verbose, limit_of(args), ts)),
    }
}

pub open spec fn shown_or_dash<T: Timescale>(t: Option<int>, ts: &T) -> Seq<char> {
    match t {
        Some(v) => ts.shown(v),
        None => "-"@,
    }
}

fn dash_text<T: Timescale>(t: Option<i64>, ts: &T) -> (s: String)
    ensures
        s@ == shown_or_dash(opt_tick(t), ts),
{
    match t {
        Some(v) => ts.fmt_time(v),
        None => "-".to_owned(),
    }
}

pub open spec fn edge_text(s: SignalView, r: StatsView) -> Seq<char> {
    if s.width == 1 {
        " r="@ + dec(r.rises) + " f="@ + dec(r.falls)
    } else {
        ""@
    }
}

pub open spec fn unknown_note(r: StatsView) -> Seq<char> {
    if r.unknown {
        " has-unknown"@
    } else {
        ""@
    }
}

/// A row's path and, in a verbose summary, its width and type.
pub open spec fn row_head(s: SignalView, described: bool) -> Seq<char> {
    "  "@ + left_justified(s.path, 45) + (if described {
        " w="@ + dec(s.width as nat) + " "@ + s.type_str
    } else {
        ""@
    })
}

pub open spec fn active_part<T: Timescale>(s: SignalView, r: StatsView, verbose: bool, ts: &T) -> Seq<
    char,
> {
    " chg="@ + dec(r.changes) + edge_text(s, r) + " init="@ + text_or_undef(r.initial, s) + " last="@
        + text_or_undef(r.last, s) + (if verbose {
        " first@"@ + shown_or_dash(r.first_at, ts) + " last@"@ + shown_or_dash(r.last_at, ts)
            + " uniq="@ + dec(r.unique)
    } else {
        ""@
    })
}

pub open spec fn static_part(s: SignalView, r: StatsView) -> Seq<char> {
    " value="@ + match r.last {
        Some(v) => text_value(v, s),
        None => ""@,
    }
}

pub open spec fn row_line<T: Timescale>(s: SignalView, r: StatsView, verbose: bool, ts: &T) -> Seq<char> {
    match kind_of(r) {
        RowKind::Active => row_head(s, verbose) + active_part(s, r, verbose, ts) + unknown_note(r)
            + "\n"@,
        RowKind::Static => row_head(s, verbose) + static_part(s, r) + unknown_note(r) + "\n"@,
        RowKind::Undefined => row_head(s, true) + "\n"@,
    }
}

fn head_text(info: &SignalInfo, described: bool) -> (m: String)
    ensures
        m@ == row_head(info@, described),
{
    let mut m: String = "  ".to_owned();
    m.push_str(ljust(info.path.as_str(), 45).as_str());
    let mut more: String = "".to_owned();
    if described {
        more = " w=".to_owned();
        more.push_str(u64_text(info.width as u64).as_str());
        more.push_str(" ");
        more.push_str(info.type_str);
    }
    m.push_str(more.as_str());
    m
}

fn active_text<T: Timescale>(info: &SignalInfo, r: &Stats, verbose: bool, ts: &T) -> (m: String)
    ensures
        m@ == active_part(info@, r@, verbose, ts),
{
    let mut edges: String = "".to_owned();
    if info.width == 1 {
        edges = " r=".to_owned();
        edges.push_str(usize_text(r.rises).as_str());
        edges.push_str(" f=");
        edges.push_str(usize_text(r.falls).as_str());
    }
    let mut more: String = "".to_owned();
    if verbose {
        more = " first@".to_owned();
        more.push_str(dash_text(r.first_at, ts).as_str());
        more.push_str(" last@");
        more.push_str(dash_text(r.last_at, ts).as_str());
        more.push_str(" uniq=");
        more.push_str(usize_text(r.unique).as_str());
    }
    let mut m: String = " chg=".to_owned();
    m.push_str(usize_text(r.changes).as_str());
    m.push_str(edges.as_str());
    m.push_str(" init=");
    m.push_str(text_of(&r.initial, info).as_str());
    m.push_str(" last=");
    m.push_str(text_of(&r.last, info).as_str());
    m.push_str(more.as_str());
    m
}

fn static_text(info: &SignalInfo, r: &Stats) -> (m: String)
    ensures
        m@ == static_part(info@, r@),
{
    let mut m: String = " value=".to_owned();
    match &r.last {
        Some(v) => m.push_str(v.fmt_value(info.kind, info.width).as_str()),
        None => m.push_str(""),
    }
    m
}

fn row_text<T: Timescale>(info: &SignalInfo, r: &Stats, verbose: bool, ts: &T) -> (m: String)
    ensures
        m@ == row_line(info@, r@, verbose, ts),
{
    let note: &str = if r.unknown {
        " has-unknown"
    } else {
        ""
    };
    match row_kind(r) {
        RowKind::Active => {
            let mut m: String = head_text(info, verbose);
            m.push_str(active_text(info, r, verbose, ts).as_str());
            m.push_str(note);
            m.push_str("\n");
            m
        },
        RowKind::Static => {
            let mut m: String = head_text(info, verbose);
            m.push_str(static_text(info, r).as_str());
            m.push_str(note);
            m.push_str("\n");
            m
        },
        RowKind::Undefined => {
            let mut m: String = head_text(info, true);
            m.push_str("\n");
            m
        },
    }
}

/// The heading that goes before a row of another kind than the row above.
pub open spec fn group_heading(rows: Seq<StatsView>, i: int) -> Seq<char> {
    if i == 0 || kind_of(rows[i - 1]) != kind_of(rows[i]) {
        "\n"@ + kind_heading(kind_of(rows[i])) + "\n"@
    } else {
        ""@
    }
}

pub open spec fn row_lines<T: Timescale>(
    table: Seq<SignalView>,
    rows: Seq<StatsView>,
    n: int,
    verbose: bool,
    ts: &T,
) -> Seq<char>
    decreases n,
{
    if n <= 0 {
        Seq::empty()
    } else {
        row_lines(table, rows, n - 1, verbose, ts) + (group_heading(rows, n - 1) + row_line(
            table[rows[n - 1].sid as int],
            rows[n - 1],
            verbose,
            ts,
        ))
    }
}

pub open spec fn tally_text(d: SummaryView) -> Seq<char> {
    "Selected: "@ + dec(d.selected) + ", Defined: "@ + dec(d.active + d.static_) + ", Undefined: "@
        + dec(d.undefined) + "\n"@ + ("Active: "@ + dec(d.active) + ", Static: "@ + dec(d.static_)
        + "\n"@)
}

/// What `summary` writes as text.
pub open spec fn summary_text<T: Timescale>(
    table: Seq<SignalView>,
    d: SummaryView,
    verbose: bool,
    limit: int,
    ts: &T,
) -> Seq<char> {
    let total = d.rows.len();
    let shown = shown_count(total as int, limit);
    window_text(d.t0, d.t1, ts) + "\n"@ + tally_text(d) + row_lines(
        table,
        d.rows,
        shown,
        verbose,
        ts,
    ) + (if d.selected == 0 {
        "(no selected signals)\n"@
    } else {
        ""@
    }) + opt_line(
        ""@,
        if shown < total {
            Some(trunc_text(shown as nat, total, ""@, "rows"@))
        } else {
            None
        },
    )
}

fn tallies(d: &SummaryData) -> (m: String)
    requires
        d.active + d.static_ <= d.stats@.len(),
    ensures
        m@ == tally_text(d@),
{
    let mut m: String = "Selected: ".to_owned();
    m.push_str(usize_text(d.stats.len()).as_str());
    m.push_str(", Defined: ");
    m.push_str(usize_text(d.active + d.static_).as_str());
    m.push_str(", Undefined: ");
    m.push_str(usize_text(d.undefined).as_str());
    m.push_str("\n");
    let mut b: String = "Active: ".to_owned();
    b.push_str(usize_text(d.active).as_str());
    b.push_str(", Static: ");
    b.push_str(usize_text(d.static_).as_str());
    b.push_str("\n");
    m.push_str(b.as_str());
    m
}

fn push_rows<T: Timescale>(
    out: &mut String,
    table: &Vec<SignalInfo>,
    d: &SummaryData,
    shown: usize,
    verbose: bool,
    ts: &T,
)
    requires
        shown <= d.rows.len(),
        summary_ok(*d, table@.len()),
    ensures
        final(out)@ == old(out)@ + row_lines(
            signal_views(table@),
            d@.rows,
            shown as int,
            verbose,
            ts,
        ),
{
    let ghost rows = d@.rows;
    let ghost tab = signal_views(table@);
    let ghost o0 = out@;
    let mut i: usize = 0;
    assert(out@ =~= o0 + Seq::<char>::empty());
    while i < shown
        invariant
            i <= shown <= d.rows.len(),
            rows == d@.rows,
            tab == signal_views(table@),
            summary_ok(*d, table@.len()),
            out@ == o0 + row_lines(tab, rows, i as int, verbose, ts),
        decreases shown - i,
    {
        let p: usize = d.rows[i];
        let r: &Stats = &d.stats[p];
        assert(rows[i as int] == r@);
        let info: &SignalInfo = &table[r.sid];
        assert(tab[r.sid as int] == info@);
        let mut m: String = "".to_owned();
        let mut fresh: bool = true;
        if i > 0 {
            let q: usize = d.rows[i - 1];
            assert(rows[i - 1] == d.stats@[q as int]@);
            fresh = row_kind(&d.stats[q]) != row_kind(r);
        }
        if fresh {
            m = "\n".to_owned();
            m.push_str(row_kind(r).heading());
            m.push_str("\n");
        }
        assert(m@ == group_heading(rows, i as int));
        m.push_str(row_text(info, r, verbose, ts).as_str());
        out.push_str(m.as_str());
        assert(out@ =~= o0 + row_lines(tab, rows, i + 1, verbose, ts));
        i += 1;
    }
}

/// Render what `summary` found as text.
pub fn summary_to_text<T: Timescale>(
    table: &Vec<SignalInfo>,
    d: &SummaryData,
    verbose: bool,
    limit: usize,
    ts: &T,
) -> (s: String)
    requires
        summary_ok(*d, table@.len()),
    ensures
        s@ == summary_text(signal_views(table@), d@, verbose, limit as int, ts),
{
    let ghost dv = d@;
    let total: usize = d.rows.len();
    assert(dv.rows.len() == total);
    let (shown, trunc) = clip_len(total, limit);
    let mut out: String = window_line(d.t0, d.t1, ts);
    out.push_str("\n");
    out.push_str(tallies(d).as_str());
    push_rows(&mut out, table, d, shown, verbose, ts);
    if d.stats.len() == 0 {
        out.push_str("(no selected signals)\n");
    } else {
        out.push_str("");
    }
    let notice: Option<String> = if trunc {
        Some(trunc_line(shown, total, "rows"))
    } else {
        None
    };
    push_opt_line(&mut out, "", notice);
    out
}

/// The `summary` command with text output.
pub fn text_summary<B: WaveformBackend, T: Timescale>(
    wave: &mut Wave<B>,
    args: &Args,
    ts: &T,
) -> (r: Result<String, String>)
    requires
        old(wave).wf(),
    ensures
        final(wave).wf(),
        final(wave).same_wave(old(wave)),
        match summary_of(old(wave).snap(), args@, ts) {
            Err(e) => r is Err && r->Err_0@ == e,
            Ok(d) => r is Ok && r->Ok_0@ == summary_text(
                old(wave).table(),
                d,
                args.verbose,
                limit_view(args@),
                ts,
            ),
        },
{
    match summary_data(wave, args, ts) {
        Err(e) => Err(e),
        Ok(d) => Ok(summary_to_text(wave.signals(), &d, args.verbose, limit_of(args), ts)),
    }
}

} // verus!
