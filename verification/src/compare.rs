//! The `compare` command: what differs between two instants.

use vstd::prelude::*;

use crate::backend::WaveformBackend;
use crate::cli::{Args, ArgsView};
use crate::dump::{
    compact_value, opt_line, push_opt_line, push_verbose, text_value, verbose_members,
};
use crate::history::{raw_text, value_at, RawValue, RawView};
use crate::instants::{opt_raw, opt_raws, values_of, values_twice};
use crate::json::{array, json_views, Json, JsonView, Obj};
use crate::model::{in_table, Sid, Wave, WaveView};
use crate::number::{dec, usize_text};
use crate::report::{
    alias_note_text, choice_of, chosen, clip_len, count_json, count_members, count_view,
    header_text, hint_json, limit_of, limit_view, match_report, push_counts, push_time,
    report_json, report_of, selected_sids, selection_of, shown_count, time_members, trunc_hint,
    trunc_hint_text, trunc_line, trunc_text, with_hint, Hints, MatchReport, ReportView, NO_SIGNALS,
    SELECTION_EMPTY,
};
use crate::select::Selection;
use crate::signal::{signal_views, SignalInfo, SignalView};
use crate::text::{left_justified, ljust, pieces, same, split, trim, trimmed, views};
use crate::time::{parse_time, time_of, Timescale};

verus! {

/// A signal that differs, with its values.
pub struct Diff {
    pub sid: Sid,
    pub at_t1: Option<RawValue>,
    pub at_t2: Option<RawValue>,
}

pub struct DiffView {
    pub sid: usize,
    pub a: Option<RawView>,
    pub b: Option<RawView>,
}

impl View for Diff {
    type V = DiffView;

    open spec fn view(&self) -> DiffView {
        DiffView { sid: self.sid, a: opt_raw(self.at_t1), b: opt_raw(self.at_t2) }
    }
}

pub open spec fn diff_views(v: Seq<Diff>) -> Seq<DiffView> {
    v.map_values(|d: Diff| d@)
}

/// What `compare` found.
pub struct CompareData {
    pub diffs: Vec<Diff>,
    pub ta: i64,
    pub tb: i64,
    /// The signals that have a value at either instant.
    pub union_len: usize,
    pub selected_len: usize,
    pub matched: MatchReport,
}

pub struct CompareView {
    pub diffs: Seq<DiffView>,
    pub ta: int,
    pub tb: int,
    pub union_len: nat,
    pub selected: nat,
    pub matched: ReportView,
}

impl View for CompareData {
    type V = CompareView;

    open spec fn view(&self) -> CompareView {
        CompareView {
            diffs: diff_views(self.diffs@),
            ta: self.ta as int,
            tb: self.tb as int,
            union_len: self.union_len as nat,
            selected: self.selected_len as nat,
            matched: self.matched@,
        }
    }
}

/// Do two values differ? Their recorded texts do, or only one is there.
pub open spec fn values_differ(a: Option<RawView>, b: Option<RawView>) -> bool {
    match (a, b) {
        (Some(x), Some(y)) => raw_text(x) != raw_text(y),
        (None, None) => false,
        _ => true,
    }
}

/// The signals whose values differ.
pub open spec fn diffs_of(w: WaveView, sids: Seq<usize>, ta: int, tb: int) -> Seq<DiffView>
    decreases sids.len(),
{
    if sids.len() == 0 {
        Seq::empty()
    } else {
        let rest = diffs_of(w, sids.drop_last(), ta, tb);
        let s = sids.last();
        let a = value_at(w.traces[s as int], ta);
        let b = value_at(w.traces[s as int], tb);
        if values_differ(a, b) {
            rest.push(DiffView { sid: s, a, b })
        } else {
            rest
        }
    }
}

/// The number of signals that have a value at either instant.
pub open spec fn defined_count(w: WaveView, sids: Seq<usize>, ta: int, tb: int) -> nat
    decreases sids.len(),
{
    if sids.len() == 0 {
        0
    } else {
        let s = sids.last();
        defined_count(w, sids.drop_last(), ta, tb) + (if value_at(w.traces[s as int], ta) is Some
            || value_at(w.traces[s as int], tb) is Some {
            1nat
        } else {
            0nat
        })
    }
}

/// What `compare` finds.
pub open spec fn compare_of<T: Timescale>(w: WaveView, a: ArgsView, ts: &T) -> Result<
    CompareView,
    Seq<char>,
> {
    match choice_of(a) {
        Err(e) => Err(e),
        Ok(s) => match a.at {
            None => Err("the following arguments are required: --at"@),
            Some(at) => {
                let parts = pieces(at, ',');
                if parts.len() != 2 {
                    Err("--at needs two times separated by comma, e.g. --at 17.5us,17.7us"@)
                } else {
                    match time_of(trimmed(parts[0]), ts) {
                        Err(e) => Err(e),
                        Ok(ta) => match time_of(trimmed(parts[1]), ts) {
                            Err(e) => Err(e),
                            Ok(tb) => if tb < ta {
                                Err("second compare time must be >= first compare time"@)
                            } else {
                                let sids = chosen(w.table, s);
                                Ok(
                                    CompareView {
                                        diffs: diffs_of(w, sids, ta, tb),
                                        ta,
                                        tb,
                                        union_len: defined_count(w, sids, ta, tb),
                                        selected: sids.len(),
                                        matched: report_of(w.table, s),
                                    },
                                )
                            },
                        },
                    }
                }
            },
        },
    }
}

/// Only signals that have a value can differ, and nothing differs from itself.
pub proof fn diffs_are_defined(w: WaveView, sids: Seq<usize>, ta: int, tb: int)
    ensures
        diffs_of(w, sids, ta, tb).len() <= defined_count(w, sids, ta, tb) <= sids.len(),
        ta == tb ==> diffs_of(w, sids, ta, tb).len() == 0,
    decreases sids.len(),
{
    if sids.len() > 0 {
        diffs_are_defined(w, sids.drop_last(), ta, tb);
    }
}

pub open spec fn diffs_in(d: Seq<DiffView>, n: nat) -> bool {
    forall|i: int| 0 <= i < d.len() ==> (#[trigger] d[i]).sid < n
}

fn differ(a: &Option<RawValue>, b: &Option<RawValue>) -> (r: bool)
    ensures
        r == values_differ(opt_raw(*a), opt_raw(*b)),
{
    match (a, b) {
        (Some(x), Some(y)) => !same(x.raw_str().as_str(), y.raw_str().as_str()),
        (None, None) => false,
        _ => true,
    }
}

fn clone_value(v: &Option<RawValue>) -> (r: Option<RawValue>)
    ensures
        opt_raw(r) == opt_raw(*v),
{
    match v {
        Some(x) => Some(x.clone()),
        None => None,
    }
}

fn find_diffs(
    sids: &Vec<Sid>,
    va: &Vec<Option<RawValue>>,
    vb: &Vec<Option<RawValue>>,
    Ghost(w): Ghost<WaveView>,
    Ghost(ta): Ghost<int>,
    Ghost(tb): Ghost<int>,
) -> (r: (Vec<Diff>, usize))
    requires
        va.len() == sids.len(),
        vb.len() == sids.len(),
        opt_raws(va@) == values_of(w, sids@, ta),
        opt_raws(vb@) == values_of(w, sids@, tb),
        in_table(sids@, w.table.len()),
    ensures
        diff_views(r.0@) == diffs_of(w, sids@, ta, tb),
        r.1 == defined_count(w, sids@, ta, tb),
        diffs_in(diff_views(r.0@), w.table.len()),
{
    let mut diffs: Vec<Diff> = Vec::new();
    let mut n: usize = 0;
    let mut i: usize = 0;
    assert(sids@.take(0) =~= Seq::empty());
    assert(diff_views(diffs@) =~= Seq::empty());
    while i < sids.len()
        invariant
            i <= sids.len() == va.len(),
            va.len() == vb.len(),
            n <= i,
            opt_raws(va@) == values_of(w, sids@, ta),
            opt_raws(vb@) == values_of(w, sids@, tb),
            in_table(sids@, w.table.len()),
            diff_views(diffs@) == diffs_of(w, sids@.take(i as int), ta, tb),
            n == defined_count(w, sids@.take(i as int), ta, tb),
            diffs_in(diff_views(diffs@), w.table.len()),
        decreases sids.len() - i,
    {
        let sid: Sid = sids[i];
        proof {
            assert(sids@.take(i + 1).drop_last() =~= sids@.take(i as int));
            assert(sids@.take(i + 1).last() == sid);
            assert(opt_raws(va@)[i as int] == values_of(w, sids@, ta)[i as int]);
            assert(opt_raws(vb@)[i as int] == values_of(w, sids@, tb)[i as int]);
            assert(sids@[i as int] < w.table.len());
        }
        if va[i].is_some() || vb[i].is_some() {
            n += 1;
        }
        if differ(&va[i], &vb[i]) {
            let ghost d0 = diff_views(diffs@);
            let d = Diff { sid, at_t1: clone_value(&va[i]), at_t2: clone_value(&vb[i]) };
            diffs.push(d);
            assert(diff_views(diffs@) =~= d0.push(d@));
        }
        i += 1;
    }
    assert(sids@.take(i as int) =~= sids@);
    (diffs, n)
}

/// Collect what `compare` shows.
pub fn compare_data<B: WaveformBackend, T: Timescale>(
    wave: &mut Wave<B>,
    args: &Args,
    ts: &T,
) -> (r: Result<CompareData, String>)
    requires
        old(wave).wf(),
    ensures
        final(wave).wf(),
        final(wave).same_wave(old(wave)),
        match r {
            Err(e) => compare_of(old(wave).snap(), args@, ts) == Err::<CompareView, Seq<char>>(e@),
            Ok(d) => compare_of(old(wave).snap(), args@, ts) == Ok::<CompareView, Seq<char>>(d@)
                && diffs_in(d@.diffs, old(wave).table().len()) && d.diffs.len() <= d.union_len,
        },
{
    let selection: Selection = match selection_of(args) {
        Ok(s) => s,
        Err(e) => {
            return Err(e);
        },
    };
    let at: &String = match &args.at {
        Some(s) => s,
        None => {
            return Err("the following arguments are required: --at".to_owned());
        },
    };
    let parts: Vec<String> = split(at.as_str(), ',');
    let ghost ps = pieces(at@, ',');
    assert(views(parts@).len() == parts@.len());
    if parts.len() != 2 {
        return Err("--at needs two times separated by comma, e.g. --at 17.5us,17.7us".to_owned());
    }
    assert(ps[0] == parts@[0]@);
    assert(ps[1] == parts@[1]@);
    let ta: i64 = match parse_time(trim(parts[0].as_str()), ts) {
        Ok(t) => t,
        Err(e) => {
            return Err(e.0);
        },
    };
    let tb: i64 = match parse_time(trim(parts[1].as_str()), ts) {
        Ok(t) => t,
        Err(e) => {
            return Err(e.0);
        },
    };
    if tb < ta {
        return Err("second compare time must be >= first compare time".to_owned());
    }
    proof {
        wave.table_is_ok();
    }
    let ghost w = old(wave).snap();
    let selected: Vec<Sid> = selected_sids(wave.signals(), &selection);
    let matched: MatchReport = match_report(wave.signals(), &selection, &selected);
    let (va, vb) = values_twice(wave, &selected, ta, tb);
    let (diffs, union_len) = find_diffs(
        &selected,
        &va,
        &vb,
        Ghost(w),
        Ghost(ta as int),
        Ghost(tb as int),
    );
    proof {
        diffs_are_defined(w, selected@, ta as int, tb as int);
        assert(diff_views(diffs@).len() == diffs@.len());
    }
    Ok(CompareData { diffs, ta, tb, union_len, selected_len: selected.len(), matched })
}

pub open spec fn compact_or_undef(v: Option<RawView>, s: SignalView) -> Seq<char> {
    match v {
        Some(x) => compact_value(x, s),
        None => "(undef)"@,
    }
}

pub open spec fn text_or_undef(v: Option<RawView>, s: SignalView) -> Seq<char> {
    match v {
        Some(x) => text_value(x, s),
        None => "(undef)"@,
    }
}

/// A value as JSON shows it, or that there is none.
pub fn compact_of(v: &Option<RawValue>, info: &SignalInfo) -> (s: String)
    ensures
        s@ == compact_or_undef(opt_raw(*v), info@),
{
    match v {
        Some(x) => x.fmt_value_compact(info.kind, info.width),
        None => "(undef)".to_owned(),
    }
}

/// A value as text shows it, or that there is none.
pub fn text_of(v: &Option<RawValue>, info: &SignalInfo) -> (s: String)
    ensures
        s@ == text_or_undef(opt_raw(*v), info@),
{
    match v {
        Some(x) => x.fmt_value(info.kind, info.width),
        None => "(undef)".to_owned(),
    }
}

pub open spec fn diff_json(table: Seq<SignalView>, d: DiffView, verbose: bool) -> JsonView {
    let s = table[d.sid as int];
    JsonView::Object(
        seq![
            ("path"@, JsonView::Str(s.path)),
            ("at_t1"@, JsonView::Str(compact_or_undef(d.a, s))),
            ("at_t2"@, JsonView::Str(compact_or_undef(d.b, s))),
        ] + verbose_members(verbose, s),
    )
}

pub open spec fn compare_hints<T: Timescale>(d: CompareView, limit: int, ts: &T) -> Seq<Seq<char>> {
    let total = d.diffs.len();
    let shown = shown_count(total as int, limit);
    let h = with_hint(
        with_hint(
            Seq::empty(),
            trunc_hint_text(shown < total, shown as nat, total, true, "diffs"@),
        ),
        alias_note_text(d.matched),
    );
    if d.selected == 0 {
        h.push(
            if d.matched.selective {
                SELECTION_EMPTY@
            } else {
                NO_SIGNALS@
            },
        )
    } else if total == 0 {
        h.push(
            "no selected signal differs between "@ + ts.shown(d.ta) + " and "@ + ts.shown(d.tb)
                + "; "@ + dec(d.union_len) + " held the same value"@,
        )
    } else {
        h
    }
}

/// What `compare` writes as JSON.
pub open spec fn compare_json<T: Timescale>(
    table: Seq<SignalView>,
    d: CompareView,
    verbose: bool,
    limit: int,
    ts: &T,
) -> JsonView {
    let total = d.diffs.len();
    let shown = shown_count(total as int, limit);
    JsonView::Object(
        (time_members("t1"@, Some(d.ta), ts) + time_members("t2"@, Some(d.tb), ts) + seq![
            ("matched"@, report_json(d.matched)),
            ("selected"@, count_view(d.selected as int)),
            ("unchanged"@, count_view(d.union_len - total)),
        ] + count_members(shown, total as int, true, shown < total)).push(
            ("hint"@, hint_json(compare_hints(d, limit, ts))),
        ).push(
            (
                "diffs"@,
                JsonView::Array(
                    d.diffs.take(shown).map_values(|x: DiffView| diff_json(table, x, verbose)),
                ),
            ),
        ),
    )
}

fn diff_array(table: &Vec<SignalInfo>, diffs: &Vec<Diff>, shown: usize, verbose: bool) -> (v: Vec<
    Json,
>)
    requires
        shown <= diffs.len(),
        diffs_in(diff_views(diffs@), table@.len()),
    ensures
        json_views(v@) == diff_views(diffs@).take(shown as int).map_values(
            |x: DiffView| diff_json(signal_views(table@), x, verbose),
        ),
{
    let ghost dv = diff_views(diffs@);
    let ghost tab = signal_views(table@);
    let mut v: Vec<Json> = Vec::new();
    let mut i: usize = 0;
    while i < shown
        invariant
            i <= shown <= diffs.len(),
            dv == diff_views(diffs@),
            tab == signal_views(table@),
            diffs_in(dv, table@.len()),
            v.len() == i,
            forall|k: int| 0 <= k < i ==> (#[trigger] v@[k])@ == diff_json(tab, dv[k], verbose),
        decreases shown - i,
    {
        let d: &Diff = &diffs[i];
        assert(dv[i as int] == d@);
        let info: &SignalInfo = &table[d.sid];
        assert(tab[d.sid as int] == info@);
        let o: Obj = Obj::new().push("path", Json::str(info.path.as_str())).push(
            "at_t1",
            Json::str(compact_of(&d.at_t1, info).as_str()),
        ).push("at_t2", Json::str(compact_of(&d.at_t2, info).as_str()));
        assert(o@ =~= seq![
            ("path"@, JsonView::Str(info@.path)),
            ("at_t1"@, JsonView::Str(compact_or_undef(d@.a, info@))),
            ("at_t2"@, JsonView::Str(compact_or_undef(d@.b, info@))),
        ]);
        v.push(push_verbose(o, verbose, info).build());
        i += 1;
    }
    assert(json_views(v@) =~= dv.take(shown as int).map_values(
        |x: DiffView| diff_json(tab, x, verbose),
    ));
    v
}

/// Render what `compare` found as JSON.
pub fn compare_to_json<T: Timescale>(
    table: &Vec<SignalInfo>,
    d: &CompareData,
    verbose: bool,
    limit: usize,
    ts: &T,
) -> (j: Json)
    requires
        diffs_in(d@.diffs, table@.len()),
        d.diffs.len() <= d.union_len,
    ensures
        j@ == compare_json(signal_views(table@), d@, verbose, limit as int, ts),
{
    let ghost dv = d@;
    let total: usize = d.diffs.len();
    assert(dv.diffs.len() == total);
    let (shown, trunc) = clip_len(total, limit);
    let arr: Vec<Json> = diff_array(table, &d.diffs, shown, verbose);
    let obj: Obj = push_time(Obj::new(), "t1", d.ta, ts);
    let obj: Obj = push_time(obj, "t2", d.tb, ts).push("matched", d.matched.json()).push(
        "selected",
        count_json(d.selected_len),
    ).push("unchanged", count_json(d.union_len - total));
    assert(obj@ =~= time_members("t1"@, Some(dv.ta), ts) + time_members("t2"@, Some(dv.tb), ts)
        + seq![
        ("matched"@, report_json(dv.matched)),
        ("selected"@, count_view(dv.selected as int)),
        ("unchanged"@, count_view(dv.union_len - total)),
    ]);
    let obj: Obj = push_counts(obj, shown, total, true, trunc);
    let mut hints: Hints = Hints::new();
    hints.push_opt(trunc_hint(trunc, shown, total, true, "diffs"));
    hints.push_opt(d.matched.alias_note());
    if d.selected_len == 0 {
        if d.matched.selective {
            hints.push(SELECTION_EMPTY.to_owned());
        } else {
            hints.push(NO_SIGNALS.to_owned());
        }
    } else if total == 0 {
        let mut m: String = "no selected signal differs between ".to_owned();
        m.push_str(ts.fmt_time(d.ta).as_str());
        m.push_str(" and ");
        m.push_str(ts.fmt_time(d.tb).as_str());
        m.push_str("; ");
        m.push_str(usize_text(d.union_len).as_str());
        m.push_str(" held the same value");
        hints.push(m);
    }
    assert(hints@ == compare_hints(dv, limit as int, ts));
    hints.attach(obj).push("diffs", array(arr)).build()
}

/// The `compare` command with JSON output.
pub fn compute_compare<B: WaveformBackend, T: Timescale>(
    wave: &mut Wave<B>,
    args: &Args,
    ts: &T,
) -> (r: Result<Json, String>)
    requires
        old(wave).wf(),
    ensures
        final(wave).wf(),
        final(wave).same_wave(old(wave)),
        match compare_of(old(wave).snap(), args@, ts) {
            Err(e) => r is Err && r->Err_0@ == e,
            Ok(d) => r is Ok && r->Ok_0@ == compare_json(
                old(wave).table(),
                d,
                args.verbose,
                limit_view(args@),
                ts,
            ),
        },
{
    match compare_data(wave, args, ts) {
        Err(e) => Err(e),
        Ok(d) => Ok(compare_to_json(wave.signals(), &d, args.verbose, limit_of(args), ts)),
    }
}

pub open spec fn diff_line(table: Seq<SignalView>, d: DiffView) -> Seq<char> {
    let s = table[d.sid as int];
    "  "@ + left_justified(s.path, 48) + " "@ + text_or_undef(d.a, s) + " -> "@ + text_or_undef(
        d.b,
        s,
    ) + "\n"@
}

pub open spec fn diff_lines(table: Seq<SignalView>, d: Seq<DiffView>, n: int) -> Seq<char>
    decreases n,
{
    if n <= 0 {
        Seq::empty()
    } else {
        diff_lines(table, d, n - 1) + diff_line(table, d[n - 1])
    }
}

/// What `compare` writes as text.
pub open spec fn compare_text<T: Timescale>(
    table: Seq<SignalView>,
    d: CompareView,
    limit: int,
    ts: &T,
) -> Seq<char> {
    let total = d.diffs.len();
    let shown = shown_count(total as int, limit);
    "Compare: "@ + ts.shown(d.ta) + " vs "@ + ts.shown(d.tb) + "\n"@ + opt_line(
        ""@,
        header_text(d.matched),
    ) + opt_line("Note: "@, alias_note_text(d.matched)) + (dec(total) + " changed, "@ + dec(
        (d.union_len - total) as nat,
    ) + " unchanged\n"@) + diff_lines(table, d.diffs, shown) + opt_line(
        ""@,
        if shown < total {
            Some(trunc_text(shown as nat, total, ""@, "diffs"@))
        } else {
            None
        },
    )
}

fn push_diff_lines(out: &mut String, table: &Vec<SignalInfo>, diffs: &Vec<Diff>, shown: usize)
    requires
        shown <= diffs.len(),
        diffs_in(diff_views(diffs@), table@.len()),
    ensures
        final(out)@ == old(out)@ + diff_lines(
            signal_views(table@),
            diff_views(diffs@),
            shown as int,
        ),
{
    let ghost dv = diff_views(diffs@);
    let ghost tab = signal_views(table@);
    let ghost o0 = out@;
    let mut i: usize = 0;
    assert(out@ =~= o0 + Seq::<char>::empty());
    while i < shown
        invariant
            i <= shown <= diffs.len(),
            dv == diff_views(diffs@),
            tab == signal_views(table@),
            diffs_in(dv, table@.len()),
            out@ == o0 + diff_lines(tab, dv, i as int),
        decreases shown - i,
    {
        let d: &Diff = &diffs[i];
        assert(dv[i as int] == d@);
        let info: &SignalInfo = &table[d.sid];
        assert(tab[d.sid as int] == info@);
        let mut m: String = "  ".to_owned();
        m.push_str(ljust(info.path.as_str(), 48).as_str());
        m.push_str(" ");
        m.push_str(text_of(&d.at_t1, info).as_str());
        m.push_str(" -> ");
        m.push_str(text_of(&d.at_t2, info).as_str());
        m.push_str("\n");
        assert(m@ == diff_line(tab, d@));
        out.push_str(m.as_str());
        assert(out@ =~= o0 + diff_lines(tab, dv, i + 1));
        i += 1;
    }
}

/// Render what `compare` found as text.
pub fn compare_to_text<T: Timescale>(
    table: &Vec<SignalInfo>,
    d: &CompareData,
    limit: usize,
    ts: &T,
) -> (s: String)
    requires
        diffs_in(d@.diffs, table@.len()),
        d.diffs.len() <= d.union_len,
    ensures
        s@ == compare_text(signal_views(table@), d@, limit as int, ts),
{
    let ghost dv = d@;
    let total: usize = d.diffs.len();
    assert(dv.diffs.len() == total);
    let (shown, trunc) = clip_len(total, limit);
    let mut out: String = "Compare: ".to_owned();
    out.push_str(ts.fmt_time(d.ta).as_str());
    out.push_str(" vs ");
    out.push_str(ts.fmt_time(d.tb).as_str());
    out.push_str("\n");
    push_opt_line(&mut out, "", d.matched.header());
    push_opt_line(&mut out, "Note: ", d.matched.alias_note());
    let mut sums: String = usize_text(total);
    sums.push_str(" changed, ");
    sums.push_str(usize_text(d.union_len - total).as_str());
    sums.push_str(" unchanged\n");
    out.push_str(sums.as_str());
    push_diff_lines(&mut out, table, &d.diffs, shown);
    let notice: Option<String> = if trunc {
        Some(trunc_line(shown, total, "diffs"))
    } else {
        None
    };
    push_opt_line(&mut out, "", notice);
    out
}

/// The `compare` command with text output.
pub fn text_compare<B: WaveformBackend, T: Timescale>(
    wave: &mut Wave<B>,
    args: &Args,
    ts: &T,
) -> (r: Result<String, String>)
    requires
        old(wave).wf(),
    ensures
        final(wave).wf(),
        final(wave).same_wave(old(wave)),
        match compare_of(old(wave).snap(), args@, ts) {
            Err(e) => r is Err && r->Err_0@ == e,
            Ok(d) => r is Ok && r->Ok_0@ == compare_text(
                old(wave).table(),
                d,
                limit_view(args@),
                ts,
            ),
        },
{
    match compare_data(wave, args, ts) {
        Err(e) => Err(e),
        Ok(d) => Ok(compare_to_text(wave.signals(), &d, limit_of(args), ts)),
    }
}

} // verus!
