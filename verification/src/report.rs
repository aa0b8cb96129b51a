//! What the commands have in common: limits, truncation notices, hints, the
//! report on what a selection caught, and the JSON of times and counts.

use vstd::prelude::*;

use crate::backend::WaveformBackend;
use crate::cli::{Args, ArgsView, DEFAULT_LIMIT};
use crate::filter::{patterns_of, Filters, MatchMode, PatternView};
use crate::format::{pyrepr, repr};
use crate::history::SignalTrace;
use crate::json::{array, json_views, Json, JsonView, Obj};
use crate::model::{in_table, seen_of, selection, Sid, Sighting, TraceVisitor, Wave, WaveView};
use crate::number::{dec, usize_text};
use crate::pairs::{
    drop_doubles, pair_views, pairs_sorted, sort_pairs, without_doubles, PairView,
};
use crate::replay::{least, opt_tick};
use crate::select::{
    first_kept, keeps, keeps_named, path_matches, selection_meaning, selects_all, Selection,
    SelectionView,
};
use crate::signal::{
    has_path_ci, leaf_of, signal_ok, signal_views, table_ok, SignalInfo, SignalView,
};
use crate::text::{join, joined, lowercase, opt_view, same, to_lower, trim, trimmed, views};
use crate::time::Timescale;

verus! {

/// Above this many signals, traces are decoded in batches.
pub const STREAMING_SIGNAL_THRESHOLD: usize = 8192;

/// The number of signals decoded at a time.
pub const STREAMING_BATCH: usize = 8192;

/// Should a selection of `n` signals be decoded in batches?
pub fn should_stream(n: usize) -> (r: bool)
    ensures
        r == (n > STREAMING_SIGNAL_THRESHOLD),
{
    n > STREAMING_SIGNAL_THRESHOLD
}

/// The most rows to show, zero for all: `--verbose` lifts the default.
pub open spec fn limit_view(a: ArgsView) -> int {
    match a.limit {
        Some(n) => if n < 0 {
            0
        } else {
            least(n, usize::MAX as int)
        },
        None => if a.verbose {
            0
        } else {
            DEFAULT_LIMIT as int
        },
    }
}

pub fn limit_of(args: &Args) -> (n: usize)
    ensures
        n == limit_view(args@),
{
    match args.limit {
        Some(n) => if n < 0 {
            0
        } else {
            let v: u64 = n as u64;
            let top: usize = usize::MAX;
            if v > top as u64 {
                top
            } else {
                v as usize
            }
        },
        None => if args.verbose {
            0
        } else {
            DEFAULT_LIMIT
        },
    }
}

/// How many of `total` rows are shown.
pub open spec fn shown_count(total: int, limit: int) -> int {
    if limit == 0 || total <= limit {
        total
    } else {
        limit
    }
}

/// The number of rows shown, and whether some are left out.
pub fn clip_len(total: usize, limit: usize) -> (r: (usize, bool))
    ensures
        r.0 == shown_count(total as int, limit as int),
        r.1 == (shown_count(total as int, limit as int) < total),
{
    if limit == 0 {
        (total, false)
    } else if total > limit {
        (limit, true)
    } else {
        (total, false)
    }
}

/// The notice that rows were left out; `plus` follows the total where it is
/// only a lower bound.
pub open spec fn trunc_text(shown: nat, total: nat, plus: Seq<char>, noun: Seq<char>) -> Seq<char> {
    "\n>> TRUNCATED: showing "@ + dec(shown) + " of "@ + dec(total) + plus + " "@ + noun
        + ". Raise the cap with --limit N, or --limit 0 for all."@
}

fn trunc_notice(shown: usize, total: usize, plus: &str, noun: &str) -> (s: String)
    ensures
        s@ == trunc_text(shown as nat, total as nat, plus@, noun@),
{
    let mut m: String = "\n>> TRUNCATED: showing ".to_owned();
    m.push_str(usize_text(shown).as_str());
    m.push_str(" of ");
    m.push_str(usize_text(total).as_str());
    m.push_str(plus);
    m.push_str(" ");
    m.push_str(noun);
    m.push_str(". Raise the cap with --limit N, or --limit 0 for all.");
    m
}

/// The notice that rows were left out.
pub fn trunc_line(shown: usize, total: usize, noun: &str) -> (s: String)
    ensures
        s@ == trunc_text(shown as nat, total as nat, ""@, noun@),
{
    trunc_notice(shown, total, "", noun)
}

/// The same where the total is only a lower bound.
pub fn trunc_line_lb(shown: usize, total: usize, noun: &str) -> (s: String)
    ensures
        s@ == trunc_text(shown as nat, total as nat, "+"@, noun@),
{
    trunc_notice(shown, total, "+", noun)
}

pub open spec fn trunc_hint_text(
    trunc: bool,
    shown: nat,
    total: nat,
    exact: bool,
    noun: Seq<char>,
) -> Option<Seq<char>> {
    if trunc {
        Some(
            "showing "@ + dec(shown) + " of "@ + dec(total) + (if exact {
                ""@
            } else {
                "+"@
            }) + " "@ + noun
                + "; re-run with --limit N (or --limit 0 for all) to see the rest"@,
        )
    } else {
        None
    }
}

/// The hint that rows were left out, if some were.
pub fn trunc_hint(trunc: bool, shown: usize, total: usize, exact: bool, noun: &str) -> (r: Option<
    String,
>)
    ensures
        opt_view(r) == trunc_hint_text(trunc, shown as nat, total as nat, exact, noun@),
{
    if !trunc {
        return None;
    }
    let mut m: String = "showing ".to_owned();
    m.push_str(usize_text(shown).as_str());
    m.push_str(" of ");
    m.push_str(usize_text(total).as_str());
    if exact {
        m.push_str("");
    } else {
        m.push_str("+");
    }
    m.push_str(" ");
    m.push_str(noun);
    m.push_str("; re-run with --limit N (or --limit 0 for all) to see the rest");
    Some(m)
}

pub open spec fn count_text(total: nat, truncated: bool) -> Seq<char> {
    if truncated {
        dec(total) + "+"@
    } else {
        dec(total)
    }
}

pub fn count_label(total: usize, truncated: bool) -> (s: String)
    ensures
        s@ == count_text(total as nat, truncated),
{
    let mut m: String = usize_text(total);
    if truncated {
        m.push_str("+");
    }
    m
}

/// A test on signals.
pub trait SignalTest {
    spec fn holds(&self, s: SignalView) -> bool;

    fn test(&self, info: &SignalInfo) -> (r: bool)
        requires
            signal_ok(info@),
        ensures
            r == self.holds(info@),
    ;
}

/// The signals for which a test holds, in ascending order.
pub open spec fn sids_of(table: Seq<SignalView>, pred: spec_fn(SignalView) -> bool) -> Seq<usize>
    decreases table.len(),
{
    if table.len() == 0 {
        Seq::empty()
    } else {
        let rest = sids_of(table.drop_last(), pred);
        if pred(table.last()) {
            rest.push((table.len() - 1) as usize)
        } else {
            rest
        }
    }
}

/// The signals for which a test holds, in ascending order.
pub fn sids_where<P: SignalTest>(table: &Vec<SignalInfo>, pred: &P) -> (r: Vec<Sid>)
    requires
        table_ok(signal_views(table@)),
    ensures
        r@ == sids_of(signal_views(table@), |s: SignalView| pred.holds(s)),
{
    let ghost tab = signal_views(table@);
    let ghost p = |s: SignalView| pred.holds(s);
    let mut r: Vec<Sid> = Vec::new();
    let mut i: usize = 0;
    assert(tab.take(0) =~= Seq::empty());
    while i < table.len()
        invariant
            i <= table.len(),
            tab == signal_views(table@),
            table_ok(tab),
            p == (|s: SignalView| pred.holds(s)),
            r@ == sids_of(tab.take(i as int), p),
        decreases table.len() - i,
    {
        proof {
            assert(tab.take(i + 1).drop_last() =~= tab.take(i as int));
            assert(tab.take(i + 1).last() == table@[i as int]@);
            assert(tab[i as int] == table@[i as int]@);
        }
        if pred.test(&table[i]) {
            r.push(i);
        }
        i += 1;
    }
    assert(tab.take(i as int) =~= tab);
    r
}

/// The signals found are in the table, in ascending order, and are just those
/// for which the test holds.
pub proof fn sids_are_the_matches(table: Seq<SignalView>, pred: spec_fn(SignalView) -> bool)
    requires
        table.len() <= usize::MAX,
    ensures
        sids_of(table, pred).len() <= table.len(),
        forall|i: int|
            0 <= i < sids_of(table, pred).len() ==> (#[trigger] sids_of(table, pred)[i])
                < table.len() && pred(table[sids_of(table, pred)[i] as int]),
        forall|i: int, j: int|
            0 <= i < j < sids_of(table, pred).len() ==> (#[trigger] sids_of(table, pred)[i]) < (
            #[trigger] sids_of(table, pred)[j]),
        forall|s: int|
            0 <= s < table.len() && pred(#[trigger] table[s]) ==> sids_of(table, pred).contains(
                s as usize,
            ),
    decreases table.len(),
{
    if table.len() > 0 {
        let less = table.drop_last();
        sids_are_the_matches(less, pred);
        let rest = sids_of(less, pred);
        let all = sids_of(table, pred);
        let n = (table.len() - 1) as usize;
        assert forall|i: int| 0 <= i < all.len() implies (#[trigger] all[i]) < table.len() && pred(
            table[all[i] as int],
        ) by {
            if i < rest.len() {
                assert(all[i] == rest[i]);
                assert(less[rest[i] as int] == table[rest[i] as int]);
            }
        }
        assert forall|i: int, j: int| 0 <= i < j < all.len() implies (#[trigger] all[i]) < (
        #[trigger] all[j]) by {
            assert(all[i] == rest[i]);
            if j < rest.len() {
                assert(all[j] == rest[j]);
            }
        }
        assert forall|s: int| 0 <= s < table.len() && pred(#[trigger] table[s]) implies all.contains(
            s as usize,
        ) by {
            if s < table.len() - 1 {
                assert(less[s] == table[s]);
                assert(rest.contains(s as usize));
                let k = choose|k: int| 0 <= k < rest.len() && rest[k] == s as usize;
                assert(all[k] == s as usize);
            } else {
                assert(all[rest.len() as int] == n);
            }
        }
    }
}

/// Signals that a choice keeps.
pub struct Kept<'a>(pub &'a Selection);

impl<'a> SignalTest for Kept<'a> {
    open spec fn holds(&self, s: SignalView) -> bool {
        keeps(self.0@, s)
    }

    fn test(&self, info: &SignalInfo) -> (r: bool) {
        self.0.keeps_signal(info)
    }
}

/// Signals with a given path, not minding case.
pub struct HasPath<'a>(pub &'a str);

impl<'a> SignalTest for HasPath<'a> {
    open spec fn holds(&self, s: SignalView) -> bool {
        has_path_ci(s, self.0@)
    }

    fn test(&self, info: &SignalInfo) -> (r: bool) {
        info.has_exact_path_ci(self.0)
    }
}

/// Signals kept under a path that patterns match.
pub struct KeptNamed<'a>(pub &'a Selection, pub &'a Filters);

impl<'a> SignalTest for KeptNamed<'a> {
    open spec fn holds(&self, s: SignalView) -> bool {
        keeps_named(self.0@, s, self.1@)
    }

    fn test(&self, info: &SignalInfo) -> (r: bool) {
        self.0.keeps_signal_matching(info, self.1)
    }
}

pub open spec fn mode_view(a: ArgsView) -> MatchMode {
    if a.exact {
        MatchMode::Exact
    } else {
        MatchMode::Substring
    }
}

/// How an invocation matches names.
pub fn match_mode(args: &Args) -> (m: MatchMode)
    ensures
        m == mode_view(args@),
{
    if args.exact {
        MatchMode::Exact
    } else {
        MatchMode::Substring
    }
}

/// The choice that an invocation makes.
pub open spec fn choice_of(a: ArgsView) -> Result<SelectionView, Seq<char>> {
    selection_meaning(a.scope, a.depth, a.filter, a.exclude, mode_view(a))
}

/// Compile the selection options of an invocation.
pub fn selection_of(args: &Args) -> (r: Result<Selection, String>)
    ensures
        match r {
            Ok(s) => choice_of(args@) == Ok::<SelectionView, Seq<char>>(s@),
            Err(e) => choice_of(args@) == Err::<SelectionView, Seq<char>>(e@),
        },
{
    Selection::parse_mode(&args.scope, args.depth, &args.filter, &args.exclude, match_mode(args))
}

/// The signals that a choice keeps, in ascending order.
pub open spec fn chosen(table: Seq<SignalView>, s: SelectionView) -> Seq<usize> {
    if selects_all(s) {
        Seq::new(table.len(), |i: int| i as usize)
    } else {
        sids_of(table, |g: SignalView| keeps(s, g))
    }
}

/// The signals that a choice keeps, in ascending order.
pub fn selected_sids(table: &Vec<SignalInfo>, sel: &Selection) -> (r: Vec<Sid>)
    requires
        table_ok(signal_views(table@)),
    ensures
        r@ == chosen(signal_views(table@), sel@),
        in_table(r@, table@.len()),
{
    let ghost tab = signal_views(table@);
    let n: usize = table.len();
    assert(tab.len() == n);
    if sel.is_all() {
        let mut r: Vec<Sid> = Vec::new();
        let mut i: usize = 0;
        while i < n
            invariant
                i <= n,
                r.len() == i,
                forall|k: int| 0 <= k < i ==> #[trigger] r@[k] == k as usize && r@[k] < n,
            decreases n - i,
        {
            r.push(i);
            i += 1;
        }
        assert(r@ =~= chosen(tab, sel@));
        return r;
    }
    let r: Vec<Sid> = sids_where(table, &Kept(sel));
    proof {
        let k = Kept(sel);
        assert((|s: SignalView| k.holds(s)) =~= (|g: SignalView| keeps(sel@, g)));
        sids_are_the_matches(tab, |g: SignalView| keeps(sel@, g));
    }
    r
}

/// What a selection caught: for each signal the path that matched and the path
/// its rows carry, sorted. Empty when there was no selection.
pub struct MatchReport {
    pub pairs: Vec<(String, String)>,
    pub selective: bool,
}

pub struct ReportView {
    pub pairs: Seq<PairView>,
    pub selective: bool,
}

impl View for MatchReport {
    type V = ReportView;

    open spec fn view(&self) -> ReportView {
        ReportView { pairs: pair_views(self.pairs@), selective: self.selective }
    }
}

/// The most matched paths a header lists.
pub const MATCH_LIST_CAP: usize = 10;

pub open spec fn signal_noun(n: nat) -> Seq<char> {
    if n == 1 {
        "signal"@
    } else {
        "signals"@
    }
}

fn noun_of(n: usize) -> (s: &'static str)
    ensures
        s@ == signal_noun(n as nat),
{
    if n == 1 {
        "signal"
    } else {
        "signals"
    }
}

pub open spec fn pair_label(p: PairView) -> Seq<char> {
    if p.0 == p.1 {
        p.0
    } else {
        p.0 + " -> "@ + p.1
    }
}

pub open spec fn header_text(r: ReportView) -> Option<Seq<char>> {
    let n = r.pairs.len();
    if !r.selective {
        None
    } else if n == 0 {
        Some("Matched 0 signals"@)
    } else if n > MATCH_LIST_CAP {
        Some(
            "Matched "@ + dec(n) + " "@ + signal_noun(n)
                + " (run list with the same options to see them)"@,
        )
    } else {
        Some(
            "Matched "@ + dec(n) + " "@ + signal_noun(n) + ": "@ + joined(
                r.pairs.map_values(|p: PairView| pair_label(p)),
                ", "@,
            ),
        )
    }
}

/// The pairs whose matched path is not the one its rows carry.
pub open spec fn aliased(pairs: Seq<PairView>) -> Seq<PairView>
    decreases pairs.len(),
{
    if pairs.len() == 0 {
        Seq::empty()
    } else {
        let rest = aliased(pairs.drop_last());
        if pairs.last().0 != pairs.last().1 {
            rest.push(pairs.last())
        } else {
            rest
        }
    }
}

pub open spec fn alias_clause(p: PairView) -> Seq<char> {
    p.0 + " is "@ + p.1
}

pub open spec fn alias_note_text(r: ReportView) -> Option<Seq<char>> {
    let a = aliased(r.pairs);
    let n = a.len();
    let few = a.take(least(3, n as int));
    if n == 0 {
        None
    } else {
        Some(
            dec(n) + " "@ + signal_noun(n)
                + " matched through an alias; rows carry the canonical path ("@ + joined(
                few.map_values(|p: PairView| alias_clause(p)),
                "; "@,
            ) + (if n > few.len() {
                ", and "@ + dec((n - few.len()) as nat) + " more"@
            } else {
                ""@
            }) + ")"@,
        )
    }
}

/// A count as JSON.
pub open spec fn count_view(n: int) -> JsonView {
    JsonView::Int(least(n, i64::MAX as int))
}

pub fn count_json(n: usize) -> (j: Json)
    ensures
        j@ == count_view(n as int),
{
    let top: u64 = 9223372036854775807;
    if n as u64 > top {
        Json::Int(9223372036854775807)
    } else {
        Json::Int(n as i64)
    }
}

pub open spec fn report_json(r: ReportView) -> JsonView {
    if !r.selective {
        JsonView::Null
    } else {
        JsonView::Object(
            seq![
                ("count"@, count_view(r.pairs.len() as int)),
                (
                    "paths"@,
                    JsonView::Array(
                        r.pairs.take(least(MATCH_LIST_CAP as int, r.pairs.len() as int)).map_values(
                            |p: PairView| JsonView::Str(p.0),
                        ),
                    ),
                ),
            ],
        )
    }
}

impl MatchReport {
    pub fn count(&self) -> (n: usize)
        ensures
            n == self@.pairs.len(),
    {
        self.pairs.len()
    }

    /// The pairs whose matched path is not the one its rows carry.
    pub fn aliased(&self) -> (r: Vec<(String, String)>)
        ensures
            pair_views(r@) == aliased(self@.pairs),
            r.len() == aliased(self@.pairs).len(),
    {
        let ghost pv = self@.pairs;
        let mut r: Vec<(String, String)> = Vec::new();
        let mut i: usize = 0;
        assert(pv.take(0) =~= Seq::empty());
        assert(pair_views(r@) =~= Seq::empty());
        while i < self.pairs.len()
            invariant
                i <= self.pairs.len(),
                pv == pair_views(self.pairs@),
                pair_views(r@) == aliased(pv.take(i as int)),
            decreases self.pairs.len() - i,
        {
            proof {
                assert(pv.take(i + 1).drop_last() =~= pv.take(i as int));
                assert(pv.take(i + 1).last() == (
                    self.pairs@[i as int].0@,
                    self.pairs@[i as int].1@,
                ));
            }
            if !same(self.pairs[i].0.as_str(), self.pairs[i].1.as_str()) {
                let ghost r0 = pair_views(r@);
                r.push((self.pairs[i].0.clone(), self.pairs[i].1.clone()));
                assert(pair_views(r@) =~= r0.push(pv[i as int]));
            }
            i += 1;
        }
        assert(pv.take(i as int) =~= pv);
        assert(pair_views(r@).len() == r@.len());
        r
    }

    /// One line that says what matched; `None` without a selection.
    pub fn header(&self) -> (r: Option<String>)
        ensures
            opt_view(r) == header_text(self@),
    {
        if !self.selective {
            return None;
        }
        let n: usize = self.count();
        if n == 0 {
            return Some("Matched 0 signals".to_owned());
        }
        let mut m: String = "Matched ".to_owned();
        m.push_str(usize_text(n).as_str());
        m.push_str(" ");
        m.push_str(noun_of(n));
        if n > MATCH_LIST_CAP {
            m.push_str(" (run list with the same options to see them)");
            return Some(m);
        }
        let ghost pv = self@.pairs;
        let mut names: Vec<String> = Vec::new();
        let mut i: usize = 0;
        while i < n
            invariant
                i <= n == self.pairs.len(),
                pv == pair_views(self.pairs@),
                names.len() == i,
                forall|k: int| 0 <= k < i ==> (#[trigger] names@[k])@ == pair_label(pv[k]),
            decreases n - i,
        {
            let p: &(String, String) = &self.pairs[i];
            assert(pv[i as int] == (p.0@, p.1@));
            let mut one: String = p.0.clone();
            if !same(p.0.as_str(), p.1.as_str()) {
                one.push_str(" -> ");
                one.push_str(p.1.as_str());
            }
            names.push(one);
            i += 1;
        }
        assert(views(names@) =~= pv.map_values(|p: PairView| pair_label(p)));
        m.push_str(": ");
        m.push_str(join(&names, ", ").as_str());
        Some(m)
    }

    /// The number of signals matched and the first few paths; `null` without a
    /// selection.
    pub fn json(&self) -> (j: Json)
        ensures
            j@ == report_json(self@),
    {
        if !self.selective {
            return Json::Null;
        }
        let n: usize = self.count();
        let cap: usize = if n > MATCH_LIST_CAP {
            MATCH_LIST_CAP
        } else {
            n
        };
        let ghost pv = self@.pairs;
        let mut paths: Vec<Json> = Vec::new();
        let mut i: usize = 0;
        while i < cap
            invariant
                i <= cap <= self.pairs.len(),
                pv == pair_views(self.pairs@),
                paths.len() == i,
                forall|k: int| 0 <= k < i ==> (#[trigger] paths@[k])@ == JsonView::Str(pv[k].0),
            decreases cap - i,
        {
            assert(pv[i as int].0 == self.pairs@[i as int].0@);
            paths.push(Json::str(self.pairs[i].0.as_str()));
            i += 1;
        }
        assert(json_views(paths@) =~= pv.take(cap as int).map_values(
            |p: PairView| JsonView::Str(p.0),
        ));
        let o: Obj = Obj::new().push("count", count_json(n)).push("paths", array(paths));
        assert(o@ =~= report_json(self@)->Object_0);
        o.build()
    }

    /// The warning that rows carry another name than the one asked for, if some
    /// do.
    pub fn alias_note(&self) -> (r: Option<String>)
        ensures
            opt_view(r) == alias_note_text(self@),
    {
        let a: Vec<(String, String)> = self.aliased();
        let ghost av = aliased(self@.pairs);
        let n: usize = a.len();
        if n == 0 {
            return None;
        }
        let few: usize = if n > 3 {
            3
        } else {
            n
        };
        let mut shown: Vec<String> = Vec::new();
        let mut i: usize = 0;
        while i < few
            invariant
                i <= few <= a.len(),
                av == pair_views(a@),
                shown.len() == i,
                forall|k: int| 0 <= k < i ==> (#[trigger] shown@[k])@ == alias_clause(av[k]),
            decreases few - i,
        {
            assert(av[i as int] == (a@[i as int].0@, a@[i as int].1@));
            let mut one: String = a[i].0.clone();
            one.push_str(" is ");
            one.push_str(a[i].1.as_str());
            shown.push(one);
            i += 1;
        }
        assert(views(shown@) =~= av.take(few as int).map_values(|p: PairView| alias_clause(p)));
        let mut m: String = usize_text(n);
        m.push_str(" ");
        m.push_str(noun_of(n));
        m.push_str(" matched through an alias; rows carry the canonical path (");
        m.push_str(join(&shown, "; ").as_str());
        let mut more: String = "".to_owned();
        if n > few {
            more = ", and ".to_owned();
            more.push_str(usize_text(n - few).as_str());
            more.push_str(" more");
        }
        m.push_str(more.as_str());
        m.push_str(")");
        Some(m)
    }
}

/// The matched and the canonical path of each of the given signals.
pub open spec fn matched_pairs(
    table: Seq<SignalView>,
    s: SelectionView,
    sids: Seq<usize>,
) -> Seq<PairView>
    decreases sids.len(),
{
    if sids.len() == 0 {
        Seq::empty()
    } else {
        let rest = matched_pairs(table, s, sids.drop_last());
        let g = table[sids.last() as int];
        match first_kept(s, g, 0) {
            Some(m) => rest.push((m, g.path)),
            None => rest,
        }
    }
}

/// The report on what a choice caught.
pub open spec fn report_of(table: Seq<SignalView>, s: SelectionView) -> ReportView {
    if selects_all(s) {
        ReportView { pairs: Seq::empty(), selective: false }
    } else {
        ReportView {
            pairs: pairs_sorted(matched_pairs(table, s, chosen(table, s))),
            selective: true,
        }
    }
}

/// Report what a choice caught, given the signals it keeps.
pub fn match_report(table: &Vec<SignalInfo>, sel: &Selection, sids: &Vec<Sid>) -> (r: MatchReport)
    requires
        table_ok(signal_views(table@)),
        sids@ == chosen(signal_views(table@), sel@),
        in_table(sids@, table@.len()),
    ensures
        r@ == report_of(signal_views(table@), sel@),
{
    if sel.is_all() {
        let r = MatchReport { pairs: Vec::new(), selective: false };
        assert(pair_views(r.pairs@) =~= Seq::empty());
        return r;
    }
    let ghost tab = signal_views(table@);
    let mut pairs: Vec<(String, String)> = Vec::new();
    let mut i: usize = 0;
    assert(sids@.take(0) =~= Seq::empty());
    assert(pair_views(pairs@) =~= Seq::empty());
    while i < sids.len()
        invariant
            i <= sids.len(),
            tab == signal_views(table@),
            table_ok(tab),
            in_table(sids@, table@.len()),
            pair_views(pairs@) == matched_pairs(tab, sel@, sids@.take(i as int)),
        decreases sids.len() - i,
    {
        let sid: Sid = sids[i];
        proof {
            assert(sids@[i as int] < table@.len());
            assert(sids@.take(i + 1).drop_last() =~= sids@.take(i as int));
            assert(sids@.take(i + 1).last() == sid);
            assert(tab[sid as int] == table@[sid as int]@);
        }
        let info: &SignalInfo = &table[sid];
        match sel.matched_alias(info) {
            Some(m) => {
                let ghost p0 = pair_views(pairs@);
                pairs.push((m.to_owned(), info.path.clone()));
                assert(pair_views(pairs@) =~= p0.push((m@, info.path@)));
            },
            None => {},
        }
        i += 1;
    }
    assert(sids@.take(i as int) =~= sids@);
    MatchReport { pairs: sort_pairs(&pairs), selective: true }
}

/// Sentences that explain a result.
pub struct Hints(Vec<String>);

impl View for Hints {
    type V = Seq<Seq<char>>;

    closed spec fn view(&self) -> Seq<Seq<char>> {
        views(self.0@)
    }
}

pub open spec fn with_hint(h: Seq<Seq<char>>, s: Option<Seq<char>>) -> Seq<Seq<char>> {
    match s {
        Some(t) => h.push(t),
        None => h,
    }
}

/// The sentences as one JSON value.
pub open spec fn hint_json(h: Seq<Seq<char>>) -> JsonView {
    if h.len() == 0 {
        JsonView::Null
    } else {
        JsonView::Str(joined(h, "; "@))
    }
}

impl Hints {
    pub fn new() -> (h: Hints)
        ensures
            h@ == Seq::<Seq<char>>::empty(),
    {
        let h = Hints(Vec::new());
        assert(h@ =~= Seq::empty());
        h
    }

    pub fn push(&mut self, s: String)
        ensures
            final(self)@ == old(self)@.push(s@),
    {
        let ghost h0 = self@;
        self.0.push(s);
        assert(self@ =~= h0.push(s@));
    }

    pub fn push_opt(&mut self, s: Option<String>)
        ensures
            final(self)@ == with_hint(old(self)@, opt_view(s)),
    {
        match s {
            Some(t) => {
                self.push(t);
            },
            None => {},
        }
    }

    /// Append the sentences as the member `hint`.
    pub fn attach(&self, obj: Obj) -> (o: Obj)
        ensures
            o@ == obj@.push(("hint"@, hint_json(self@))),
    {
        if self.0.len() == 0 {
            obj.push("hint", Json::Null)
        } else {
            obj.push("hint", Json::str(join(&self.0, "; ").as_str()))
        }
    }
}

impl Default for Hints {
    fn default() -> (h: Hints)
        ensures
            h@ == Seq::<Seq<char>>::empty(),
    {
        Hints::new()
    }
}

pub const NO_SIGNALS: &'static str = "the file declares no signals; its hierarchy is empty";

pub const SELECTION_EMPTY: &'static str =
    "the selection matched no signals; widen --filter/--scope, or run list to see what is there";

pub const NEVER_DUMPED_ONE: &'static str =
    "the selected signal carries no recorded data anywhere in the file: it is in the hierarchy but was never written to the dump, so no window will show it";

pub const NEVER_DUMPED_MANY: &'static str =
    "carry no recorded data anywhere in the file: they are in the hierarchy but were never written to the dump, so no window will show them";

/// The most signals that are looked at to see whether they carry any data.
pub const UNDUMPED_SCAN_CAP: usize = 8192;

/// The number of histories without a change.
pub open spec fn empties(seen: Seq<Sighting>) -> nat
    decreases seen.len(),
{
    if seen.len() == 0 {
        0
    } else {
        empties(seen.drop_last()) + (if seen.last().1.len() == 0 {
            1nat
        } else {
            0nat
        })
    }
}

proof fn lemma_empties_bound(seen: Seq<Sighting>)
    ensures
        empties(seen) <= seen.len(),
    decreases seen.len(),
{
    if seen.len() > 0 {
        lemma_empties_bound(seen.drop_last());
    }
}

struct EmptyCounter {
    n: usize,
    log: Ghost<Seq<Sighting>>,
}

impl TraceVisitor for EmptyCounter {
    closed spec fn ok(&self) -> bool {
        self.n == empties(self.log@)
    }

    closed spec fn seen(&self) -> Seq<Sighting> {
        self.log@
    }

    closed spec fn fixed(&self, other: &Self) -> bool {
        true
    }

    fn visit(&mut self, sid: Sid, trace: &SignalTrace) {
        let ghost log1 = self.log@.push((sid, trace@));
        proof {
            assert(log1.drop_last() =~= self.log@);
            lemma_empties_bound(self.log@);
        }
        if trace.is_empty() {
            self.n = self.n + 1;
        }
        self.log = Ghost(log1);
    }

    proof fn fixed_chain(&self, mid: &Self, first: &Self) {
    }

    proof fn fixed_self(&self) {
    }
}

/// How many of the signals carry no data, unless there are too many to look.
pub open spec fn undumped(w: WaveView, sids: Seq<usize>) -> Option<nat> {
    if sids.len() > UNDUMPED_SCAN_CAP {
        None
    } else {
        Some(empties(seen_of(w, sids)))
    }
}

/// The last tick of the file.
pub open spec fn last_tick(w: WaveView) -> Option<int> {
    match w.meta.time_range {
        Some((_, b)) => Some(b as int),
        None => None,
    }
}

/// Why a window shows nothing.
pub open spec fn empty_reason<T: Timescale>(
    w: WaveView,
    sids: Seq<usize>,
    selective: bool,
    t0: int,
    ts: &T,
) -> Seq<char> {
    let n = sids.len();
    if n == 0 && selective {
        SELECTION_EMPTY@
    } else if last_tick(w) is Some && t0 > last_tick(w)->0 {
        "the window begins at "@ + ts.shown(t0) + ", after the last event at "@ + ts.shown(
            last_tick(w)->0,
        )
    } else {
        match undumped(w, sids) {
            Some(k) => if k == n && n > 0 {
                if n == 1 {
                    NEVER_DUMPED_ONE@
                } else {
                    "the "@ + dec(n) + " selected signals "@ + NEVER_DUMPED_MANY@
                }
            } else if k > 0 {
                "no value changes in the window; "@ + dec(k) + " of the "@ + dec(n)
                    + " selected signals carry no recorded data at all"@
            } else {
                "no value changes in the window"@
            },
            None => "no value changes in the window"@,
        }
    }
}

/// How many of the signals carry no data, unless there are too many to look.
fn undumped_count<B: WaveformBackend>(wave: &mut Wave<B>, sids: &Vec<Sid>) -> (r: Option<usize>)
    requires
        old(wave).wf(),
        in_table(sids@, old(wave).table().len()),
    ensures
        final(wave).wf(),
        final(wave).same_wave(old(wave)),
        match r {
            Some(n) => undumped(old(wave).snap(), sids@) == Some(n as nat),
            None => undumped(old(wave).snap(), sids@) is None,
        },
{
    let n: usize = sids.len();
    if n > UNDUMPED_SCAN_CAP {
        return None;
    }
    let mut c = EmptyCounter { n: 0, log: Ghost(Seq::empty()) };
    wave.for_each_signal_batched(Some(sids), STREAMING_BATCH, &mut c);
    proof {
        old(wave).sightings_of_snap(sids@);
        assert(c.seen() =~= old(wave).sightings(sids@));
    }
    Some(c.n)
}

/// Say why a window shows nothing.
pub fn empty_window_reason<B: WaveformBackend, T: Timescale>(
    wave: &mut Wave<B>,
    selected: &Vec<Sid>,
    selective: bool,
    t0: i64,
    ts: &T,
) -> (s: String)
    requires
        old(wave).wf(),
        in_table(selected@, old(wave).table().len()),
    ensures
        final(wave).wf(),
        final(wave).same_wave(old(wave)),
        s@ == empty_reason(old(wave).snap(), selected@, selective, t0 as int, ts),
{
    let n: usize = selected.len();
    if n == 0 && selective {
        return SELECTION_EMPTY.to_owned();
    }
    match wave.time_range() {
        Some((_, mx)) => {
            if t0 > mx {
                let mut m: String = "the window begins at ".to_owned();
                m.push_str(ts.fmt_time(t0).as_str());
                m.push_str(", after the last event at ");
                m.push_str(ts.fmt_time(mx).as_str());
                return m;
            }
        },
        None => {},
    }
    match undumped_count(wave, selected) {
        Some(k) => {
            if k == n && n > 0 {
                if n == 1 {
                    return NEVER_DUMPED_ONE.to_owned();
                }
                let mut m: String = "the ".to_owned();
                m.push_str(usize_text(n).as_str());
                m.push_str(" selected signals ");
                m.push_str(NEVER_DUMPED_MANY);
                return m;
            }
            if k > 0 {
                let mut m: String = "no value changes in the window; ".to_owned();
                m.push_str(usize_text(k).as_str());
                m.push_str(" of the ");
                m.push_str(usize_text(n).as_str());
                m.push_str(" selected signals carry no recorded data at all");
                return m;
            }
            "no value changes in the window".to_owned()
        },
        None => "no value changes in the window".to_owned(),
    }
}

/// An optional tick as JSON.
pub open spec fn opt_tick_json(t: Option<int>) -> JsonView {
    match t {
        Some(v) => JsonView::Int(v),
        None => JsonView::Null,
    }
}

/// An optional tick as it is shown.
pub open spec fn opt_shown_json<T: Timescale>(t: Option<int>, ts: &T) -> JsonView {
    match t {
        Some(v) => JsonView::Str(ts.shown(v)),
        None => JsonView::Null,
    }
}

fn opt_shown<T: Timescale>(t: Option<i64>, ts: &T) -> (j: Json)
    ensures
        j@ == opt_shown_json(opt_tick(t), ts),
{
    match t {
        Some(v) => Json::str(ts.fmt_time(v).as_str()),
        None => Json::Null,
    }
}

/// A time window as JSON.
pub open spec fn window_view<T: Timescale>(t0: int, t1: Option<int>, ts: &T) -> JsonView {
    JsonView::Object(
        seq![
            ("begin_ticks"@, JsonView::Int(t0)),
            ("begin_h"@, JsonView::Str(ts.shown(t0))),
            ("end_ticks"@, opt_tick_json(t1)),
            ("end_h"@, opt_shown_json(t1, ts)),
        ],
    )
}

pub fn window_json<T: Timescale>(t0: i64, t1: Option<i64>, ts: &T) -> (j: Json)
    ensures
        j@ == window_view(t0 as int, opt_tick(t1), ts),
{
    let o: Obj = Obj::new().push("begin_ticks", Json::Int(t0)).push(
        "begin_h",
        Json::str(ts.fmt_time(t0).as_str()),
    ).push("end_ticks", Json::opt_int(t1)).push("end_h", opt_shown(t1, ts));
    assert(o@ =~= window_view(t0 as int, opt_tick(t1), ts)->Object_0);
    o.build()
}

/// The members that give a time: ticks and as it is shown.
pub open spec fn time_members<T: Timescale>(name: Seq<char>, t: Option<int>, ts: &T) -> Seq<
    (Seq<char>, JsonView),
> {
    seq![(name + "_ticks"@, opt_tick_json(t)), (name + "_h"@, opt_shown_json(t, ts))]
}

/// Append a time that may be absent.
pub fn push_opt_time<T: Timescale>(obj: Obj, name: &str, t: Option<i64>, ts: &T) -> (o: Obj)
    ensures
        o@ == obj@ + time_members(name@, opt_tick(t), ts),
{
    let mut a: String = name.to_owned();
    a.push_str("_ticks");
    let mut b: String = name.to_owned();
    b.push_str("_h");
    let o: Obj = obj.push(a.as_str(), Json::opt_int(t)).push(b.as_str(), opt_shown(t, ts));
    assert(o@ =~= obj@ + time_members(name@, opt_tick(t), ts));
    o
}

/// Append a time.
pub fn push_time<T: Timescale>(obj: Obj, name: &str, t: i64, ts: &T) -> (o: Obj)
    ensures
        o@ == obj@ + time_members(name@, Some(t as int), ts),
{
    push_opt_time(obj, name, Some(t), ts)
}

/// The members that count rows.
pub open spec fn count_members(shown: int, total: int, exact: bool, trunc: bool) -> Seq<
    (Seq<char>, JsonView),
> {
    seq![
        ("shown"@, count_view(shown)),
        ("truncated"@, JsonView::Bool(trunc)),
        ("total"@, count_view(total)),
        ("total_is_exact"@, JsonView::Bool(exact)),
    ]
}

/// Append the counts that every command gives.
pub fn push_counts(obj: Obj, shown: usize, total: usize, exact: bool, trunc: bool) -> (o: Obj)
    ensures
        o@ == obj@ + count_members(shown as int, total as int, exact, trunc),
{
    let o: Obj = obj.push("shown", count_json(shown)).push("truncated", Json::Bool(trunc)).push(
        "total",
        count_json(total),
    ).push("total_is_exact", Json::Bool(exact));
    assert(o@ =~= obj@ + count_members(shown as int, total as int, exact, trunc));
    o
}

pub open spec fn window_text<T: Timescale>(t0: int, t1: Option<int>, ts: &T) -> Seq<char> {
    "Window: "@ + ts.shown(t0) + ".."@ + match t1 {
        Some(t) => ts.shown(t),
        None => "(end)"@,
    }
}

/// The line that gives a time window.
pub fn window_line<T: Timescale>(t0: i64, t1: Option<i64>, ts: &T) -> (s: String)
    ensures
        s@ == window_text(t0 as int, opt_tick(t1), ts),
{
    let mut m: String = "Window: ".to_owned();
    m.push_str(ts.fmt_time(t0).as_str());
    m.push_str("..");
    match t1 {
        Some(t) => m.push_str(ts.fmt_time(t).as_str()),
        None => m.push_str("(end)"),
    }
    m
}

/// The paths of a signal, from `i` on, that a test on path and scope accepts,
/// with their scopes.
pub open spec fn paths_in_signal(
    s: SignalView,
    test: spec_fn(Seq<char>, Seq<char>) -> bool,
    i: int,
) -> Seq<PairView>
    decreases s.aliases.len() - i,
{
    if i >= s.aliases.len() {
        Seq::empty()
    } else {
        let rest = paths_in_signal(s, test, i + 1);
        if test(s.aliases[i], s.scopes[i]) {
            seq![(s.aliases[i], s.scopes[i])] + rest
        } else {
            rest
        }
    }
}

/// The paths of the signals from `i` on that a test accepts, with their
/// scopes.
pub open spec fn paths_in_table(
    table: Seq<SignalView>,
    test: spec_fn(Seq<char>, Seq<char>) -> bool,
    i: int,
) -> Seq<PairView>
    decreases table.len() - i,
{
    if i >= table.len() {
        Seq::empty()
    } else {
        paths_in_signal(table[i], test, 0) + paths_in_table(table, test, i + 1)
    }
}

pub open spec fn is_path(lower: Seq<char>) -> spec_fn(Seq<char>, Seq<char>) -> bool {
    |p: Seq<char>, s: Seq<char>| lowercase(p) == lower
}

pub open spec fn is_named(pats: Seq<PatternView>) -> spec_fn(Seq<char>, Seq<char>) -> bool {
    |p: Seq<char>, s: Seq<char>| path_matches(pats, p, s)
}

/// Which path a name means: the one that is spelled out, or else the only one
/// that it matches as a pattern. `role` says in the messages what the name is
/// for.
pub open spec fn path_meant(table: Seq<SignalView>, pattern: Seq<char>, role: Seq<char>) -> Result<
    PairView,
    Seq<char>,
> {
    let pat = trimmed(pattern);
    let exact = without_doubles(pairs_sorted(paths_in_table(table, is_path(lowercase(pat)), 0)));
    if exact.len() == 1 {
        Ok(exact[0])
    } else {
        match patterns_of(crate::condition::list_items(seq![pat]), MatchMode::Substring) {
            Err(e) => Err(role + ": "@ + e),
            Ok(pats) => {
                let hits = without_doubles(
                    pairs_sorted(paths_in_table(table, is_named(pats), 0)),
                );
                if hits.len() == 0 {
                    Err(role + " matches no signals: "@ + repr(pat))
                } else if hits.len() == 1 {
                    Ok(hits[0])
                } else {
                    Err(
                        role + " "@ + repr(pat) + " matches "@ + dec(hits.len())
                            + " signals; give the full hierarchical path. Examples: "@ + joined(
                            hits.take(least(5, hits.len() as int)).map_values(|p: PairView| p.0),
                            ", "@,
                        ),
                    )
                }
            },
        }
    }
}

/// A test on a path and its scope.
enum PathTest<'a> {
    Is(&'a str),
    Named(&'a Filters),
}

impl<'a> PathTest<'a> {
    spec fn holds(&self) -> spec_fn(Seq<char>, Seq<char>) -> bool {
        match self {
            PathTest::Is(lower) => is_path(lower@),
            PathTest::Named(f) => is_named(f@),
        }
    }

    fn test(&self, path: &str, scope: &str) -> (r: bool)
        ensures
            r == (self.holds())(path@, scope@),
    {
        match self {
            PathTest::Is(lower) => {
                let p: String = to_lower(path);
                same(p.as_str(), lower)
            },
            PathTest::Named(f) => f.matches_path_leaf(path, leaf_of(path, scope)),
        }
    }
}

fn collect_paths(table: &Vec<SignalInfo>, test: &PathTest) -> (r: Vec<(String, String)>)
    requires
        table_ok(signal_views(table@)),
    ensures
        pair_views(r@) == paths_in_table(signal_views(table@), test.holds(), 0),
{
    let ghost tab = signal_views(table@);
    let ghost h = test.holds();
    let mut r: Vec<(String, String)> = Vec::new();
    let mut i: usize = 0;
    assert(pair_views(r@) + paths_in_table(tab, h, 0) =~= paths_in_table(tab, h, 0));
    while i < table.len()
        invariant
            i <= table.len(),
            tab == signal_views(table@),
            table_ok(tab),
            h == test.holds(),
            pair_views(r@) + paths_in_table(tab, h, i as int) == paths_in_table(tab, h, 0),
        decreases table.len() - i,
    {
        let info: &SignalInfo = &table[i];
        let ghost g = info@;
        assert(tab[i as int] == g);
        assert(signal_ok(g));
        let ghost r0 = pair_views(r@);
        let mut j: usize = 0;
        assert(r0 + paths_in_signal(g, h, 0) =~= pair_views(r@) + paths_in_signal(g, h, 0));
        while j < info.aliases.len()
            invariant
                j <= info.aliases.len(),
                g == info@,
                signal_ok(g),
                h == test.holds(),
                r0 + paths_in_signal(g, h, 0) == pair_views(r@) + paths_in_signal(g, h, j as int),
            decreases info.aliases.len() - j,
        {
            let path: &str = info.aliases[j].as_str();
            let scope: &str = info.alias_scopes[j].as_str();
            assert(g.aliases[j as int] == path@ && g.scopes[j as int] == scope@);
            let ghost r1 = pair_views(r@);
            if test.test(path, scope) {
                r.push((path.to_owned(), scope.to_owned()));
                assert(pair_views(r@) =~= r1.push((path@, scope@)));
                assert(r1 + paths_in_signal(g, h, j as int) =~= pair_views(r@) + paths_in_signal(
                    g,
                    h,
                    j + 1,
                ));
            }
            j += 1;
        }
        proof {
            assert(paths_in_signal(g, h, j as int) =~= Seq::empty());
            assert(pair_views(r@) =~= r0 + paths_in_signal(g, h, 0));
            assert(r0 + paths_in_table(tab, h, i as int) =~= pair_views(r@) + paths_in_table(
                tab,
                h,
                i + 1,
            ));
        }
        i += 1;
    }
    assert(pair_views(r@) =~= paths_in_table(tab, h, 0));
    r
}

/// Find the path that a name means, with its scope.
pub fn resolve_signal_path(table: &Vec<SignalInfo>, pattern: &str, role: &str) -> (r: Result<
    (String, String),
    String,
>)
    requires
        table_ok(signal_views(table@)),
    ensures
        match r {
            Ok(p) => path_meant(signal_views(table@), pattern@, role@) == Ok::<
                PairView,
                Seq<char>,
            >((p.0@, p.1@)),
            Err(e) => path_meant(signal_views(table@), pattern@, role@) == Err::<
                PairView,
                Seq<char>,
            >(e@),
        },
{
    let pat: &str = trim(pattern);
    let lower: String = to_lower(pat);
    let exact: Vec<(String, String)> = drop_doubles(
        &sort_pairs(&collect_paths(table, &PathTest::Is(lower.as_str()))),
    );
    if exact.len() == 1 {
        return Ok((exact[0].0.clone(), exact[0].1.clone()));
    }
    let mut one: Vec<String> = Vec::new();
    one.push(pat.to_owned());
    assert(views(one@) =~= seq![pat@]);
    match Filters::parse(&one) {
        Err(e) => {
            let mut m: String = role.to_owned();
            m.push_str(": ");
            m.push_str(e.0.as_str());
            Err(m)
        },
        Ok(filters) => {
            let hits: Vec<(String, String)> = drop_doubles(
                &sort_pairs(&collect_paths(table, &PathTest::Named(&filters))),
            );
            let ghost hv = pair_views(hits@);
            let n: usize = hits.len();
            if n == 0 {
                let mut m: String = role.to_owned();
                m.push_str(" matches no signals: ");
                m.push_str(pyrepr(pat).as_str());
                return Err(m);
            }
            if n == 1 {
                return Ok((hits[0].0.clone(), hits[0].1.clone()));
            }
            let few: usize = if n > 5 {
                5
            } else {
                n
            };
            let mut examples: Vec<String> = Vec::new();
            let mut i: usize = 0;
            while i < few
                invariant
                    i <= few <= hits.len(),
                    hv == pair_views(hits@),
                    examples.len() == i,
                    forall|k: int| 0 <= k < i ==> (#[trigger] examples@[k])@ == hv[k].0,
                decreases few - i,
            {
                assert(hv[i as int].0 == hits@[i as int].0@);
                examples.push(hits[i].0.clone());
                i += 1;
            }
            assert(views(examples@) =~= hv.take(few as int).map_values(|p: PairView| p.0));
            let mut m: String = role.to_owned();
            m.push_str(" ");
            m.push_str(pyrepr(pat).as_str());
            m.push_str(" matches ");
            m.push_str(usize_text(n).as_str());
            m.push_str(" signals; give the full hierarchical path. Examples: ");
            m.push_str(join(&examples, ", ").as_str());
            Err(m)
        },
    }
}

} // verus!
