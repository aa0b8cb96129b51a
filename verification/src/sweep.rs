//! Evaluating search clauses over a replay: the spans in which a condition
//! holds, and the ticks at which it fires.

use vstd::prelude::*;

use crate::condition::{condition_match, term_match, Op, Target, TargetView};
use crate::format::{fmt_val, value_text, ValueKind};
use crate::history::raw_text;
use crate::replay::{event_views, events_in, DumpEvent, EventView};
use crate::signal::{signal_views, SignalInfo, SignalView};
use crate::text::{clone_opt, opt_view, same, views};

verus! {

/// What a term asks of its signal.
#[derive(Debug)]
pub enum ResolvedTerm {
    /// A comparison with the signal's current value.
    Level { op: Op, target: Target, width: u32, kind: ValueKind, value_text: String },
    /// The signal changes at the tick looked at.
    Changed,
}

/// A term bound to a signal.
#[derive(Debug)]
pub struct ResolvedCond {
    pub sid: usize,
    pub term: ResolvedTerm,
    /// The term as written.
    pub original: String,
    pub path: String,
}

pub enum BoundView {
    Level { op: Op, target: TargetView, width: u32, kind: ValueKind, value_text: Seq<char> },
    Changed,
}

pub struct CondView {
    pub sid: nat,
    pub term: BoundView,
    pub original: Seq<char>,
    pub path: Seq<char>,
}

impl View for ResolvedCond {
    type V = CondView;

    open spec fn view(&self) -> CondView {
        CondView {
            sid: self.sid as nat,
            term: match self.term {
                ResolvedTerm::Level { op, target, width, kind, value_text } => BoundView::Level {
                    op,
                    target: target@,
                    width,
                    kind,
                    value_text: value_text@,
                },
                ResolvedTerm::Changed => BoundView::Changed,
            },
            original: self.original@,
            path: self.path@,
        }
    }
}

pub open spec fn cond_views(v: Seq<ResolvedCond>) -> Seq<CondView> {
    v.map_values(|c: ResolvedCond| c@)
}

pub open spec fn clause_views(v: Seq<Vec<ResolvedCond>>) -> Seq<Seq<CondView>> {
    v.map_values(|c: Vec<ResolvedCond>| cond_views(c@))
}

/// The recorded text of every signal, as far as it is defined.
pub open spec fn state_views(v: Seq<Option<String>>) -> Seq<Option<Seq<char>>> {
    v.map_values(|s: Option<String>| opt_view(s))
}

/// Does a term hold? `changed` lists the signals that change at the tick
/// looked at.
pub open spec fn cond_holds(
    state: Seq<Option<Seq<char>>>,
    changed: Seq<bool>,
    c: CondView,
) -> bool {
    match c.term {
        BoundView::Changed => c.sid < changed.len() && changed[c.sid as int],
        BoundView::Level { op, target, width, kind, value_text } => {
            let raw = state[c.sid as int];
            let bits = if kind == ValueKind::Bits {
                raw
            } else {
                None
            };
            term_match(bits, raw, op, target, width as nat)
        },
    }
}

/// Do all terms of a clause hold?
pub open spec fn clause_holds(
    state: Seq<Option<Seq<char>>>,
    changed: Seq<bool>,
    clause: Seq<CondView>,
) -> bool {
    forall|i: int| 0 <= i < clause.len() ==> cond_holds(state, changed, #[trigger] clause[i])
}

/// Does some clause hold?
pub open spec fn any_clause(
    state: Seq<Option<Seq<char>>>,
    changed: Seq<bool>,
    clauses: Seq<Seq<CondView>>,
) -> bool {
    exists|i: int| 0 <= i < clauses.len() && clause_holds(state, changed, #[trigger] clauses[i])
}

/// Are the signals of all clauses in a table of `n` signals?
pub open spec fn clauses_in(clauses: Seq<Seq<CondView>>, n: nat) -> bool {
    forall|i: int, j: int|
        0 <= i < clauses.len() && 0 <= j < clauses[i].len() ==> (#[trigger] clauses[i][j]).sid < n
}

fn str_of(s: &Option<String>) -> (r: Option<&str>)
    ensures
        crate::condition::str_view(r) == opt_view(*s),
{
    match s {
        Some(t) => Some(t.as_str()),
        None => None,
    }
}

/// Do all terms of a clause hold?
pub fn conditions_hold(
    state: &Vec<Option<String>>,
    changed: &Vec<bool>,
    conds: &Vec<ResolvedCond>,
) -> (r: bool)
    requires
        forall|j: int| 0 <= j < conds.len() ==> (#[trigger] conds@[j]).sid < state.len(),
    ensures
        r == clause_holds(state_views(state@), changed@, cond_views(conds@)),
{
    let ghost cs = cond_views(conds@);
    let ghost st = state_views(state@);
    let mut i: usize = 0;
    while i < conds.len()
        invariant
            i <= conds.len(),
            cs == cond_views(conds@),
            st == state_views(state@),
            forall|j: int| 0 <= j < conds.len() ==> (#[trigger] conds@[j]).sid < state.len(),
            forall|j: int| 0 <= j < i ==> cond_holds(st, changed@, #[trigger] cs[j]),
        decreases conds.len() - i,
    {
        let c: &ResolvedCond = &conds[i];
        assert(cs[i as int] == c@);
        let ok: bool = match &c.term {
            ResolvedTerm::Changed => c.sid < changed.len() && changed[c.sid],
            ResolvedTerm::Level { op, target, width, kind, value_text } => {
                let raw: Option<&str> = str_of(&state[c.sid]);
                assert(st[c.sid as int] == opt_view(state@[c.sid as int]));
                let bits: Option<&str> = match kind {
                    ValueKind::Bits => raw,
                    _ => None,
                };
                condition_match(bits, raw, *op, target, *width)
            },
        };
        if !ok {
            assert(!cond_holds(st, changed@, cs[i as int]));
            return false;
        }
        i += 1;
    }
    true
}

/// Does some clause hold?
pub fn any_clause_holds(
    state: &Vec<Option<String>>,
    changed: &Vec<bool>,
    clauses: &Vec<Vec<ResolvedCond>>,
) -> (r: bool)
    requires
        clauses_in(clause_views(clauses@), state@.len()),
    ensures
        r == any_clause(state_views(state@), changed@, clause_views(clauses@)),
{
    let ghost cv = clause_views(clauses@);
    let mut i: usize = 0;
    while i < clauses.len()
        invariant
            i <= clauses.len(),
            cv == clause_views(clauses@),
            clauses_in(cv, state@.len()),
            forall|k: int|
                0 <= k < i ==> !clause_holds(state_views(state@), changed@, #[trigger] cv[k]),
        decreases clauses.len() - i,
    {
        proof {
            assert(cv[i as int] == cond_views(clauses@[i as int]@));
            assert forall|j: int| 0 <= j < clauses@[i as int]@.len() implies (
            #[trigger] clauses@[i as int]@[j]).sid < state@.len() by {
                assert(cv[i as int][j].sid < state@.len());
            }
        }
        if conditions_hold(state, changed, &clauses[i]) {
            return true;
        }
        i += 1;
    }
    false
}

/// The recorded texts after the given events, none being defined before.
pub open spec fn applied(n: nat, events: Seq<EventView>) -> Seq<Option<Seq<char>>>
    decreases events.len(),
{
    if events.len() == 0 {
        Seq::new(n, |i: int| None::<Seq<char>>)
    } else {
        applied(n, events.drop_last()).update(
            events.last().sid as int,
            Some(raw_text(events.last().value)),
        )
    }
}

/// The end of the run of events that share the tick of event `i`.
pub open spec fn group_end(events: Seq<EventView>, i: int) -> int
    decreases events.len() - i,
{
    if i + 1 < events.len() && events[i + 1].tick == events[i].tick {
        group_end(events, i + 1)
    } else {
        i + 1
    }
}

/// The first event from `i` on that is later than `t`.
pub open spec fn first_after(events: Seq<EventView>, t: int, i: int) -> int
    decreases events.len() - i,
{
    if i < events.len() && events[i].tick <= t {
        first_after(events, t, i + 1)
    } else {
        i
    }
}

/// What a search asks: the clauses, the signal table and the signals shown.
pub struct Question {
    pub clauses: Seq<Seq<CondView>>,
    pub table: Seq<SignalView>,
    pub show: Seq<usize>,
}

/// The recorded texts of the signals shown.
pub open spec fn show_raws(q: Question, state: Seq<Option<Seq<char>>>) -> Seq<Option<Seq<char>>> {
    q.show.map_values(|s: usize| state[s as int])
}

/// A value as it is shown.
pub open spec fn shown_text(raw: Option<Seq<char>>, s: SignalView) -> Seq<char> {
    match raw {
        Some(r) => value_text(r, s.kind, s.width),
        None => "(undef)"@,
    }
}

/// The values of the signals shown, as texts.
pub open spec fn show_texts(q: Question, raws: Seq<Option<Seq<char>>>) -> Seq<Seq<char>> {
    Seq::new(q.show.len(), |i: int| shown_text(raws[i], q.table[q.show[i] as int]))
}

/// The search at one tick: the recorded texts of the signals shown and, where
/// the condition holds, the texts they are shown as.
pub struct PointView {
    pub tick: int,
    pub key: Option<Seq<Seq<char>>>,
    pub raws: Seq<Option<Seq<char>>>,
}

pub open spec fn point_at(q: Question, tick: int, state: Seq<Option<Seq<char>>>) -> PointView {
    let raws = show_raws(q, state);
    PointView {
        tick,
        key: if any_clause(state, Seq::empty(), q.clauses) {
            Some(show_texts(q, raws))
        } else {
            None
        },
        raws,
    }
}

/// One point for each tick among the events from `i` on.
pub open spec fn later_points(q: Question, events: Seq<EventView>, i: int) -> Seq<PointView>
    decreases events.len() - i,
{
    if i >= events.len() {
        Seq::empty()
    } else {
        let j = group_end(events, i);
        if i < j <= events.len() {
            seq![point_at(q, events[i].tick, applied(q.table.len(), events.take(j)))]
                + later_points(q, events, j)
        } else {
            Seq::empty()
        }
    }
}

/// One point at `t0`, and one for each later tick among the events.
pub open spec fn points(q: Question, events: Seq<EventView>, t0: int) -> Seq<PointView> {
    let i = first_after(events, t0, 0);
    seq![point_at(q, t0, applied(q.table.len(), events.take(i)))] + later_points(q, events, i)
}

/// The number of points at the front that share the key of the first.
pub open spec fn run_length(ps: Seq<PointView>) -> int
    decreases ps.len(),
{
    if ps.len() < 2 || ps[1].key != ps[0].key {
        if ps.len() == 0 {
            0
        } else {
            1
        }
    } else {
        1 + run_length(ps.drop_first())
    }
}

/// A span in which the condition holds and the values shown stay as they are.
pub struct SpanView {
    pub begin: int,
    pub end: int,
    /// The values shown, as texts.
    pub texts: Seq<Seq<char>>,
    /// The values shown, as recorded at the beginning.
    pub raws: Seq<Option<Seq<char>>>,
}

/// The spans of a list of points: each longest run of points with one key
/// where the condition holds, up to the next point, the last one up to `t1`.
pub open spec fn spans(ps: Seq<PointView>, t1: int) -> Seq<SpanView>
    decreases ps.len(),
{
    if ps.len() == 0 {
        Seq::empty()
    } else {
        let n = run_length(ps);
        let end = if 0 < n < ps.len() {
            ps[n].tick
        } else {
            t1
        };
        let rest = if 0 < n < ps.len() {
            spans(ps.skip(n), t1)
        } else {
            Seq::empty()
        };
        match ps[0].key {
            Some(texts) => seq![
                SpanView { begin: ps[0].tick, end, texts, raws: ps[0].raws },
            ] + rest,
            None => rest,
        }
    }
}

/// The spans from `t0` to `t1` in which the condition holds. An empty window
/// has none.
pub open spec fn search_spans(q: Question, events: Seq<EventView>, t0: int, t1: int) -> Seq<SpanView> {
    if t0 == t1 {
        Seq::empty()
    } else {
        spans(points(q, events, t0), t1)
    }
}

/// Does signal `s` change among the events `i..j`, which share a tick? The
/// first definition of a value is not a change; of an event variable, every
/// occurrence is one (but for an initialisation at tick zero).
pub open spec fn changes_at(
    q: Question,
    events: Seq<EventView>,
    before: Seq<Option<Seq<char>>>,
    i: int,
    j: int,
    s: int,
) -> bool {
    exists|k: int| i <= k < j && #[trigger] is_change(q, events[k], before, s)
}

pub open spec fn is_change(
    q: Question,
    e: EventView,
    before: Seq<Option<Seq<char>>>,
    s: int,
) -> bool {
    &&& e.sid == s
    &&& !(e.tick == 0 && before[s] is None)
    &&& q.table[s].kind == ValueKind::Event || (before[s] is Some && before[s]
        != Some(raw_text(e.value)))
}

/// A tick at which the search fires, with the values shown as recorded then.
pub struct FiringView {
    pub tick: int,
    pub raws: Seq<Option<Seq<char>>>,
}

/// The ticks among the events from `i` on at which some clause holds.
pub open spec fn firings(q: Question, events: Seq<EventView>, i: int) -> Seq<FiringView>
    decreases events.len() - i,
{
    if i >= events.len() {
        Seq::empty()
    } else {
        let j = group_end(events, i);
        if i < j <= events.len() {
            let rest = firings(q, events, j);
            let before = applied(q.table.len(), events.take(i));
            let after = applied(q.table.len(), events.take(j));
            let changed = Seq::new(
                q.table.len(),
                |s: int| changes_at(q, events, before, i, j, s),
            );
            if any_clause(after, changed, q.clauses) {
                seq![FiringView { tick: events[i].tick, raws: show_raws(q, after) }] + rest
            } else {
                rest
            }
        } else {
            Seq::empty()
        }
    }
}

/// The ticks from `t0` on at which the search fires.
pub open spec fn search_firings(q: Question, events: Seq<EventView>, t0: int) -> Seq<FiringView> {
    firings(q, events, first_after(events, t0 - 1, 0))
}

/// At most `limit` rows, or all of them when `limit` is zero.
pub open spec fn first_rows<A>(rows: Seq<A>, limit: usize) -> Seq<A> {
    if limit == 0 || rows.len() <= limit {
        rows
    } else {
        rows.take(limit as int)
    }
}

/// The number of rows counted: one more than the limit when there are more.
pub open spec fn rows_counted(n: nat, limit: usize) -> nat {
    if limit == 0 || n <= limit {
        n
    } else {
        limit as nat + 1
    }
}

/// A point of the sweep.
pub struct Point {
    pub tick: i64,
    pub key: Option<Vec<String>>,
    pub raws: Vec<Option<String>>,
}

impl View for Point {
    type V = PointView;

    open spec fn view(&self) -> PointView {
        PointView {
            tick: self.tick as int,
            key: match self.key {
                Some(t) => Some(views(t@)),
                None => None,
            },
            raws: state_views(self.raws@),
        }
    }
}

pub open spec fn point_views(v: Seq<Point>) -> Seq<PointView> {
    v.map_values(|p: Point| p@)
}

/// A span in which the condition holds.
#[derive(Debug)]
pub struct IntervalRow {
    pub begin_ticks: i64,
    pub end_ticks: i64,
    pub values: Vec<String>,
    pub raws: Vec<Option<String>>,
}

impl View for IntervalRow {
    type V = SpanView;

    open spec fn view(&self) -> SpanView {
        SpanView {
            begin: self.begin_ticks as int,
            end: self.end_ticks as int,
            texts: views(self.values@),
            raws: state_views(self.raws@),
        }
    }
}

pub open spec fn span_views(v: Seq<IntervalRow>) -> Seq<SpanView> {
    v.map_values(|r: IntervalRow| r@)
}

/// A tick at which the search fires.
#[derive(Debug)]
pub struct Firing {
    pub time_ticks: i64,
    pub raws: Vec<Option<String>>,
}

impl View for Firing {
    type V = FiringView;

    open spec fn view(&self) -> FiringView {
        FiringView { tick: self.time_ticks as int, raws: state_views(self.raws@) }
    }
}

pub open spec fn firing_views(v: Seq<Firing>) -> Seq<FiringView> {
    v.map_values(|f: Firing| f@)
}

/// Is everything a search names in the table?
pub open spec fn question_ok(q: Question) -> bool {
    &&& clauses_in(q.clauses, q.table.len())
    &&& forall|i: int| 0 <= i < q.show.len() ==> (#[trigger] q.show[i]) < q.table.len()
}

fn blank_state(n: usize) -> (v: Vec<Option<String>>)
    ensures
        state_views(v@) == applied(n as nat, Seq::empty()),
{
    let mut v: Vec<Option<String>> = Vec::new();
    let mut i: usize = 0;
    while i < n
        invariant
            i <= n,
            v.len() == i,
            forall|k: int| 0 <= k < i ==> (#[trigger] v@[k]) is None,
        decreases n - i,
    {
        v.push(None);
        i += 1;
    }
    assert(state_views(v@) =~= applied(n as nat, Seq::empty()));
    v
}

/// Record event `k` in the state.
fn apply_event(state: &mut Vec<Option<String>>, events: &Vec<DumpEvent>, k: usize)
    requires
        k < events.len(),
        events_in(event_views(events@), old(state)@.len()),
        state_views(old(state)@) == applied(
            old(state)@.len(),
            event_views(events@).take(k as int),
        ),
    ensures
        final(state)@.len() == old(state)@.len(),
        state_views(final(state)@) == applied(
            old(state)@.len(),
            event_views(events@).take(k + 1),
        ),
{
    let ghost ev = event_views(events@);
    let ghost s0 = state@;
    let e: &DumpEvent = &events[k];
    assert(ev[k as int] == e@);
    let text: String = e.value.raw_str();
    let ghost t = text@;
    state.set(e.sid, Some(text));
    proof {
        assert(ev.take(k + 1).drop_last() =~= ev.take(k as int));
        assert(ev.take(k + 1).last() == e@);
        assert(state_views(state@) =~= state_views(s0).update(e.sid as int, Some(t)));
    }
}

fn raws_of(state: &Vec<Option<String>>, show: &Vec<usize>, Ghost(q): Ghost<Question>) -> (v: Vec<
    Option<String>,
>)
    requires
        q.show == show@,
        state@.len() == q.table.len(),
        question_ok(q),
    ensures
        state_views(v@) == show_raws(q, state_views(state@)),
{
    let mut v: Vec<Option<String>> = Vec::new();
    let mut i: usize = 0;
    while i < show.len()
        invariant
            i <= show.len(),
            q.show == show@,
            state@.len() == q.table.len(),
            question_ok(q),
            v.len() == i,
            forall|k: int|
                0 <= k < i ==> opt_view(#[trigger] v@[k]) == opt_view(state@[show@[k] as int]),
        decreases show.len() - i,
    {
        assert(q.show[i as int] < q.table.len());
        v.push(clone_opt(&state[show[i]]));
        i += 1;
    }
    assert(state_views(v@) =~= show_raws(q, state_views(state@)));
    v
}

/// A value as it is shown.
pub fn show_value(raw: &Option<String>, info: &SignalInfo) -> (s: String)
    ensures
        s@ == shown_text(opt_view(*raw), info@),
{
    match raw {
        Some(r) => fmt_val(r.as_str(), info.kind, info.width),
        None => "(undef)".to_owned(),
    }
}

/// The values of the signals shown, as texts.
pub fn show_values(table: &Vec<SignalInfo>, raws: &Vec<Option<String>>, show: &Vec<usize>) -> (v: Vec<
    String,
>)
    requires
        raws.len() == show.len(),
        forall|i: int| 0 <= i < show.len() ==> (#[trigger] show@[i]) < table.len(),
    ensures
        views(v@) == show_texts(
            (Question { clauses: Seq::empty(), table: signal_views(table@), show: show@ }),
            state_views(raws@),
        ),
{
    let mut v: Vec<String> = Vec::new();
    let mut i: usize = 0;
    while i < show.len()
        invariant
            i <= show.len() == raws.len(),
            forall|k: int| 0 <= k < show.len() ==> (#[trigger] show@[k]) < table.len(),
            v.len() == i,
            forall|k: int|
                0 <= k < i ==> (#[trigger] v@[k])@ == shown_text(
                    opt_view(raws@[k]),
                    table@[show@[k] as int]@,
                ),
        decreases show.len() - i,
    {
        assert(show@[i as int] < table.len());
        v.push(show_value(&raws[i], &table[show[i]]));
        i += 1;
    }
    assert(views(v@) =~= show_texts(
        Question { clauses: Seq::empty(), table: signal_views(table@), show: show@ },
        state_views(raws@),
    ));
    v
}

fn make_point(
    table: &Vec<SignalInfo>,
    clauses: &Vec<Vec<ResolvedCond>>,
    show: &Vec<usize>,
    tick: i64,
    state: &Vec<Option<String>>,
    Ghost(q): Ghost<Question>,
) -> (p: Point)
    requires
        q.clauses == clause_views(clauses@),
        q.table == signal_views(table@),
        q.show == show@,
        question_ok(q),
        state@.len() == q.table.len(),
    ensures
        p@ == point_at(q, tick as int, state_views(state@)),
{
    let none: Vec<bool> = Vec::new();
    assert(none@ =~= Seq::empty());
    let raws: Vec<Option<String>> = raws_of(state, show, Ghost(q));
    proof {
        assert(state_views(raws@).len() == q.show.len());
        assert forall|i: int| 0 <= i < show@.len() implies (#[trigger] show@[i]) < table@.len() by {
            assert(q.show[i] < q.table.len());
        }
    }
    if any_clause_holds(state, &none, clauses) {
        let texts: Vec<String> = show_values(table, &raws, show);
        proof {
            let q0 = Question { clauses: Seq::empty(), table: signal_views(table@), show: show@ };
            assert(show_texts(q0, state_views(raws@)) =~= show_texts(q, state_views(raws@)));
        }
        Point { tick, key: Some(texts), raws }
    } else {
        Point { tick, key: None, raws }
    }
}

/// One point for `t0` and one for each later tick among the events.
fn collect_points(
    table: &Vec<SignalInfo>,
    clauses: &Vec<Vec<ResolvedCond>>,
    show: &Vec<usize>,
    events: &Vec<DumpEvent>,
    t0: i64,
    Ghost(q): Ghost<Question>,
) -> (ps: Vec<Point>)
    requires
        q.clauses == clause_views(clauses@),
        q.table == signal_views(table@),
        q.show == show@,
        question_ok(q),
        events_in(event_views(events@), q.table.len()),
    ensures
        point_views(ps@) == points(q, event_views(events@), t0 as int),
{
    let ghost ev = event_views(events@);
    let n: usize = table.len();
    let mut state: Vec<Option<String>> = blank_state(n);
    let mut i: usize = 0;
    assert(ev.take(0) =~= Seq::empty());
    assert(state_views(state@).len() == n);
    while i < events.len() && events[i].tick <= t0
        invariant
            i <= events.len(),
            ev == event_views(events@),
            n == q.table.len(),
            events_in(ev, n as nat),
            state@.len() == n,
            state_views(state@) == applied(n as nat, ev.take(i as int)),
            first_after(ev, t0 as int, 0) == first_after(ev, t0 as int, i as int),
        decreases events.len() - i,
    {
        assert(ev[i as int] == events@[i as int]@);
        apply_event(&mut state, events, i);
        i += 1;
    }
    proof {
        if i < events.len() {
            assert(ev[i as int] == events@[i as int]@);
        }
        assert(first_after(ev, t0 as int, 0) == i);
    }
    let mut ps: Vec<Point> = Vec::new();
    let first: Point = make_point(table, clauses, show, t0, &state, Ghost(q));
    ps.push(first);
    let ghost want = points(q, ev, t0 as int);
    assert(point_views(ps@) + later_points(q, ev, i as int) =~= want);
    while i < events.len()
        invariant
            i <= events.len(),
            ev == event_views(events@),
            n == q.table.len(),
            events_in(ev, n as nat),
            state@.len() == n,
            state_views(state@) == applied(n as nat, ev.take(i as int)),
            q.clauses == clause_views(clauses@),
            q.table == signal_views(table@),
            q.show == show@,
            question_ok(q),
            want == point_views(ps@) + later_points(q, ev, i as int),
        decreases events.len() - i,
    {
        let start: usize = i;
        let tick: i64 = events[i].tick;
        apply_event(&mut state, events, i);
        i += 1;
        assert(ev[start as int] == events@[start as int]@);
        while i < events.len() && events[i].tick == tick
            invariant
                start < i <= events.len(),
                ev == event_views(events@),
                n == q.table.len(),
                events_in(ev, n as nat),
                state@.len() == n,
                state_views(state@) == applied(n as nat, ev.take(i as int)),
                tick == ev[start as int].tick,
                ev[i - 1].tick == tick,
                group_end(ev, start as int) == group_end(ev, i - 1),
            decreases events.len() - i,
        {
            assert(ev[i as int] == events@[i as int]@);
            apply_event(&mut state, events, i);
            i += 1;
        }
        proof {
            if i < events.len() {
                assert(ev[i as int] == events@[i as int]@);
            }
            assert(group_end(ev, start as int) == i);
        }
        let ghost p0 = point_views(ps@);
        let p: Point = make_point(table, clauses, show, tick, &state, Ghost(q));
        ps.push(p);
        proof {
            assert(point_views(ps@) =~= p0.push(p@));
            assert(p0 + later_points(q, ev, start as int) =~= point_views(ps@) + later_points(
                q,
                ev,
                i as int,
            ));
        }
    }
    assert(want =~= point_views(ps@));
    ps
}

/// Are two lists of texts the same?
pub fn same_texts(x: &Vec<String>, y: &Vec<String>) -> (r: bool)
    ensures
        r == (views(x@) == views(y@)),
{
    if x.len() != y.len() {
        assert(views(x@).len() != views(y@).len());
        return false;
    }
    let mut i: usize = 0;
    while i < x.len()
        invariant
            i <= x.len() == y.len(),
            forall|k: int| 0 <= k < i ==> (#[trigger] x@[k])@ == y@[k]@,
        decreases x.len() - i,
    {
        if !same(&x[i], &y[i]) {
            assert(views(x@)[i as int] != views(y@)[i as int]);
            return false;
        }
        i += 1;
    }
    assert(views(x@) =~= views(y@));
    true
}

fn same_key(a: &Option<Vec<String>>, b: &Option<Vec<String>>) -> (r: bool)
    ensures
        r == (key_view(*a) == key_view(*b)),
{
    match (a, b) {
        (None, None) => true,
        (Some(x), Some(y)) => same_texts(x, y),
        _ => false,
    }
}

spec fn key_view(k: Option<Vec<String>>) -> Option<Seq<Seq<char>>> {
    match k {
        Some(t) => Some(views(t@)),
        None => None,
    }
}

fn clone_raws(v: &Vec<Option<String>>) -> (r: Vec<Option<String>>)
    ensures
        state_views(r@) == state_views(v@),
{
    let mut r: Vec<Option<String>> = Vec::new();
    let mut i: usize = 0;
    while i < v.len()
        invariant
            i <= v.len(),
            r.len() == i,
            forall|k: int| 0 <= k < i ==> opt_view(#[trigger] r@[k]) == opt_view(v@[k]),
        decreases v.len() - i,
    {
        r.push(clone_opt(&v[i]));
        i += 1;
    }
    assert(state_views(r@) =~= state_views(v@));
    r
}

proof fn lemma_run_step(ps: Seq<PointView>, k: int)
    requires
        0 < k <= ps.len(),
        forall|i: int| 0 <= i < k ==> (#[trigger] ps[i]).key == ps[0].key,
        k == ps.len() || ps[k].key != ps[0].key,
    ensures
        run_length(ps) == k,
    decreases ps.len(),
{
    if ps.len() >= 2 && ps[1].key == ps[0].key {
        let less = ps.drop_first();
        if k == 1 {
            assert(ps[k].key != ps[0].key);
        }
        assert forall|i: int| 0 <= i < k - 1 implies (#[trigger] less[i]).key == less[0].key by {
            assert(ps[i + 1].key == ps[0].key);
        }
        lemma_run_step(less, k - 1);
    } else if ps.len() >= 2 && k > 1 {
        assert(ps[1].key == ps[0].key);
    }
}

/// The first `limit` spans of a list of points, with the number counted and
/// whether some were left out.
fn spans_of(ps: &Vec<Point>, t1: i64, limit: usize) -> (r: (Vec<IntervalRow>, usize, bool))
    ensures
        span_views(r.0@) == first_rows(spans(point_views(ps@), t1 as int), limit),
        r.1 == rows_counted(spans(point_views(ps@), t1 as int).len(), limit),
        r.2 == (limit != 0 && spans(point_views(ps@), t1 as int).len() > limit),
{
    let ghost all = point_views(ps@);
    let ghost want = spans(all, t1 as int);
    let mut rows: Vec<IntervalRow> = Vec::new();
    let mut i: usize = 0;
    assert(all.skip(0) =~= all);
    assert(span_views(rows@) + spans(all.skip(0), t1 as int) =~= want);
    while i < ps.len()
        invariant
            i <= ps.len(),
            rows.len() <= i,
            all == point_views(ps@),
            want == spans(all, t1 as int),
            want == span_views(rows@) + spans(all.skip(i as int), t1 as int),
            limit == 0 || rows.len() <= limit,
        decreases ps.len() - i,
    {
        let start: usize = i;
        let ghost tail = all.skip(start as int);
        i += 1;
        while i < ps.len() && same_key(&ps[i].key, &ps[start].key)
            invariant
                start < i <= ps.len(),
                all == point_views(ps@),
                forall|k: int| start <= k < i ==> (#[trigger] all[k]).key == all[start as int].key,
            decreases ps.len() - i,
        {
            assert(all[i as int] == ps@[i as int]@);
            assert(all[start as int] == ps@[start as int]@);
            i += 1;
        }
        proof {
            assert(all[start as int] == ps@[start as int]@);
            if i < ps.len() {
                assert(all[i as int] == ps@[i as int]@);
            }
            assert forall|k: int| 0 <= k < i - start implies (#[trigger] tail[k]).key == tail[0].key by {
                assert(tail[k] == all[start + k]);
            }
            lemma_run_step(tail, i - start);
            if i < ps.len() {
                assert(tail.skip(i - start) =~= all.skip(i as int));
                assert(tail[i - start] == all[i as int]);
            } else {
                assert(all.skip(i as int) =~= Seq::empty());
            }
        }
        match &ps[start].key {
            Some(texts) => {
                if limit != 0 && rows.len() >= limit {
                    proof {
                        assert(want.take(limit as int) =~= span_views(rows@));
                        assert(spans(tail, t1 as int).len() >= 1);
                    }
                    return (rows, limit + 1, true);
                }
                let end: i64 = if i < ps.len() {
                    ps[i].tick
                } else {
                    t1
                };
                let ghost r0 = span_views(rows@);
                let row = IntervalRow {
                    begin_ticks: ps[start].tick,
                    end_ticks: end,
                    values: crate::text::clone_strings(texts),
                    raws: clone_raws(&ps[start].raws),
                };
                rows.push(row);
                proof {
                    assert(span_views(rows@) =~= r0.push(row@));
                    assert(spans(tail, t1 as int) =~= seq![row@] + spans(
                        all.skip(i as int),
                        t1 as int,
                    ));
                    assert(want =~= span_views(rows@) + spans(all.skip(i as int), t1 as int));
                }
            },
            None => {},
        }
    }
    assert(all.skip(i as int) =~= Seq::empty());
    assert(want =~= span_views(rows@));
    let n: usize = rows.len();
    (rows, n, false)
}

/// The spans from `t0` to `t1` in which some clause holds, split where the
/// values shown change; at most `limit` of them unless it is zero. `events`
/// are the changes up to `t1` of the signals involved, in replay order.
pub fn search_interval_collect(
    table: &Vec<SignalInfo>,
    clauses: &Vec<Vec<ResolvedCond>>,
    show: &Vec<usize>,
    events: &Vec<DumpEvent>,
    t0: i64,
    t1: i64,
    limit: usize,
) -> (r: (Vec<IntervalRow>, usize, bool))
    requires
        question_ok(
            Question {
                clauses: clause_views(clauses@),
                table: signal_views(table@),
                show: show@,
            },
        ),
        events_in(event_views(events@), table@.len()),
    ensures
        ({
            let q = Question {
                clauses: clause_views(clauses@),
                table: signal_views(table@),
                show: show@,
            };
            let rows = search_spans(q, event_views(events@), t0 as int, t1 as int);
            &&& span_views(r.0@) == first_rows(rows, limit)
            &&& r.1 == rows_counted(rows.len(), limit)
            &&& r.2 == (limit != 0 && rows.len() > limit)
        }),
{
    if t0 == t1 {
        let rows: Vec<IntervalRow> = Vec::new();
        assert(span_views(rows@) =~= Seq::empty());
        return (rows, 0, false);
    }
    let ghost q = Question {
        clauses: clause_views(clauses@),
        table: signal_views(table@),
        show: show@,
    };
    let ps: Vec<Point> = collect_points(table, clauses, show, events, t0, Ghost(q));
    spans_of(&ps, t1, limit)
}

proof fn lemma_group_end(events: Seq<EventView>, i: int)
    requires
        0 <= i < events.len(),
    ensures
        i < group_end(events, i) <= events.len(),
        forall|k: int| i <= k < group_end(events, i) ==> (#[trigger] events[k]).tick == events[i].tick,
    decreases events.len() - i,
{
    if i + 1 < events.len() && events[i + 1].tick == events[i].tick {
        lemma_group_end(events, i + 1);
    }
}

/// Do the ticks of the points increase, from at least `lo` to at most `hi`?
pub open spec fn points_ordered(ps: Seq<PointView>, lo: int, hi: int) -> bool {
    &&& forall|i: int| 0 <= i < ps.len() ==> lo <= (#[trigger] ps[i]).tick <= hi
    &&& forall|i: int, j: int|
        0 <= i < j < ps.len() ==> (#[trigger] ps[i]).tick < (#[trigger] ps[j]).tick
}

/// Does the span take in the tick?
pub open spec fn span_covers(r: SpanView, t: int) -> bool {
    r.begin <= t < r.end
}

/// The spans of a list of points do not overlap and come in time order, hold
/// the same values throughout, and take in every point before `t1` at which
/// the condition holds. Of two spans that touch, the values differ.
pub proof fn spans_partition(ps: Seq<PointView>, lo: int, t1: int)
    requires
        points_ordered(ps, lo, t1),
    ensures
        forall|i: int|
            0 <= i < spans(ps, t1).len() ==> lo <= (#[trigger] spans(ps, t1)[i]).begin
                <= spans(ps, t1)[i].end <= t1,
        forall|i: int, j: int|
            0 <= i < j < spans(ps, t1).len() ==> (#[trigger] spans(ps, t1)[i]).end <= (
            #[trigger] spans(ps, t1)[j]).begin,
        forall|i: int, k: int|
            0 <= i < spans(ps, t1).len() && 0 <= k < ps.len() && #[trigger] span_covers(
                spans(ps, t1)[i],
                ps[k].tick,
            ) ==> ps[k].key == Some(spans(ps, t1)[i].texts),
        forall|k: int|
            0 <= k < ps.len() && (#[trigger] ps[k]).key is Some && ps[k].tick < t1
                ==> covered(spans(ps, t1), ps[k].tick),
        forall|i: int|
            0 <= i < spans(ps, t1).len() - 1 && (#[trigger] spans(ps, t1)[i]).end == spans(
                ps,
                t1,
            )[i + 1].begin ==> spans(ps, t1)[i].texts != spans(ps, t1)[i + 1].texts,
        spans(ps, t1).len() > 0 && spans(ps, t1)[0].begin == ps[0].tick ==> ps[0].key == Some(
            spans(ps, t1)[0].texts,
        ),
    decreases ps.len(),
{
    if ps.len() > 0 {
        let n = run_length(ps);
        lemma_run(ps);
        let rows = spans(ps, t1);
        let rest_ps = if n < ps.len() {
            ps.skip(n)
        } else {
            Seq::empty()
        };
        let end = if n < ps.len() {
            ps[n].tick
        } else {
            t1
        };
        assert(points_ordered(rest_ps, end, t1)) by {
            assert forall|i: int, j: int| 0 <= i < j < rest_ps.len() implies (
            #[trigger] rest_ps[i]).tick < (#[trigger] rest_ps[j]).tick by {
                assert(rest_ps[i] == ps[n + i] && rest_ps[j] == ps[n + j]);
            }
            assert forall|i: int| 0 <= i < rest_ps.len() implies end <= (
            #[trigger] rest_ps[i]).tick <= t1 by {
                assert(rest_ps[i] == ps[n + i]);
                if i > 0 {
                    assert(ps[n].tick < ps[n + i].tick);
                }
            }
        }
        spans_partition(rest_ps, end, t1);
        let rest = spans(rest_ps, t1);
        if n < ps.len() {
            assert(ps[n].tick > ps[0].tick);
        }
        let off: int = if ps[0].key is Some {
            1
        } else {
            0
        };
        assert(rows.len() == rest.len() + off);
        assert forall|i: int| off <= i < rows.len() implies #[trigger] rows[i] == rest[i - off] by {}
        assert forall|i: int| 0 <= i < rows.len() implies lo <= (#[trigger] rows[i]).begin
            <= rows[i].end <= t1 by {
            if i >= off {
                assert(rows[i] == rest[i - off]);
            }
        }
        assert forall|i: int, j: int| 0 <= i < j < rows.len() implies (#[trigger] rows[i]).end <= (
        #[trigger] rows[j]).begin by {
            assert(rows[j] == rest[j - off]);
            if i >= off {
                assert(rows[i] == rest[i - off]);
            }
        }
        assert forall|i: int, k: int|
            0 <= i < rows.len() && 0 <= k < ps.len() && #[trigger] span_covers(
                rows[i],
                ps[k].tick,
            ) implies ps[k].key == Some(rows[i].texts) by {
            if i < off {
                if k >= n {
                    if k > n {
                        assert(ps[n].tick < ps[k].tick);
                    }
                }
            } else {
                assert(rows[i] == rest[i - off]);
                if k < n {
                    if n < ps.len() {
                        assert(ps[k].tick < ps[n].tick);
                    }
                    assert(rest[i - off].begin >= end);
                    assert(ps[k].tick <= t1);
                } else {
                    assert(ps[k] == rest_ps[k - n]);
                    assert(span_covers(rest[i - off], rest_ps[k - n].tick));
                }
            }
        }
        assert forall|k: int|
            0 <= k < ps.len() && (#[trigger] ps[k]).key is Some && ps[k].tick < t1 implies covered(
            rows,
            ps[k].tick,
        ) by {
            if k < n {
                if k > 0 {
                    assert(ps[0].tick < ps[k].tick);
                }
                if n < ps.len() {
                    assert(ps[k].tick < ps[n].tick);
                }
                assert(span_covers(rows[0], ps[k].tick));
            } else {
                assert(rest_ps[k - n] == ps[k]);
                let i = choose|i: int|
                    0 <= i < rest.len() && #[trigger] span_covers(rest[i], ps[k].tick);
                assert(rows[i + off] == rest[i]);
                assert(span_covers(rows[i + off], ps[k].tick));
            }
        }
        assert forall|i: int|
            0 <= i < rows.len() - 1 && (#[trigger] rows[i]).end == rows[i + 1].begin implies
            rows[i].texts != rows[i + 1].texts by {
            assert(rows[i + 1] == rest[i + 1 - off]);
            if i >= off {
                assert(rows[i] == rest[i - off]);
            } else {
                assert(rest_ps.len() > 0);
                assert(rest_ps[0] == ps[n]);
            }
        }
        if rows.len() > 0 && rows[0].begin == ps[0].tick && off == 0 {
            assert(rows[0] == rest[0]);
            assert(rest_ps.len() > 0);
            assert(rest[0].begin >= ps[n].tick);
        }
    }
}

/// Does some span take in the tick?
pub open spec fn covered(rows: Seq<SpanView>, t: int) -> bool {
    exists|i: int| 0 <= i < rows.len() && #[trigger] span_covers(rows[i], t)
}

proof fn lemma_run(ps: Seq<PointView>)
    requires
        ps.len() > 0,
    ensures
        0 < run_length(ps) <= ps.len(),
        forall|i: int| 0 <= i < run_length(ps) ==> (#[trigger] ps[i]).key == ps[0].key,
        run_length(ps) < ps.len() ==> ps[run_length(ps)].key != ps[0].key,
    decreases ps.len(),
{
    if ps.len() >= 2 && ps[1].key == ps[0].key {
        let less = ps.drop_first();
        lemma_run(less);
        assert forall|i: int| 0 <= i < run_length(ps) implies (#[trigger] ps[i]).key == ps[0].key by {
            if i > 0 {
                assert(ps[i] == less[i - 1]);
            }
        }
        if run_length(ps) < ps.len() {
            assert(ps[run_length(ps)] == less[run_length(less)]);
        }
    }
}

/// Do the events come in time order, none later than `t1`?
pub open spec fn ticks_ordered(events: Seq<EventView>, t1: int) -> bool {
    &&& forall|i: int| 0 <= i < events.len() ==> (#[trigger] events[i]).tick <= t1
    &&& forall|i: int, j: int|
        0 <= i <= j < events.len() ==> (#[trigger] events[i]).tick <= (#[trigger] events[j]).tick
}

proof fn lemma_later_points(q: Question, events: Seq<EventView>, i: int, lo: int, t1: int)
    requires
        ticks_ordered(events, t1),
        0 <= i,
        i < events.len() ==> lo < events[i].tick,
    ensures
        points_ordered(later_points(q, events, i), lo + 1, t1),
    decreases events.len() - i,
{
    if i < events.len() {
        lemma_group_end(events, i);
        let j = group_end(events, i);
        if j < events.len() {
            lemma_group_end_differs(events, i);
            assert(events[i].tick <= events[j].tick);
        }
        lemma_later_points(q, events, j, events[i].tick, t1);
        let rest = later_points(q, events, j);
        let all = later_points(q, events, i);
        assert forall|a: int, b: int| 0 <= a < b < all.len() implies (#[trigger] all[a]).tick < (
        #[trigger] all[b]).tick by {
            assert(all[b] == rest[b - 1]);
            if a > 0 {
                assert(all[a] == rest[a - 1]);
            }
        }
        assert forall|a: int| 0 <= a < all.len() implies lo + 1 <= (#[trigger] all[a]).tick <= t1 by {
            if a > 0 {
                assert(all[a] == rest[a - 1]);
            }
        }
    }
}

proof fn lemma_group_end_differs(events: Seq<EventView>, i: int)
    requires
        0 <= i < events.len(),
    ensures
        group_end(events, i) < events.len() ==> events[group_end(events, i)].tick
            != events[i].tick,
    decreases events.len() - i,
{
    if i + 1 < events.len() && events[i + 1].tick == events[i].tick {
        lemma_group_end_differs(events, i + 1);
    }
}

proof fn lemma_first_after_is_later(events: Seq<EventView>, t: int, i: int)
    requires
        0 <= i,
    ensures
        first_after(events, t, i) >= i,
        first_after(events, t, i) < events.len() ==> events[first_after(events, t, i)].tick > t,
    decreases events.len() - i,
{
    if i < events.len() && events[i].tick <= t {
        lemma_first_after_is_later(events, t, i + 1);
    }
}

/// The rows of a search over `t0..t1` lie in the window, in time order and
/// without overlap; each shows one set of values throughout, and of two that
/// touch the values differ.
pub proof fn search_rows_are_disjoint(q: Question, events: Seq<EventView>, t0: int, t1: int)
    requires
        t0 <= t1,
        ticks_ordered(events, t1),
    ensures
        forall|i: int|
            0 <= i < search_spans(q, events, t0, t1).len() ==> t0 <= (#[trigger] search_spans(
                q,
                events,
                t0,
                t1,
            )[i]).begin <= search_spans(q, events, t0, t1)[i].end <= t1,
        forall|i: int, j: int|
            0 <= i < j < search_spans(q, events, t0, t1).len() ==> (#[trigger] search_spans(
                q,
                events,
                t0,
                t1,
            )[i]).end <= (#[trigger] search_spans(q, events, t0, t1)[j]).begin,
        forall|i: int|
            0 <= i < search_spans(q, events, t0, t1).len() - 1 && (#[trigger] search_spans(
                q,
                events,
                t0,
                t1,
            )[i]).end == search_spans(q, events, t0, t1)[i + 1].begin ==> search_spans(
                q,
                events,
                t0,
                t1,
            )[i].texts != search_spans(q, events, t0, t1)[i + 1].texts,
{
    lemma_points_ordered(q, events, t0, t1);
    spans_partition(points(q, events, t0), t0, t1);
}

proof fn lemma_points_ordered(q: Question, events: Seq<EventView>, t0: int, t1: int)
    requires
        t0 <= t1,
        ticks_ordered(events, t1),
    ensures
        points_ordered(points(q, events, t0), t0, t1),
{
    let i = first_after(events, t0, 0);
    lemma_first_after_is_later(events, t0, 0);
    lemma_later_points(q, events, i, t0, t1);
    let ps = points(q, events, t0);
    let rest = later_points(q, events, i);
    assert forall|a: int, b: int| 0 <= a < b < ps.len() implies (#[trigger] ps[a]).tick < (
    #[trigger] ps[b]).tick by {
        assert(ps[b] == rest[b - 1]);
        if a > 0 {
            assert(ps[a] == rest[a - 1]);
        }
    }
    assert forall|a: int| 0 <= a < ps.len() implies t0 <= (#[trigger] ps[a]).tick <= t1 by {
        if a > 0 {
            assert(ps[a] == rest[a - 1]);
        }
    }
}

/// The recorded texts at tick `t`: those after all events up to then.
pub open spec fn state_at(n: nat, events: Seq<EventView>, t: int) -> Seq<Option<Seq<char>>> {
    applied(n, events.take(first_after(events, t, 0)))
}

/// The rows of a search over `t0..t1` take in exactly the ticks of the window
/// at which the condition holds, whether or not anything changes there, and
/// each shows the values of every tick that it takes in.
pub proof fn search_rows_cover_matches(q: Question, events: Seq<EventView>, t0: int, t1: int, t: int)
    requires
        t0 <= t < t1,
        ticks_ordered(events, t1),
    ensures
        covered(search_spans(q, events, t0, t1), t) <==> any_clause(
            state_at(q.table.len(), events, t),
            Seq::empty(),
            q.clauses,
        ),
        forall|i: int|
            0 <= i < search_spans(q, events, t0, t1).len() && span_covers(
                #[trigger] search_spans(q, events, t0, t1)[i],
                t,
            ) ==> search_spans(q, events, t0, t1)[i].texts == show_texts(
                q,
                show_raws(q, state_at(q.table.len(), events, t)),
            ),
{
    let ps = points(q, events, t0);
    lemma_points_ordered(q, events, t0, t1);
    let k = lemma_point_in_force(q, events, t0, t1, t);
    lemma_spans_at(ps, t0, t1, k, t);
}

/// `k` is the last of the points up to tick `t`.
spec fn in_force(ps: Seq<PointView>, k: int, t: int) -> bool {
    &&& 0 <= k < ps.len()
    &&& ps[k].tick <= t
    &&& k + 1 < ps.len() ==> t < ps[k + 1].tick
}

proof fn lemma_spans_at(ps: Seq<PointView>, lo: int, t1: int, k: int, t: int)
    requires
        points_ordered(ps, lo, t1),
        in_force(ps, k, t),
        t < t1,
    ensures
        covered(spans(ps, t1), t) <==> ps[k].key is Some,
        forall|i: int|
            0 <= i < spans(ps, t1).len() && span_covers(#[trigger] spans(ps, t1)[i], t)
                ==> ps[k].key == Some(spans(ps, t1)[i].texts),
    decreases ps.len(),
{
    let n = run_length(ps);
    lemma_run(ps);
    let rows = spans(ps, t1);
    let rest_ps = if n < ps.len() {
        ps.skip(n)
    } else {
        Seq::empty()
    };
    let end = if n < ps.len() {
        ps[n].tick
    } else {
        t1
    };
    assert(points_ordered(rest_ps, end, t1)) by {
        assert forall|i: int, j: int| 0 <= i < j < rest_ps.len() implies (
        #[trigger] rest_ps[i]).tick < (#[trigger] rest_ps[j]).tick by {
            assert(rest_ps[i] == ps[n + i] && rest_ps[j] == ps[n + j]);
        }
        assert forall|i: int| 0 <= i < rest_ps.len() implies end <= (#[trigger] rest_ps[i]).tick
            <= t1 by {
            assert(rest_ps[i] == ps[n + i]);
            if i > 0 {
                assert(ps[n].tick < ps[n + i].tick);
            }
        }
    }
    let rest = spans(rest_ps, t1);
    let off: int = if ps[0].key is Some {
        1
    } else {
        0
    };
    assert(rows.len() == rest.len() + off);
    assert forall|i: int| off <= i < rows.len() implies #[trigger] rows[i] == rest[i - off] by {}
    if k < n {
        spans_partition(rest_ps, end, t1);
        if n < ps.len() && k + 1 < n {
            assert(ps[k + 1].tick < ps[n].tick);
        }
        if k > 0 {
            assert(ps[0].tick < ps[k].tick);
        }
        assert(ps[0].tick <= t < end);
        if off == 1 {
            assert(span_covers(rows[0], t));
        }
        assert forall|i: int| 0 <= i < rows.len() && span_covers(#[trigger] rows[i], t) implies
            ps[k].key == Some(rows[i].texts) by {
            if i >= off {
                assert(rows[i] == rest[i - off]);
                assert(rest[i - off].begin >= end);
            }
        }
    } else {
        assert(rest_ps[k - n] == ps[k]);
        if k + 1 < ps.len() {
            assert(rest_ps[k + 1 - n] == ps[k + 1]);
        }
        lemma_spans_at(rest_ps, end, t1, k - n, t);
        if k > n {
            assert(ps[n].tick < ps[k].tick);
        }
        assert(end <= t);
        if covered(rest, t) {
            let i = choose|i: int| 0 <= i < rest.len() && #[trigger] span_covers(rest[i], t);
            assert(rows[i + off] == rest[i]);
            assert(span_covers(rows[i + off], t));
        }
        assert forall|i: int| 0 <= i < rows.len() && span_covers(#[trigger] rows[i], t) implies
            ps[k].key == Some(rows[i].texts) by {
            assert(i >= off);
            assert(rows[i] == rest[i - off]);
            assert(span_covers(rest[i - off], t));
        }
    }
    if covered(rows, t) {
        let i = choose|i: int| 0 <= i < rows.len() && #[trigger] span_covers(rows[i], t);
        assert(ps[k].key == Some(rows[i].texts));
    }
}

/// The point in force at a tick shows the state at that tick.
proof fn lemma_point_in_force(
    q: Question,
    events: Seq<EventView>,
    t0: int,
    t1: int,
    t: int,
) -> (k: int)
    requires
        t0 <= t <= t1,
        ticks_ordered(events, t1),
    ensures
        in_force(points(q, events, t0), k, t),
        points(q, events, t0)[k] == point_at(
            q,
            points(q, events, t0)[k].tick,
            state_at(q.table.len(), events, t),
        ),
{
    let ps = points(q, events, t0);
    let i = first_after(events, t0, 0);
    let rest = later_points(q, events, i);
    lemma_first_after_is_later(events, t0, 0);
    lemma_first_after_is_first(events, t0, 0);
    assert forall|m: int| 0 <= m < rest.len() implies #[trigger] ps[m + 1] == rest[m] by {}
    if i < events.len() && events[i].tick <= t {
        let k = lemma_later_in_force(q, events, i, t1, t);
        assert(ps[k + 1] == rest[k]);
        if k + 2 < ps.len() {
            assert(ps[k + 1 + 1] == rest[k + 1]);
        }
        k + 1
    } else {
        lemma_first_after_is(events, t, i);
        lemma_later_points(q, events, i, t, t1);
        if ps.len() > 1 {
            assert(ps[0int + 1] == rest[0]);
        }
        0
    }
}

proof fn lemma_later_in_force(
    q: Question,
    events: Seq<EventView>,
    i: int,
    t1: int,
    t: int,
) -> (k: int)
    requires
        ticks_ordered(events, t1),
        0 <= i < events.len(),
        events[i].tick <= t,
    ensures
        in_force(later_points(q, events, i), k, t),
        later_points(q, events, i)[k] == point_at(
            q,
            later_points(q, events, i)[k].tick,
            state_at(q.table.len(), events, t),
        ),
    decreases events.len() - i,
{
    let j = group_end(events, i);
    lemma_group_end(events, i);
    let all = later_points(q, events, i);
    let rest = later_points(q, events, j);
    assert forall|m: int| 0 <= m < rest.len() implies #[trigger] all[m + 1] == rest[m] by {}
    if j < events.len() && events[j].tick <= t {
        let k = lemma_later_in_force(q, events, j, t1, t);
        assert(all[k + 1] == rest[k]);
        if k + 2 < all.len() {
            assert(all[k + 1 + 1] == rest[k + 1]);
        }
        k + 1
    } else {
        assert forall|m: int| 0 <= m < j implies (#[trigger] events[m]).tick <= t by {
            if m < i {
                assert(events[m].tick <= events[i].tick);
            }
        }
        lemma_first_after_is(events, t, j);
        lemma_later_points(q, events, j, t, t1);
        if all.len() > 1 {
            assert(all[0int + 1] == rest[0]);
        }
        0
    }
}

proof fn lemma_first_after_is_first(events: Seq<EventView>, t: int, i: int)
    requires
        0 <= i <= events.len(),
    ensures
        first_after(events, t, i) <= events.len(),
        forall|m: int| i <= m < first_after(events, t, i) ==> (#[trigger] events[m]).tick <= t,
    decreases events.len() - i,
{
    if i < events.len() && events[i].tick <= t {
        lemma_first_after_is_first(events, t, i + 1);
    }
}

/// Everything before the first event later than `t` is at or before `t`.
pub proof fn upto_first_after(events: Seq<EventView>, t: int)
    ensures
        0 <= first_after(events, t, 0) <= events.len(),
        forall|m: int| 0 <= m < first_after(events, t, 0) ==> (#[trigger] events[m]).tick <= t,
        first_after(events, t, 0) < events.len() ==> events[first_after(events, t, 0)].tick > t,
{
    lemma_first_after_is_later(events, t, 0);
    lemma_first_after_is_first(events, t, 0);
}

proof fn lemma_first_after_is(events: Seq<EventView>, t: int, j: int)
    requires
        0 <= j <= events.len(),
        forall|m: int| 0 <= m < j ==> (#[trigger] events[m]).tick <= t,
        j < events.len() ==> events[j].tick > t,
    ensures
        first_after(events, t, 0) == j,
{
    lemma_first_after_is_later(events, t, 0);
    lemma_first_after_is_first(events, t, 0);
    let f = first_after(events, t, 0);
    if f < j {
        assert(events[f].tick <= t);
    }
}

/// The search fires at ticks of the window, each later than the one before.
pub proof fn firings_are_ordered(q: Question, events: Seq<EventView>, t0: int, t1: int)
    requires
        ticks_ordered(events, t1),
    ensures
        forall|i: int|
            0 <= i < search_firings(q, events, t0).len() ==> t0 <= (#[trigger] search_firings(
                q,
                events,
                t0,
            )[i]).tick <= t1,
        forall|i: int, j: int|
            0 <= i < j < search_firings(q, events, t0).len() ==> (#[trigger] search_firings(
                q,
                events,
                t0,
            )[i]).tick < (#[trigger] search_firings(q, events, t0)[j]).tick,
{
    lemma_first_after_is_later(events, t0 - 1, 0);
    lemma_firings_ordered(q, events, first_after(events, t0 - 1, 0), t0 - 1, t1);
}

proof fn lemma_firings_ordered(q: Question, events: Seq<EventView>, i: int, lo: int, t1: int)
    requires
        ticks_ordered(events, t1),
        0 <= i,
        i < events.len() ==> lo < events[i].tick,
    ensures
        forall|a: int|
            0 <= a < firings(q, events, i).len() ==> lo < (#[trigger] firings(q, events, i)[a]).tick
                <= t1,
        forall|a: int, b: int|
            0 <= a < b < firings(q, events, i).len() ==> (#[trigger] firings(
                q,
                events,
                i,
            )[a]).tick < (#[trigger] firings(q, events, i)[b]).tick,
    decreases events.len() - i,
{
    if i < events.len() {
        lemma_group_end(events, i);
        let j = group_end(events, i);
        if j < events.len() {
            lemma_group_end_differs(events, i);
            assert(events[i].tick <= events[j].tick);
        }
        lemma_firings_ordered(q, events, j, events[i].tick, t1);
        let rest = firings(q, events, j);
        let all = firings(q, events, i);
        if all.len() != rest.len() {
            assert(all.len() == rest.len() + 1);
            assert forall|a: int, b: int| 0 <= a < b < all.len() implies (#[trigger] all[a]).tick
                < (#[trigger] all[b]).tick by {
                assert(all[b] == rest[b - 1]);
                if a > 0 {
                    assert(all[a] == rest[a - 1]);
                }
            }
            assert forall|a: int| 0 <= a < all.len() implies lo < (#[trigger] all[a]).tick <= t1 by {
                if a > 0 {
                    assert(all[a] == rest[a - 1]);
                }
            }
        } else {
            assert(all == rest);
        }
    }
}

/// The rows of a search show the values of their beginning.
pub proof fn rows_show_their_beginning(q: Question, events: Seq<EventView>, t0: int, t1: int)
    requires
        t0 <= t1,
        ticks_ordered(events, t1),
    ensures
        forall|i: int|
            0 <= i < search_spans(q, events, t0, t1).len() ==> (#[trigger] search_spans(
                q,
                events,
                t0,
                t1,
            )[i]).raws == show_raws(
                q,
                state_at(q.table.len(), events, search_spans(q, events, t0, t1)[i].begin),
            ),
{
    if t0 < t1 {
        let ps = points(q, events, t0);
        lemma_points_ordered(q, events, t0, t1);
        lemma_spans_begin(ps, t1);
        let rows = spans(ps, t1);
        assert forall|i: int| 0 <= i < rows.len() implies (#[trigger] rows[i]).raws == show_raws(
            q,
            state_at(q.table.len(), events, rows[i].begin),
        ) by {
            let k = choose|k: int|
                0 <= k < ps.len() && rows[i].begin == (#[trigger] ps[k]).tick && rows[i].raws
                    == ps[k].raws;
            let t = ps[k].tick;
            let m = lemma_point_in_force(q, events, t0, t1, t);
            if m < k {
                assert(ps[m + 1].tick <= ps[k].tick) by {
                    if m + 1 < k {
                        assert(ps[m + 1].tick < ps[k].tick);
                    }
                }
            } else if k < m {
                assert(ps[k].tick < ps[m].tick);
            }
        }
    }
}

proof fn lemma_spans_begin(ps: Seq<PointView>, t1: int)
    ensures
        forall|i: int|
            0 <= i < spans(ps, t1).len() ==> exists|k: int|
                0 <= k < ps.len() && (#[trigger] spans(ps, t1)[i]).begin == (#[trigger] ps[k]).tick
                    && spans(ps, t1)[i].raws == ps[k].raws,
    decreases ps.len(),
{
    if ps.len() > 0 {
        let n = run_length(ps);
        let all = spans(ps, t1);
        let tail = ps.skip(n);
        if 0 < n < ps.len() {
            lemma_spans_begin(tail, t1);
        }
        assert forall|i: int| 0 <= i < all.len() implies exists|k: int|
            0 <= k < ps.len() && (#[trigger] all[i]).begin == (#[trigger] ps[k]).tick && all[i].raws
                == ps[k].raws by {
            let skip = if ps[0].key is Some {
                1int
            } else {
                0int
            };
            if i < skip {
                assert(all[i].begin == ps[0].tick && all[i].raws == ps[0].raws);
            } else {
                let rest = spans(tail, t1);
                assert(0 < n < ps.len());
                assert(all[i] == rest[i - skip]);
                let k = choose|k: int|
                    0 <= k < tail.len() && rest[i - skip].begin == (#[trigger] tail[k]).tick
                        && rest[i - skip].raws == tail[k].raws;
                assert(tail[k] == ps[n + k]);
            }
        }
    }
}

/// Does the search fire at the tick, with these values?
pub open spec fn fires_with(rows: Seq<FiringView>, t: int, raws: Seq<Option<Seq<char>>>) -> bool {
    exists|i: int| 0 <= i < rows.len() && (#[trigger] rows[i]).tick == t && rows[i].raws == raws
}

/// Does the signal change at a tick, from what it was just before?
pub open spec fn changes_then(q: Question, events: Seq<EventView>, t: int, s: int) -> bool {
    exists|k: int|
        0 <= k < events.len() && (#[trigger] events[k]).tick == t && is_change(
            q,
            events[k],
            state_at(q.table.len(), events, t - 1),
            s,
        )
}

/// A search for changes fires at a tick of the window just when something
/// happens then, and some clause holds of the values after it and the changes
/// that it makes; and it shows those values.
pub proof fn firings_are_changes(
    q: Question,
    events: Seq<EventView>,
    t0: int,
    t1: int,
    t: int,
    raws: Seq<Option<Seq<char>>>,
)
    requires
        ticks_ordered(events, t1),
        t0 <= t,
    ensures
        fires_with(search_firings(q, events, t0), t, raws) <==> (exists|k: int|
            0 <= k < events.len() && (#[trigger] events[k]).tick == t) && any_clause(
            state_at(q.table.len(), events, t),
            Seq::new(q.table.len(), |s: int| changes_then(q, events, t, s)),
            q.clauses,
        ) && raws == show_raws(q, state_at(q.table.len(), events, t)),
{
    let i = first_after(events, t0 - 1, 0);
    upto_first_after(events, t0 - 1);
    lemma_fires(q, events, i, t1, t, raws);
    if exists|k: int| 0 <= k < events.len() && (#[trigger] events[k]).tick == t {
        let k = choose|k: int| 0 <= k < events.len() && (#[trigger] events[k]).tick == t;
        if k < i {
            assert(events[k].tick <= t0 - 1);
        }
        assert(i <= k && events[k].tick == t);
    }
}

proof fn lemma_fires(
    q: Question,
    events: Seq<EventView>,
    i: int,
    t1: int,
    t: int,
    raws: Seq<Option<Seq<char>>>,
)
    requires
        ticks_ordered(events, t1),
        0 <= i <= events.len(),
        0 < i < events.len() ==> events[i - 1].tick < events[i].tick,
    ensures
        fires_with(firings(q, events, i), t, raws) <==> (exists|k: int|
            i <= k < events.len() && (#[trigger] events[k]).tick == t) && any_clause(
            state_at(q.table.len(), events, t),
            Seq::new(q.table.len(), |s: int| changes_then(q, events, t, s)),
            q.clauses,
        ) && raws == show_raws(q, state_at(q.table.len(), events, t)),
    decreases events.len() - i,
{
    let all = firings(q, events, i);
    if i < events.len() {
        let n = q.table.len();
        lemma_group_end(events, i);
        lemma_group_end_differs(events, i);
        let j = group_end(events, i);
        let now = events[i].tick;
        if j < events.len() {
            assert(events[i].tick <= events[j].tick);
            assert(events[j - 1].tick == now);
        }
        lemma_fires(q, events, j, t1, t, raws);
        let rest = firings(q, events, j);
        assert forall|m: int| 0 <= m < i implies (#[trigger] events[m]).tick <= now - 1 by {
            assert(events[m].tick <= events[i - 1].tick);
        }
        lemma_first_after_is(events, now - 1, i);
        assert forall|m: int| 0 <= m < j implies (#[trigger] events[m]).tick <= now by {
            if m >= i {
                assert(events[m].tick == events[i].tick);
            }
        }
        lemma_first_after_is(events, now, j);
        let before = applied(n, events.take(i));
        let after = applied(n, events.take(j));
        let changed = Seq::new(n, |s: int| changes_at(q, events, before, i, j, s));
        if t == now {
            lemma_changes_then(q, events, t1, i, j);
            assert(changed =~= Seq::new(n, |s: int| changes_then(q, events, t, s)));
            assert forall|k: int| j <= k < events.len() implies (#[trigger] events[k]).tick != t by {
                assert(events[j].tick <= events[k].tick);
            }
        }
        if any_clause(after, changed, q.clauses) {
            let f = FiringView { tick: now, raws: show_raws(q, after) };
            assert(all =~= seq![f] + rest);
            assert(all[0] == f);
            if fires_with(rest, t, raws) {
                let k = choose|k: int|
                    0 <= k < rest.len() && (#[trigger] rest[k]).tick == t && rest[k].raws == raws;
                assert(all[k + 1] == rest[k]);
            }
            if fires_with(all, t, raws) {
                let k = choose|k: int|
                    0 <= k < all.len() && (#[trigger] all[k]).tick == t && all[k].raws == raws;
                if k > 0 {
                    assert(rest[k - 1] == all[k]);
                }
            }
        } else {
            assert(all == rest);
        }
        if t != now {
            assert((exists|k: int| i <= k < events.len() && (#[trigger] events[k]).tick == t)
                ==> (exists|k: int| j <= k < events.len() && (#[trigger] events[k]).tick == t)) by {
                if exists|k: int| i <= k < events.len() && (#[trigger] events[k]).tick == t {
                    let k = choose|k: int| i <= k < events.len() && (#[trigger] events[k]).tick == t;
                    assert(j <= k && events[k].tick == t);
                }
            }
        }
    }
}

proof fn lemma_changes_then(q: Question, events: Seq<EventView>, t1: int, i: int, j: int)
    requires
        ticks_ordered(events, t1),
        0 <= i < j <= events.len(),
        forall|k: int| i <= k < j ==> (#[trigger] events[k]).tick == events[i].tick,
        j < events.len() ==> events[i].tick < events[j].tick,
        first_after(events, events[i].tick - 1, 0) == i,
    ensures
        forall|s: int|
            changes_at(q, events, applied(q.table.len(), events.take(i)), i, j, s)
                == #[trigger] changes_then(q, events, events[i].tick, s),
{
    let t = events[i].tick;
    let before = applied(q.table.len(), events.take(i));
    assert(before == state_at(q.table.len(), events, t - 1));
    upto_first_after(events, t - 1);
    assert forall|s: int| changes_at(q, events, before, i, j, s) == #[trigger] changes_then(
        q,
        events,
        t,
        s,
    ) by {
        if changes_at(q, events, before, i, j, s) {
            let k = choose|k: int| i <= k < j && #[trigger] is_change(q, events[k], before, s);
            assert(events[k].tick == t && is_change(q, events[k], before, s));
        }
        if changes_then(q, events, t, s) {
            let k = choose|k: int|
                0 <= k < events.len() && (#[trigger] events[k]).tick == t && is_change(
                    q,
                    events[k],
                    state_at(q.table.len(), events, t - 1),
                    s,
                );
            if k < i {
                assert(events[k].tick <= t - 1);
            }
            if k >= j {
                assert(events[j].tick <= events[k].tick);
            }
            assert(is_change(q, events[k], before, s));
        }
    }
}

/// Which signals change among the events `i..j`?
fn changed_signals(
    table: &Vec<SignalInfo>,
    state: &Vec<Option<String>>,
    events: &Vec<DumpEvent>,
    i: usize,
    j: usize,
    Ghost(q): Ghost<Question>,
) -> (v: Vec<bool>)
    requires
        i <= j <= events.len(),
        q.table == signal_views(table@),
        state@.len() == q.table.len(),
        events_in(event_views(events@), q.table.len()),
    ensures
        v@ == Seq::new(
            q.table.len(),
            |s: int|
                changes_at(q, event_views(events@), state_views(state@), i as int, j as int, s),
        ),
{
    let ghost ev = event_views(events@);
    let ghost st = state_views(state@);
    let n: usize = table.len();
    let mut v: Vec<bool> = Vec::new();
    let mut k: usize = 0;
    while k < n
        invariant
            k <= n,
            v.len() == k,
            forall|s: int| 0 <= s < k ==> !(#[trigger] v@[s]),
        decreases n - k,
    {
        v.push(false);
        k += 1;
    }
    let mut m: usize = i;
    while m < j
        invariant
            i <= m <= j <= events.len(),
            n == v.len() == q.table.len() == state@.len() == table@.len(),
            ev == event_views(events@),
            st == state_views(state@),
            q.table == signal_views(table@),
            events_in(ev, q.table.len()),
            forall|s: int|
                0 <= s < n ==> #[trigger] v@[s] == changes_at(q, ev, st, i as int, m as int, s),
        decreases j - m,
    {
        let e: &DumpEvent = &events[m];
        assert(ev[m as int] == e@);
        let sid: usize = e.sid;
        let old_text: Option<&str> = str_of(&state[sid]);
        let new_text: String = e.value.raw_str();
        assert(st[sid as int] == opt_view(state@[sid as int]));
        assert(q.table[sid as int] == table@[sid as int]@);
        let is_event: bool = match table[sid].kind {
            ValueKind::Event => true,
            _ => false,
        };
        let hit: bool = match old_text {
            None => e.tick != 0 && is_event,
            Some(t) => is_event || !same(t, &new_text),
        };
        assert(hit == is_change(q, ev[m as int], st, sid as int));
        let ghost v0 = v@;
        if hit {
            v.set(sid, true);
        }
        proof {
            assert forall|s: int| 0 <= s < n implies #[trigger] v@[s] == changes_at(
                q,
                ev,
                st,
                i as int,
                m + 1,
                s,
            ) by {
                assert(v0[s] == changes_at(q, ev, st, i as int, m as int, s));
                if changes_at(q, ev, st, i as int, m + 1, s) {
                    let w = choose|w: int| i <= w < m + 1 && #[trigger] is_change(q, ev[w], st, s);
                    if w < m {
                        assert(is_change(q, ev[w], st, s));
                        assert(changes_at(q, ev, st, i as int, m as int, s));
                    }
                }
                if v@[s] {
                    if v0[s] {
                        let w = choose|w: int| i <= w < m && #[trigger] is_change(q, ev[w], st, s);
                        assert(is_change(q, ev[w], st, s));
                    } else {
                        assert(is_change(q, ev[m as int], st, s));
                    }
                }
            }
        }
        m += 1;
    }
    assert(v@ =~= Seq::new(
        q.table.len(),
        |s: int| changes_at(q, ev, st, i as int, j as int, s),
    ));
    v
}

/// The ticks from `t0` on at which some clause holds, at most `limit` of them
/// unless it is zero. `events` are the changes up to the end of the window of
/// the signals involved, in replay order.
pub fn search_event_collect(
    table: &Vec<SignalInfo>,
    clauses: &Vec<Vec<ResolvedCond>>,
    show: &Vec<usize>,
    events: &Vec<DumpEvent>,
    t0: i64,
    limit: usize,
) -> (r: (Vec<Firing>, usize, bool))
    requires
        question_ok(
            Question {
                clauses: clause_views(clauses@),
                table: signal_views(table@),
                show: show@,
            },
        ),
        events_in(event_views(events@), table@.len()),
    ensures
        ({
            let q = Question {
                clauses: clause_views(clauses@),
                table: signal_views(table@),
                show: show@,
            };
            let rows = search_firings(q, event_views(events@), t0 as int);
            &&& firing_views(r.0@) == first_rows(rows, limit)
            &&& r.1 == rows_counted(rows.len(), limit)
            &&& r.2 == (limit != 0 && rows.len() > limit)
        }),
{
    let ghost q = Question {
        clauses: clause_views(clauses@),
        table: signal_views(table@),
        show: show@,
    };
    let ghost ev = event_views(events@);
    let n: usize = table.len();
    let mut state: Vec<Option<String>> = blank_state(n);
    let mut i: usize = 0;
    assert(ev.take(0) =~= Seq::empty());
    proof {
        assert(state_views(state@).len() == n);
        assert(q.table.len() == n);
    }
    while i < events.len() && events[i].tick < t0
        invariant
            i <= events.len(),
            ev == event_views(events@),
            events_in(ev, n as nat),
            state@.len() == n,
            state_views(state@) == applied(n as nat, ev.take(i as int)),
            first_after(ev, t0 - 1, 0) == first_after(ev, t0 - 1, i as int),
        decreases events.len() - i,
    {
        assert(ev[i as int] == events@[i as int]@);
        apply_event(&mut state, events, i);
        i += 1;
    }
    proof {
        if i < events.len() {
            assert(ev[i as int] == events@[i as int]@);
        }
        assert(first_after(ev, t0 - 1, 0) == i);
    }
    let ghost want = search_firings(q, ev, t0 as int);
    let mut rows: Vec<Firing> = Vec::new();
    assert(firing_views(rows@) + firings(q, ev, i as int) =~= want);
    while i < events.len()
        invariant
            i <= events.len(),
            rows.len() <= i,
            ev == event_views(events@),
            n == q.table.len(),
            events_in(ev, n as nat),
            state@.len() == n,
            state_views(state@) == applied(n as nat, ev.take(i as int)),
            q.clauses == clause_views(clauses@),
            q.table == signal_views(table@),
            q.show == show@,
            question_ok(q),
            want == search_firings(q, ev, t0 as int),
            want == firing_views(rows@) + firings(q, ev, i as int),
            limit == 0 || rows.len() <= limit,
        decreases events.len() - i,
    {
        let start: usize = i;
        let tick: i64 = events[i].tick;
        i += 1;
        assert(ev[start as int] == events@[start as int]@);
        while i < events.len() && events[i].tick == tick
            invariant
                start < i <= events.len(),
                ev == event_views(events@),
                tick == ev[start as int].tick,
                ev[i - 1].tick == tick,
                group_end(ev, start as int) == group_end(ev, i - 1),
            decreases events.len() - i,
        {
            assert(ev[i as int] == events@[i as int]@);
            i += 1;
        }
        proof {
            if i < events.len() {
                assert(ev[i as int] == events@[i as int]@);
            }
            assert(group_end(ev, start as int) == i);
        }
        let changed: Vec<bool> = changed_signals(table, &state, events, start, i, Ghost(q));
        let mut k: usize = start;
        while k < i
            invariant
                start <= k <= i <= events.len(),
                ev == event_views(events@),
                events_in(ev, n as nat),
                state@.len() == n,
                state_views(state@) == applied(n as nat, ev.take(k as int)),
            decreases i - k,
        {
            apply_event(&mut state, events, k);
            k += 1;
        }
        if any_clause_holds(&state, &changed, clauses) {
            if limit != 0 && rows.len() >= limit {
                proof {
                    assert(want.take(limit as int) =~= firing_views(rows@));
                    assert(firings(q, ev, start as int).len() >= 1);
                }
                return (rows, limit + 1, true);
            }
            let ghost r0 = firing_views(rows@);
            let row = Firing { time_ticks: tick, raws: raws_of(&state, show, Ghost(q)) };
            rows.push(row);
            proof {
                assert(firing_views(rows@) =~= r0.push(row@));
                assert(firings(q, ev, start as int) =~= seq![row@] + firings(q, ev, i as int));
                assert(want =~= firing_views(rows@) + firings(q, ev, i as int));
            }
        }
    }
    assert(want =~= firing_views(rows@));
    let total: usize = rows.len();
    (rows, total, false)
}

} // verus!
