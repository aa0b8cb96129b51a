//! What the JSON answers say, member by member.

use vstd::prelude::*;

use crate::activity::StatsView;
use crate::batch::framed;
use crate::cli::{ArgsView, Command};
use crate::commands::{computed, OutsideView};
use crate::compare::{compare_json, compare_of, diff_json, CompareView, DiffView};
use crate::design::{direction_tag, hop_tag, status_tag, Direction, HopView};
use crate::dump::{compact_value, dump_json, dump_of, event_json, DumpView};
use crate::endpoints::endpoint_of;
use crate::format::value_compact;
use crate::hierarchy::NodeView;
use crate::history::{raw_text, value_at, RawView};
use crate::info::{info_json, texts_json};
use crate::json::JsonView;
use crate::list::{entry_json, list_json, list_of, list_selective, EntryView};
use crate::model::{scopes_in, WaveView};
use crate::order::sorted_set;
use crate::replay::EventView;
use crate::report::{limit_view, report_json, shown_count, window_view, ReportView};
use crate::search::{hit_json, hits_of, search_json, search_of, HitView, SearchView};
use crate::signal::SignalView;
use crate::snapshot::{snap_row_json, snapshot_json, snapshot_of, SnapRowView, SnapView};
use crate::summary::{row_json, summary_json, summary_of, SummaryView};
use crate::time::Timescale;
use crate::trace::{endpoint_json, hop_json, hops_noun, noted, trace_json, TraceView};
use crate::tree::{node_json, tree_json, tree_of, TreeView};

verus! {

/// Has an answer this member?
pub open spec fn says(j: JsonView, name: Seq<char>, v: JsonView) -> bool {
    j is Object && exists|i: int|
        0 <= i < j->Object_0.len() && #[trigger] j->Object_0[i] == (name, v)
}

proof fn lemma_says(j: JsonView, i: int)
    requires
        j is Object,
        0 <= i < j->Object_0.len(),
    ensures
        says(j, j->Object_0[i].0, j->Object_0[i].1),
{
}

/// Does an answer say how many rows it shows, and of how many?
pub open spec fn says_counts(j: JsonView, shown: int, total: int, exact: bool) -> bool {
    &&& says(j, "shown"@, JsonView::Int(shown))
    &&& says(j, "total"@, JsonView::Int(total))
    &&& says(j, "truncated"@, JsonView::Bool(shown < total))
    &&& says(j, "total_is_exact"@, JsonView::Bool(exact))
}

/// Does an answer list these rows?
pub open spec fn says_rows(j: JsonView, name: Seq<char>, rows: Seq<JsonView>) -> bool {
    says(j, name, JsonView::Array(rows))
}

/// A window is told in ticks and in words; one without an end says so.
pub proof fn windows_are_told<T: Timescale>(t0: int, t1: Option<int>, ts: &T)
    ensures
        says(window_view(t0, t1, ts), "begin_ticks"@, JsonView::Int(t0)),
        says(window_view(t0, t1, ts), "begin_h"@, JsonView::Str(ts.shown(t0))),
        t1 matches Some(t) ==> says(window_view(t0, t1, ts), "end_ticks"@, JsonView::Int(t)),
        t1 matches Some(t) ==> says(window_view(t0, t1, ts), "end_h"@, JsonView::Str(ts.shown(t))),
        t1 is None ==> says(window_view(t0, t1, ts), "end_ticks"@, JsonView::Null),
        t1 is None ==> says(window_view(t0, t1, ts), "end_h"@, JsonView::Null),
{
    let j = window_view(t0, t1, ts);
    lemma_says(j, 0);
    lemma_says(j, 1);
    lemma_says(j, 2);
    lemma_says(j, 3);
}

/// Of the paths that a selection matched, the number is told and the first ones
/// are named; without a selection nothing is.
pub proof fn matches_are_told(r: ReportView)
    requires
        r.pairs.len() <= i64::MAX,
    ensures
        !r.selective ==> report_json(r) is Null,
        r.selective ==> says(report_json(r), "count"@, JsonView::Int(r.pairs.len() as int)),
        r.selective ==> exists|names: Seq<JsonView>| #[trigger]
            says_rows(report_json(r), "paths"@, names) && names.len() <= r.pairs.len() && (
            r.pairs.len() <= 10 ==> names.len() == r.pairs.len()) && (r.pairs.len() > 10 ==> names.len()
                == 10)
                && forall|i: int|
                0 <= i < names.len() ==> #[trigger] names[i] == JsonView::Str(r.pairs[i].0),
{
    if r.selective {
        let j = report_json(r);
        lemma_says(j, 0);
        lemma_says(j, 1);
        let names = j->Object_0[1].1->Array_0;
        assert(says_rows(j, "paths"@, names));
    }
}

// ---- dump ----

/// What `dump` answers: its window, how many signals are selected, and an entry
/// for every event with its time, path and value.
pub proof fn dump_is_told<T: Timescale>(w: WaveView, d: DumpView, verbose: bool, ts: &T)
    requires
        d.events.len() < i64::MAX,
        d.events.len() < usize::MAX,
        d.selected.len() <= i64::MAX,
    ensures
        ({
            let j = dump_json(w, d, verbose, ts);
            let n = d.events.len() as int;
            &&& says(j, "window"@, window_view(d.t0, d.t1, ts))
            &&& says(j, "matched"@, report_json(d.matched))
            &&& says(j, "selected"@, JsonView::Int(d.selected.len() as int))
            &&& !d.truncated ==> says_counts(j, n, n, true)
            &&& d.truncated ==> says_counts(j, n, n + 1, false)
            &&& exists|rows: Seq<JsonView>| #[trigger]
                says_rows(j, "events"@, rows) && rows.len() == n && forall|i: int|
                    0 <= i < n ==> #[trigger] rows[i] == event_json(
                        w.table,
                        d.events[i],
                        verbose,
                        ts,
                    )
        }),
{
    let j = dump_json(w, d, verbose, ts);
    lemma_says(j, 0);
    lemma_says(j, 1);
    lemma_says(j, 2);
    lemma_says(j, 3);
    lemma_says(j, 4);
    lemma_says(j, 5);
    lemma_says(j, 6);
    lemma_says(j, 8);
    let rows = j->Object_0[8].1->Array_0;
    assert(says_rows(j, "events"@, rows));
}

/// An event of a dump: its tick, its path and its value.
pub proof fn events_are_told<T: Timescale>(
    table: Seq<SignalView>,
    e: EventView,
    verbose: bool,
    ts: &T,
)
    ensures
        ({
            let j = event_json(table, e, verbose, ts);
            let g = table[e.sid as int];
            &&& says(j, "time_ticks"@, JsonView::Int(e.tick))
            &&& says(j, "time_h"@, JsonView::Str(ts.shown(e.tick)))
            &&& says(j, "path"@, JsonView::Str(g.path))
            &&& says(j, "value"@, JsonView::Str(compact_value(e.value, g)))
            &&& verbose ==> says(j, "width"@, JsonView::Int(g.width as int)) && says(
                j,
                "type"@,
                JsonView::Str(g.type_str),
            )
            &&& !verbose ==> j->Object_0.len() == 4
        }),
{
    let j = event_json(table, e, verbose, ts);
    lemma_says(j, 0);
    lemma_says(j, 1);
    lemma_says(j, 2);
    lemma_says(j, 3);
    if verbose {
        lemma_says(j, 4);
        lemma_says(j, 5);
    }
}

/// A logic value is shown by its bits, as the signal's kind has it; any other
/// value by its own kind.
pub proof fn values_are_shown_by_kind(v: RawView, g: SignalView)
    ensures
        v is Bits ==> compact_value(v, g) == value_compact(raw_text(v), g.kind, g.width),
        v is Real ==> compact_value(v, g) == raw_text(v),
        v is Str ==> compact_value(v, g) == raw_text(v),
        v is Event ==> compact_value(v, g) == "triggered"@,
{
}

// ---- list ----

/// What `list` answers: how many paths there are, and an entry for the first of
/// them with path, width and type.
pub proof fn list_is_told(
    table: Seq<SignalView>,
    e: Seq<EntryView>,
    selective: bool,
    verbose: bool,
    limit: int,
)
    requires
        e.len() <= i64::MAX,
        limit >= 0,
    ensures
        ({
            let j = list_json(table, e, selective, verbose, limit);
            let n = shown_count(e.len() as int, limit);
            &&& says_counts(j, n, e.len() as int, true)
            &&& exists|rows: Seq<JsonView>| #[trigger]
                says_rows(j, "signals"@, rows) && rows.len() == n && forall|i: int|
                    0 <= i < n ==> #[trigger] rows[i] == entry_json(table, e[i], verbose)
        }),
{
    let j = list_json(table, e, selective, verbose, limit);
    lemma_says(j, 0);
    lemma_says(j, 1);
    lemma_says(j, 2);
    lemma_says(j, 3);
    lemma_says(j, 5);
    assert(says_rows(j, "signals"@, j->Object_0[5].1->Array_0));
}

pub proof fn paths_are_told(table: Seq<SignalView>, e: EntryView, verbose: bool)
    requires
        e.sid <= i64::MAX,
    ensures
        ({
            let j = entry_json(table, e, verbose);
            let g = table[e.sid as int];
            &&& says(j, "path"@, JsonView::Str(e.path))
            &&& says(j, "width"@, JsonView::Int(g.width as int))
            &&& says(j, "type"@, JsonView::Str(g.type_str))
            &&& verbose ==> says(j, "id"@, JsonView::Int(e.sid as int))
            &&& !verbose ==> j->Object_0.len() == 3
        }),
{
    let j = entry_json(table, e, verbose);
    lemma_says(j, 0);
    lemma_says(j, 1);
    lemma_says(j, 2);
    if verbose {
        lemma_says(j, 3);
    }
}

// ---- tree ----

/// Does an answer list the first of the scopes?
pub open spec fn tells_scopes(j: JsonView, name: Seq<char>, d: TreeView, n: int) -> bool {
    exists|rows: Seq<JsonView>| #[trigger]
        says_rows(j, name, rows) && rows.len() == n && forall|i: int|
            0 <= i < n ==> #[trigger] rows[i] == node_json(d.nodes[i])
}

/// What `tree` answers: of subtrees, their roots and the depth; of a chain, the
/// signal; and an entry for the first of the scopes.
pub proof fn tree_is_told(d: TreeView, limit: int)
    requires
        d.nodes.len() <= i64::MAX,
        d.depth <= i64::MAX,
        d.root_signals <= i64::MAX,
        limit >= 0,
    ensures
        ({
            let j = tree_json(d, limit);
            let n = shown_count(d.nodes.len() as int, limit);
            &&& d.of matches Some(sig) ==> says(j, "signal"@, JsonView::Str(sig)) && says(
                j,
                "mode"@,
                JsonView::Str("chain"@),
            )
            &&& d.of is None ==> says(j, "depth"@, JsonView::Int(d.depth as int)) && says(
                j,
                "roots"@,
                texts_json(d.roots),
            ) && says(j, "mode"@, JsonView::Str("subtree"@)) && says(
                j,
                "root_signals"@,
                JsonView::Int(d.root_signals as int),
            )
            &&& says_counts(j, n, d.nodes.len() as int, true)
            &&& d.of is Some ==> tells_scopes(j, "chain"@, d, n)
            &&& d.of is None ==> tells_scopes(j, "scopes"@, d, n)
        }),
{
    let j = tree_json(d, limit);
    let k = if d.of is Some {
        2int
    } else {
        4int
    };
    lemma_says(j, 0);
    lemma_says(j, 1);
    if d.of is None {
        lemma_says(j, 2);
        lemma_says(j, 3);
    }
    lemma_says(j, k);
    lemma_says(j, k + 1);
    lemma_says(j, k + 2);
    lemma_says(j, k + 3);
    lemma_says(j, k + 5);
    let rows = j->Object_0[k + 5].1->Array_0;
    if d.of is Some {
        assert(says_rows(j, "chain"@, rows));
    } else {
        assert(says_rows(j, "scopes"@, rows));
    }
}

pub proof fn scopes_are_told(n: NodeView)
    requires
        n.level <= i64::MAX,
        n.signals <= i64::MAX,
        n.children <= i64::MAX,
    ensures
        says(node_json(n), "path"@, JsonView::Str(n.path)),
        says(node_json(n), "name"@, JsonView::Str(n.name)),
        says(node_json(n), "level"@, JsonView::Int(n.level as int)),
        says(node_json(n), "signals"@, JsonView::Int(n.signals as int)),
        says(node_json(n), "children"@, JsonView::Int(n.children as int)),
{
    let j = node_json(n);
    lemma_says(j, 0);
    lemma_says(j, 1);
    lemma_says(j, 2);
    lemma_says(j, 3);
    lemma_says(j, 4);
}

// ---- summary ----

/// What `summary` answers: its window, the tallies, and an entry for the first
/// of the rows.
pub proof fn summary_is_told<T: Timescale>(
    table: Seq<SignalView>,
    d: SummaryView,
    verbose: bool,
    limit: int,
    ts: &T,
)
    requires
        d.rows.len() <= i64::MAX,
        d.selected <= i64::MAX,
        d.active + d.static_ + d.undefined <= i64::MAX,
        limit >= 0,
    ensures
        ({
            let j = summary_json(table, d, verbose, limit, ts);
            let n = shown_count(d.rows.len() as int, limit);
            &&& says(j, "window"@, window_view(d.t0, d.t1, ts))
            &&& says(j, "selected"@, JsonView::Int(d.selected as int))
            &&& says(j, "active"@, JsonView::Int(d.active as int))
            &&& says(j, "static"@, JsonView::Int(d.static_ as int))
            &&& says(j, "undefined"@, JsonView::Int(d.undefined as int))
            &&& says(j, "defined"@, JsonView::Int((d.active + d.static_) as int))
            &&& says_counts(j, n, d.rows.len() as int, true)
            &&& exists|rows: Seq<JsonView>| #[trigger]
                says_rows(j, "rows"@, rows) && rows.len() == n && forall|i: int|
                    0 <= i < n ==> #[trigger] rows[i] == row_json(
                        table[d.rows[i].sid as int],
                        d.rows[i],
                        verbose,
                        ts,
                    )
        }),
{
    let j = summary_json(table, d, verbose, limit, ts);
    lemma_says(j, 0);
    lemma_says(j, 1);
    lemma_says(j, 2);
    lemma_says(j, 3);
    lemma_says(j, 4);
    lemma_says(j, 5);
    lemma_says(j, 6);
    lemma_says(j, 7);
    lemma_says(j, 8);
    lemma_says(j, 9);
    lemma_says(j, 11);
    assert(says_rows(j, "rows"@, j->Object_0[11].1->Array_0));
}

/// A row of a summary: changes and, of one bit, edges are counted; the first
/// and the last value are shown; and a signal that never changes shows the one
/// value it has.
pub proof fn rows_are_told<T: Timescale>(g: SignalView, r: StatsView, verbose: bool, ts: &T)
    requires
        r.changes <= i64::MAX,
        r.rises <= i64::MAX,
        r.falls <= i64::MAX,
        r.unique <= i64::MAX,
    ensures
        ({
            let j = row_json(g, r, verbose, ts);
            let kind = if r.changes > 0 {
                "active"@
            } else if r.initial is Some {
                "static"@
            } else {
                "undefined"@
            };
            &&& says(j, "kind"@, JsonView::Str(kind))
            &&& says(j, "path"@, JsonView::Str(g.path))
            &&& says(j, "changes"@, JsonView::Int(r.changes as int))
            &&& g.width == 1 ==> says(j, "rise_count"@, JsonView::Int(r.rises as int)) && says(
                j,
                "fall_count"@,
                JsonView::Int(r.falls as int),
            )
            &&& g.width != 1 ==> says(j, "rise_count"@, JsonView::Null) && says(
                j,
                "fall_count"@,
                JsonView::Null,
            )
            &&& r.initial matches Some(v) ==> says(j, "init"@, JsonView::Str(compact_value(v, g)))
            &&& r.initial is None ==> says(j, "init"@, JsonView::Str("(undef)"@))
            &&& r.last matches Some(v) ==> says(j, "last"@, JsonView::Str(compact_value(v, g)))
            &&& r.last is None ==> says(j, "last"@, JsonView::Str("(undef)"@))
            &&& says(j, "has_unknown"@, JsonView::Bool(r.unknown))
            &&& r.changes == 0 && r.initial is Some && r.last is Some ==> says(
                j,
                "value"@,
                JsonView::Str(compact_value(r.last->0, g)),
            )
            &&& r.changes > 0 ==> says(j, "value"@, JsonView::Null)
            &&& r.first_at is Some && r.last_at is Some ==> says(
                j,
                "first_at"@ + "_ticks"@,
                JsonView::Int(r.first_at->0),
            ) && says(j, "last_at"@ + "_ticks"@, JsonView::Int(r.last_at->0))
            &&& r.unique > 0 ==> says(j, "unique"@, JsonView::Int(r.unique as int))
        }),
{
    let j = row_json(g, r, verbose, ts);
    lemma_says(j, 0);
    lemma_says(j, 1);
    lemma_says(j, 2);
    lemma_says(j, 3);
    lemma_says(j, 4);
    lemma_says(j, 5);
    lemma_says(j, 6);
    lemma_says(j, 7);
    let times = r.first_at is Some && r.last_at is Some;
    let k = if times {
        12int
    } else {
        8int
    };
    if times {
        lemma_says(j, 8);
        lemma_says(j, 9);
        lemma_says(j, 10);
        lemma_says(j, 11);
    }
    if r.unique > 0 {
        lemma_says(j, k);
        lemma_says(j, k + 1);
    } else {
        lemma_says(j, k);
    }
}

// ---- snapshot ----

/// What `snapshot` answers: the time, the tallies, and an entry for the first
/// of the signals.
pub proof fn snapshot_is_told<T: Timescale>(
    table: Seq<SignalView>,
    d: SnapView,
    verbose: bool,
    limit: int,
    ts: &T,
)
    requires
        d.rows.len() <= i64::MAX,
        d.selected <= i64::MAX,
        d.known <= i64::MAX,
        d.undef <= i64::MAX,
        limit >= 0,
    ensures
        ({
            let j = snapshot_json(table, d, verbose, limit, ts);
            let n = shown_count(d.rows.len() as int, limit);
            &&& says(j, "at"@ + "_ticks"@, JsonView::Int(d.t_at))
            &&& says(j, "at"@ + "_h"@, JsonView::Str(ts.shown(d.t_at)))
            &&& says(j, "matched"@, report_json(d.matched))
            &&& says(j, "selected"@, JsonView::Int(d.selected as int))
            &&& says(j, "known"@, JsonView::Int(d.known as int))
            &&& says(j, "undefined"@, JsonView::Int(d.undef as int))
            &&& says_counts(j, n, d.rows.len() as int, true)
            &&& exists|rows: Seq<JsonView>| #[trigger]
                says_rows(j, "signals"@, rows) && rows.len() == n && forall|i: int|
                    0 <= i < n ==> #[trigger] rows[i] == snap_row_json(table, d.rows[i], verbose)
        }),
{
    let j = snapshot_json(table, d, verbose, limit, ts);
    lemma_says(j, 0);
    lemma_says(j, 1);
    lemma_says(j, 2);
    lemma_says(j, 3);
    lemma_says(j, 4);
    lemma_says(j, 5);
    lemma_says(j, 6);
    lemma_says(j, 7);
    lemma_says(j, 8);
    lemma_says(j, 9);
    lemma_says(j, 11);
    assert(says_rows(j, "signals"@, j->Object_0[11].1->Array_0));
}

pub proof fn signal_values_are_told(table: Seq<SignalView>, r: SnapRowView, verbose: bool)
    ensures
        ({
            let j = snap_row_json(table, r, verbose);
            let g = table[r.sid as int];
            &&& says(j, "path"@, JsonView::Str(g.path))
            &&& r.value matches Some(v) ==> says(j, "value"@, JsonView::Str(compact_value(v, g)))
            &&& r.value is None ==> says(j, "value"@, JsonView::Null)
            &&& says(j, "undefined"@, JsonView::Bool(r.value is None))
        }),
{
    let j = snap_row_json(table, r, verbose);
    lemma_says(j, 0);
    lemma_says(j, 1);
    lemma_says(j, 2);
}

// ---- compare ----

/// What `compare` answers: both times, how many signals kept their value, and
/// an entry for the first of those that did not.
pub proof fn compare_is_told<T: Timescale>(
    table: Seq<SignalView>,
    d: CompareView,
    verbose: bool,
    limit: int,
    ts: &T,
)
    requires
        d.diffs.len() <= d.union_len <= i64::MAX,
        d.selected <= i64::MAX,
        limit >= 0,
    ensures
        ({
            let j = compare_json(table, d, verbose, limit, ts);
            let n = shown_count(d.diffs.len() as int, limit);
            &&& says(j, "t1"@ + "_ticks"@, JsonView::Int(d.ta))
            &&& says(j, "t2"@ + "_ticks"@, JsonView::Int(d.tb))
            &&& says(j, "t1"@ + "_h"@, JsonView::Str(ts.shown(d.ta)))
            &&& says(j, "t2"@ + "_h"@, JsonView::Str(ts.shown(d.tb)))
            &&& says(j, "matched"@, report_json(d.matched))
            &&& says(j, "selected"@, JsonView::Int(d.selected as int))
            &&& says(j, "unchanged"@, JsonView::Int(d.union_len - d.diffs.len()))
            &&& says_counts(j, n, d.diffs.len() as int, true)
            &&& exists|rows: Seq<JsonView>| #[trigger]
                says_rows(j, "diffs"@, rows) && rows.len() == n && forall|i: int|
                    0 <= i < n ==> #[trigger] rows[i] == diff_json(table, d.diffs[i], verbose)
        }),
{
    let j = compare_json(table, d, verbose, limit, ts);
    lemma_says(j, 0);
    lemma_says(j, 1);
    lemma_says(j, 2);
    lemma_says(j, 3);
    lemma_says(j, 4);
    lemma_says(j, 5);
    lemma_says(j, 6);
    lemma_says(j, 7);
    lemma_says(j, 8);
    lemma_says(j, 9);
    lemma_says(j, 10);
    lemma_says(j, 12);
    assert(says_rows(j, "diffs"@, j->Object_0[12].1->Array_0));
}

pub proof fn differences_are_told(
    table: Seq<SignalView>,
    x: DiffView,
    verbose: bool,
)
    ensures
        ({
            let j = diff_json(table, x, verbose);
            let g = table[x.sid as int];
            &&& says(j, "path"@, JsonView::Str(g.path))
            &&& x.a matches Some(v) ==> says(j, "at_t1"@, JsonView::Str(compact_value(v, g)))
            &&& x.a is None ==> says(j, "at_t1"@, JsonView::Str("(undef)"@))
            &&& x.b matches Some(v) ==> says(j, "at_t2"@, JsonView::Str(compact_value(v, g)))
            &&& x.b is None ==> says(j, "at_t2"@, JsonView::Str("(undef)"@))
        }),
{
    let j = diff_json(table, x, verbose);
    lemma_says(j, 0);
    lemma_says(j, 1);
    lemma_says(j, 2);
}

// ---- search ----

/// What `search` answers: the condition, the window, and an entry for the first
/// of the rows.
pub proof fn search_is_told<T: Timescale>(
    w: WaveView,
    d: SearchView,
    verbose: bool,
    limit: usize,
    ts: &T,
)
    requires
        hits_of(w, d).len() < i64::MAX,
    ensures
        ({
            let j = search_json(w, d, verbose, limit, ts);
            let all = hits_of(w, d);
            let n = shown_count(all.len() as int, limit as int);
            let mode = if d.changed.len() > 0 {
                "event"@
            } else if d.show.len() > 0 {
                "segment"@
            } else {
                "interval"@
            };
            &&& says(j, "mode"@, JsonView::Str(mode))
            &&& says(j, "condition"@, JsonView::Str(d.label))
            &&& says(j, "condition_resolved"@, JsonView::Str(d.text))
            &&& says(j, "window"@, window_view(d.t0, Some(d.t1), ts))
            &&& n == all.len() ==> says_counts(j, n, n, true)
            &&& n < all.len() ==> says_counts(j, n, n + 1, false)
            &&& exists|rows: Seq<JsonView>| #[trigger]
                says_rows(j, "rows"@, rows) && rows.len() == n && forall|i: int|
                    0 <= i < n ==> #[trigger] rows[i] == hit_json(
                        w.table,
                        d.show,
                        all[i],
                        verbose,
                        ts,
                    )
        }),
{
    let j = search_json(w, d, verbose, limit, ts);
    lemma_says(j, 0);
    lemma_says(j, 1);
    lemma_says(j, 2);
    lemma_says(j, 5);
    lemma_says(j, 6);
    lemma_says(j, 7);
    lemma_says(j, 8);
    lemma_says(j, 9);
    lemma_says(j, 11);
    assert(says_rows(j, "rows"@, j->Object_0[11].1->Array_0));
}

/// A row of a search: where it begins and ends, and the value of each signal
/// that is shown.
pub proof fn hits_are_told<T: Timescale>(
    table: Seq<SignalView>,
    show: Seq<usize>,
    h: HitView,
    verbose: bool,
    ts: &T,
    k: int,
)
    requires
        0 <= k < show.len(),
    ensures
        ({
            let j = hit_json(table, show, h, verbose, ts);
            let g = table[show[k] as int];
            &&& says(j, "begin"@ + "_ticks"@, JsonView::Int(h.begin))
            &&& says(j, "begin"@ + "_h"@, JsonView::Str(ts.shown(h.begin)))
            &&& h.end matches Some(t) ==> says(j, "end"@ + "_ticks"@, JsonView::Int(t)) && says(
                j,
                "end"@ + "_h"@,
                JsonView::Str(ts.shown(t)),
            )
            &&& h.end is None ==> says(j, "end"@ + "_ticks"@, JsonView::Null)
            &&& exists|values: JsonView| #[trigger]
                says(j, "values"@, values) && says(
                    values,
                    g.path,
                    JsonView::Str(
                        match h.raws[k] {
                            Some(t) => value_compact(t, g.kind, g.width),
                            None => "(undef)"@,
                        },
                    ),
                )
        }),
{
    let j = hit_json(table, show, h, verbose, ts);
    lemma_says(j, 0);
    lemma_says(j, 1);
    lemma_says(j, 2);
    lemma_says(j, 3);
    lemma_says(j, 4);
    let values = j->Object_0[4].1;
    lemma_says(values, k);
    assert(says(j, "values"@, values));
}

// ---- trace ----

/// Does an answer list the first of the hops?
pub open spec fn tells_hops(j: JsonView, name: Seq<char>, w: WaveView, d: TraceView, n: int) -> bool {
    exists|rows: Seq<JsonView>| #[trigger]
        says_rows(j, name, rows) && rows.len() == n && forall|i: int|
            0 <= i < n ==> #[trigger] rows[i] == hop_json(w, d.hops[i], d.ask.at)
}

/// What `trace` answers: the signal, the direction, what came of it, and an
/// entry for the first of the hops.
pub proof fn trace_is_told<T: Timescale>(w: WaveView, d: TraceView, limit: int, ts: &T)
    requires
        d.hops.len() <= i64::MAX,
        limit >= 0,
    ensures
        ({
            let j = trace_json(w, d, limit, ts);
            let n = shown_count(d.hops.len() as int, limit);
            &&& says(j, "signal"@, JsonView::Str(d.ask.path))
            &&& says(j, "dir"@, JsonView::Str(direction_tag(d.ask.dir)))
            &&& says(j, "kdb"@, JsonView::Str(d.kdb))
            &&& says(j, "status"@, JsonView::Str(status_tag(d.status)))
            &&& says_counts(j, n, d.hops.len() as int, true)
            &&& d.ask.at matches Some(t) ==> says(j, "at"@ + "_ticks"@, JsonView::Int(t))
            &&& d.ask.dir == Direction::Driver ==> tells_hops(j, "drivers"@, w, d, n)
            &&& d.ask.dir == Direction::Load ==> tells_hops(j, "loads"@, w, d, n)
        }),
{
    let j = trace_json(w, d, limit, ts);
    lemma_says(j, 0);
    lemma_says(j, 1);
    lemma_says(j, 3);
    lemma_says(j, 4);
    let k = if d.ask.at is Some {
        lemma_says(j, 5);
        8int
    } else {
        5int
    };
    lemma_says(j, k);
    lemma_says(j, k + 1);
    lemma_says(j, k + 2);
    lemma_says(j, k + 3);
    lemma_says(j, k + 5);
    assert(says_rows(j, hops_noun(d.ask.dir), j->Object_0[k + 5].1->Array_0));
}

/// A hop of a trace, and each of its endpoints with the value in force at the
/// time asked for.
pub proof fn hops_are_told(w: WaveView, h: HopView, at: Option<int>, k: int)
    requires
        h.group <= i64::MAX,
        0 <= k < h.signals.len(),
    ensures
        ({
            let j = hop_json(w, h, at);
            let e = endpoint_json(w, h.signals[k], at);
            &&& says(j, "group"@, JsonView::Int(h.group as int))
            &&& says(j, "kind"@, JsonView::Str(hop_tag(h.kind)))
            &&& says(j, "statement"@, JsonView::Str(h.statement))
            &&& says(j, "scope"@, JsonView::Str(h.scope))
            &&& h.file matches Some(f) ==> says(j, "file"@, JsonView::Str(f))
            &&& h.line matches Some(l) ==> says(j, "line"@, JsonView::Int(l))
            &&& says(j, "boundary"@, JsonView::Bool(h.boundary))
            &&& exists|rows: Seq<JsonView>| #[trigger]
                says_rows(j, "signals"@, rows) && rows.len() == h.signals.len() && rows[k] == e
            &&& says(e, "path"@, JsonView::Str(h.signals[k]))
            &&& at matches Some(t) ==> (noted(w, h.signals[k], t) matches Some((s, v)) ==> says(
                e,
                "value"@,
                JsonView::Str(compact_value(v, w.table[s as int])),
            ))
            &&& at matches Some(t) ==> noted(w, h.signals[k], t) is None ==> says(
                e,
                "value"@,
                JsonView::Null,
            )
            &&& at is None ==> e->Object_0.len() == 1
        }),
{
    let j = hop_json(w, h, at);
    lemma_says(j, 0);
    lemma_says(j, 1);
    lemma_says(j, 3);
    lemma_says(j, 4);
    lemma_says(j, 5);
    lemma_says(j, 6);
    lemma_says(j, 7);
    lemma_says(j, 8);
    assert(says_rows(j, "signals"@, j->Object_0[8].1->Array_0));
    let e = endpoint_json(w, h.signals[k], at);
    lemma_says(e, 0);
    if at is Some {
        lemma_says(e, 1);
    }
}

/// The value noted for an endpoint is the one in force, of the signal that the
/// name stands for.
pub proof fn notes_are_values_in_force(w: WaveView, name: Seq<char>, t: int)
    ensures
        noted(w, name, t) matches Some((s, v)) ==> endpoint_of(w.table, name)
            == Some(s) && value_at(w.traces[s as int], t) == Some(v),
        noted(w, name, t) is None ==> (endpoint_of(w.table, name) matches Some(s)
            ==> value_at(w.traces[s as int], t) is None),
{
}

// ---- info ----

/// What `info` answers: the file, its size, its signals and its times.
pub proof fn info_is_told<T: Timescale>(w: WaveView, size: int, ts: &T)
    requires
        w.table.len() <= i64::MAX,
        w.meta.decls.len() <= i64::MAX,
    ensures
        ({
            let j = info_json(w, size, ts);
            &&& says(j, "file"@, JsonView::Str(w.meta.path))
            &&& says(j, "size_bytes"@, JsonView::Int(size))
            &&& says(j, "timescale"@, JsonView::Str(w.meta.timescale))
            &&& says(j, "date"@, JsonView::Str(w.meta.date))
            &&& says(j, "version"@, JsonView::Str(w.meta.version))
            &&& says(j, "comments"@, texts_json(w.meta.comments))
            &&& says(j, "signal_count"@, JsonView::Int(w.table.len() as int))
            &&& says(j, "reference_count"@, JsonView::Int(w.meta.decls.len() as int))
            &&& w.meta.time_range matches Some((a, b)) ==> 0 <= a <= b ==> {
                &&& says(j, "time_min"@ + "_ticks"@, JsonView::Int(a as int))
                &&& says(j, "time_max"@ + "_ticks"@, JsonView::Int(b as int))
                &&& says(j, "duration"@ + "_ticks"@, JsonView::Int(b - a))
            }
            &&& w.meta.time_range is None ==> says(j, "time_max"@ + "_ticks"@, JsonView::Null)
            &&& says(
                j,
                "scopes"@,
                texts_json(sorted_set(scopes_in(w.table))),
            )
        }),
{
    let j = info_json(w, size, ts);
    lemma_says(j, 0);
    lemma_says(j, 1);
    lemma_says(j, 2);
    lemma_says(j, 3);
    lemma_says(j, 4);
    lemma_says(j, 5);
    lemma_says(j, 6);
    lemma_says(j, 7);
    lemma_says(j, 10);
    lemma_says(j, 12);
    lemma_says(j, 14);
    lemma_says(j, 16);
}

// ---- commands ----

/// A command answers what it found, under its own limit and `--verbose`.
pub proof fn commands_answer_what_they_find<T: Timescale>(
    w: WaveView,
    a: ArgsView,
    out: OutsideView,
    ts: &T,
    j: JsonView,
)
    requires
        computed(w, a, out, ts) == Ok::<JsonView, Seq<char>>(j),
    ensures
        a.command == Command::Info ==> j == info_json(w, out.size, ts),
        a.command == Command::List ==> list_of(w.table, a) is Ok && j == list_json(
            w.table,
            list_of(w.table, a)->Ok_0,
            list_selective(a),
            a.verbose,
            limit_view(a),
        ),
        a.command == Command::Dump ==> dump_of(w, a, ts) is Ok && j == dump_json(
            w,
            dump_of(w, a, ts)->Ok_0,
            a.verbose,
            ts,
        ),
        a.command == Command::Summary ==> summary_of(w, a, ts) is Ok && j == summary_json(
            w.table,
            summary_of(w, a, ts)->Ok_0,
            a.verbose,
            limit_view(a),
            ts,
        ),
        a.command == Command::Snapshot ==> snapshot_of(w, a, ts) is Ok && j == snapshot_json(
            w.table,
            snapshot_of(w, a, ts)->Ok_0,
            a.verbose,
            limit_view(a),
            ts,
        ),
        a.command == Command::Compare ==> compare_of(w, a, ts) is Ok && j == compare_json(
            w.table,
            compare_of(w, a, ts)->Ok_0,
            a.verbose,
            limit_view(a),
            ts,
        ),
        a.command == Command::Search ==> search_of(w, a, ts) is Ok && j == search_json(
            w,
            search_of(w, a, ts)->Ok_0,
            a.verbose,
            limit_view(a) as usize,
            ts,
        ),
        a.command == Command::Tree ==> tree_of(w.table, a) is Ok && j == tree_json(
            tree_of(w.table, a)->Ok_0,
            limit_view(a),
        ),
        a.command == Command::Trace ==> out.trace is Ok && j == trace_json(
            w,
            out.trace->Ok_0,
            limit_view(a),
            ts,
        ),
{
}

// ---- a batch ----

/// An answer of a batch bears its line's name, and says whether it failed.
pub proof fn batch_answers_are_framed(id: Seq<char>, r: Result<JsonView, Seq<char>>)
    ensures
        says(framed(id, r), "id"@, JsonView::Str(id)),
        says(framed(id, r), "ok"@, JsonView::Bool(r is Ok)),
        r matches Ok(j) ==> says(framed(id, r), "result"@, j),
        r matches Err(e) ==> says(framed(id, r), "error"@, JsonView::Str(e)),
{
    let j = framed(id, r);
    lemma_says(j, 0);
    lemma_says(j, 1);
    lemma_says(j, 2);
}

} // verus!
