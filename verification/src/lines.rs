//! What the text answers say, line by line.

use vstd::prelude::*;

use crate::activity::StatsView;
use crate::compare::{compare_text, diff_line, diff_lines, text_or_undef, CompareView, DiffView};
use crate::design::{hop_tag, Direction, HopKind, HopView};
use crate::dump::{at_least, dump_text, event_line, event_lines, opt_line, text_value, DumpView};
use crate::format::value_text;
use crate::hierarchy::NodeView;
use crate::history::{raw_text, RawView};
use crate::info::{
    info_text, item_lines, line_unless_empty, signals_line, thousands_text, time_line,
    types_line,
};
use crate::list::{entry_line, entry_lines, list_text, EntryView};
use crate::model::{scopes_in, WaveView};
use crate::number::dec;
use crate::order::sorted_set;
use crate::replay::EventView;
use crate::report::{alias_note_text, count_text, header_text, shown_count, trunc_text, window_text};
use crate::search::{hit_line, hit_lines, hits_of, row_noun, search_text, HitView, SearchView};
use crate::signal::{type_counts_of, SignalView};
use crate::snapshot::{snap_line, snap_lines, snapshot_text, SnapRowView, SnapView};
use crate::summary::{group_heading, row_line, row_lines, summary_text, SummaryView};
use crate::sweep::{first_rows, rows_counted, shown_text};
use crate::text::{has_infix, joined, left_justified, occurs_at, repeated, right_justified};
use crate::time::Timescale;
use crate::trace::{
    base_name, endpoint_line, endpoint_lines, hop_text, hop_texts, kind_width, location_width,
    noted, trace_text, trace_title, TraceView,
};
use crate::tree::{node_line, node_lines, tree_text, tree_title, widest, TreeView};

verus! {

/// What stands between two texts is in the whole.
pub proof fn middle_is_in_the_whole(a: Seq<char>, x: Seq<char>, b: Seq<char>)
    ensures
        has_infix(a + x + b, x),
{
    let all = a + x + b;
    assert(all.subrange(a.len() as int, a.len() as int + x.len()) =~= x);
    assert(occurs_at(all, x, a.len() as int));
}

proof fn lemma_in_part(a: Seq<char>, part: Seq<char>, b: Seq<char>, x: Seq<char>)
    requires
        has_infix(part, x),
    ensures
        has_infix(a + part + b, x),
{
    let at = choose|at: int| occurs_at(part, x, at);
    let all = a + part + b;
    assert(all.subrange(a.len() + at, a.len() + at + x.len()) =~= part.subrange(
        at,
        at + x.len(),
    ));
    assert(occurs_at(all, x, a.len() + at));
}

proof fn lemma_first(a: Seq<char>, b: Seq<char>, x: Seq<char>)
    requires
        has_infix(a, x),
    ensures
        has_infix(a + b, x),
{
    lemma_in_part(Seq::empty(), a, b, x);
    assert(Seq::<char>::empty() + a + b =~= a + b);
}

proof fn lemma_second(a: Seq<char>, b: Seq<char>, x: Seq<char>)
    requires
        has_infix(b, x),
    ensures
        has_infix(a + b, x),
{
    lemma_in_part(a, b, Seq::empty(), x);
    assert(a + b + Seq::<char>::empty() =~= a + b);
}

proof fn lemma_itself(x: Seq<char>)
    ensures
        has_infix(x, x),
{
    middle_is_in_the_whole(Seq::empty(), x, Seq::empty());
    assert(Seq::<char>::empty() + x + Seq::<char>::empty() =~= x);
}

/// A value in a text is shown by its bits, as the signal's kind has it; or else
/// by its own kind.
pub proof fn values_are_written_by_kind(v: RawView, g: SignalView)
    ensures
        v is Bits ==> text_value(v, g) == value_text(raw_text(v), g.kind, g.width),
        v is Real ==> text_value(v, g) == raw_text(v),
        v is Str ==> text_value(v, g) == raw_text(v),
        v is Event ==> text_value(v, g) == "triggered"@,
{
}

/// How a signal's value is written on a line of its own.
pub open spec fn value_line(g: SignalView, value: Seq<char>) -> Seq<char> {
    "  "@ + left_justified(g.path, 55) + " = "@ + value + "\n"@
}

// ---- dump ----

proof fn lemma_event_lines<T: Timescale>(
    table: Seq<SignalView>,
    events: Seq<EventView>,
    n: int,
    ts: &T,
    i: int,
)
    requires
        0 <= i < n,
    ensures
        has_infix(
            event_lines(table, events, n, false, ts),
            value_line(
                table[events[i].sid as int],
                text_value(events[i].value, table[events[i].sid as int]),
            ),
        ),
    decreases n,
{
    let e = events[i];
    let line = value_line(table[e.sid as int], text_value(e.value, table[e.sid as int]));
    let before = event_lines(table, events, n - 1, false, ts);
    let last = events[n - 1];
    let head = if n == 1 || events[n - 2].tick != last.tick {
        "T="@ + ts.shown(last.tick) + "\n"@
    } else {
        Seq::empty()
    };
    let own = event_line(table[last.sid as int], last.value, false);
    if i == n - 1 {
        assert(own =~= line);
        lemma_itself(line);
        lemma_second(before + head, own, line);
    } else {
        lemma_event_lines(table, events, n - 1, ts, i);
        lemma_first(before, head, line);
        lemma_first(before + head, own, line);
    }
}

/// The text of a dump begins with its window and has a line for each event.
pub proof fn dump_writes_its_events<T: Timescale>(w: WaveView, d: DumpView, ts: &T, i: int)
    requires
        0 <= i < d.events.len(),
    ensures
        has_infix(dump_text(w, d, false, ts), window_text(d.t0, d.t1, ts)),
        ({
            let g = w.table[d.events[i].sid as int];
            has_infix(dump_text(w, d, false, ts), value_line(g, text_value(d.events[i].value, g)))
        }),
{
    let g = w.table[d.events[i].sid as int];
    let line = value_line(g, text_value(d.events[i].value, g));
    let n = d.events.len() as int;
    let all = dump_text(w, d, false, ts);
    lemma_event_lines(w.table, d.events, n, ts, i);
    let rows = event_lines(w.table, d.events, n, false, ts);
    let win = window_text(d.t0, d.t1, ts);
    let head = win + "\n"@ + opt_line(""@, header_text(d.matched))
        + opt_line("Note: "@, alias_note_text(d.matched));
    let tail = opt_line(
        ""@,
        if d.truncated {
            Some(trunc_text(n as nat, at_least(n as nat, true), "+"@, "events"@))
        } else {
            None
        },
    );
    assert(all =~= head + rows + tail);
    lemma_in_part(head, rows, tail, line);
    let rest = all.skip(win.len() as int);
    assert(all =~= win + rest);
    lemma_itself(win);
    lemma_first(win, rest, win);
}

// ---- list ----

/// How `list` writes a path.
pub open spec fn path_line(g: SignalView, path: Seq<char>) -> Seq<char> {
    "  "@ + left_justified(path, 60) + " "@ + right_justified(dec(g.width as nat), 5) + "  "@
        + g.type_str + "\n"@
}

proof fn lemma_entry_lines(table: Seq<SignalView>, e: Seq<EntryView>, n: int, i: int)
    requires
        0 <= i < n,
    ensures
        has_infix(entry_lines(table, e, n), path_line(table[e[i].sid as int], e[i].path)),
    decreases n,
{
    let line = path_line(table[e[i].sid as int], e[i].path);
    let before = entry_lines(table, e, n - 1);
    let own = entry_line(table, e[n - 1]);
    if i == n - 1 {
        lemma_itself(line);
        lemma_second(before, own, line);
    } else {
        lemma_entry_lines(table, e, n - 1, i);
        lemma_first(before, own, line);
    }
}

/// The text of a list has a line for each path that is shown.
pub proof fn list_writes_its_paths(
    table: Seq<SignalView>,
    e: Seq<EntryView>,
    selective: bool,
    limit: int,
    i: int,
)
    requires
        0 <= i < shown_count(e.len() as int, limit),
        limit >= 0,
    ensures
        has_infix(list_text(table, e, selective, limit), path_line(table[e[i].sid as int], e[i].path)),
{
    let line = path_line(table[e[i].sid as int], e[i].path);
    let shown = shown_count(e.len() as int, limit);
    lemma_entry_lines(table, e, shown, i);
    let rows = entry_lines(table, e, shown);
    let head = "Matched: "@ + dec(e.len()) + "/"@ + dec(table.len()) + "\n"@;
    let none = Seq::<char>::empty();
    lemma_second(head + none, rows, line);
    assert(list_text(table, e, selective, limit) == (head + none + rows) + opt_line(
        ""@,
        if shown < e.len() {
            Some(trunc_text(shown as nat, e.len(), ""@, "signals"@))
        } else {
            None
        },
    ));
    lemma_first(
        head + none + rows,
        opt_line(
            ""@,
            if shown < e.len() {
                Some(trunc_text(shown as nat, e.len(), ""@, "signals"@))
            } else {
                None
            },
        ),
        line,
    );
}

// ---- snapshot and compare ----

proof fn lemma_snap_lines(table: Seq<SignalView>, rows: Seq<SnapRowView>, n: int, i: int)
    requires
        0 <= i < n,
    ensures
        has_infix(
            snap_lines(table, rows, n, false),
            value_line(
                table[rows[i].sid as int],
                text_or_undef(rows[i].value, table[rows[i].sid as int]),
            ),
        ),
    decreases n,
{
    reveal_strlit(" = ");
    reveal_strlit(" = (undef)\n");
    reveal_strlit("(undef)");
    reveal_strlit("\n");
    let g = table[rows[i].sid as int];
    let line = value_line(g, text_or_undef(rows[i].value, g));
    let before = snap_lines(table, rows, n - 1, false);
    let own = snap_line(table, rows[n - 1], false);
    if i == n - 1 {
        assert(own =~= line);
        lemma_itself(line);
        lemma_second(before, own, line);
    } else {
        lemma_snap_lines(table, rows, n - 1, i);
        lemma_first(before, own, line);
    }
}

/// The text of a snapshot has a line for each signal that is shown, with its
/// value or a word that it has none.
pub proof fn snapshot_writes_its_values<T: Timescale>(
    table: Seq<SignalView>,
    d: SnapView,
    limit: int,
    ts: &T,
    i: int,
)
    requires
        limit >= 0,
        0 <= i < shown_count(d.rows.len() as int, limit),
    ensures
        ({
            let g = table[d.rows[i].sid as int];
            has_infix(
                snapshot_text(table, d, false, limit, ts),
                value_line(g, text_or_undef(d.rows[i].value, g)),
            )
        }),
{
    let g = table[d.rows[i].sid as int];
    let line = value_line(g, text_or_undef(d.rows[i].value, g));
    let shown = shown_count(d.rows.len() as int, limit);
    lemma_snap_lines(table, d.rows, shown, i);
    let rows = snap_lines(table, d.rows, shown, false);
    let all = snapshot_text(table, d, false, limit, ts);
    let head = (if d.known == 0 {
        "No known values at "@ + ts.shown(d.t_at) + ".\n"@
    } else {
        "Known snapshot @ "@ + ts.shown(d.t_at) + "\n"@
    }) + opt_line(""@, header_text(d.matched)) + opt_line(
        "Note: "@,
        alias_note_text(d.matched),
    ) + Seq::empty();
    let tail = opt_line(
        ""@,
        if shown < d.rows.len() {
            Some(trunc_text(shown as nat, d.rows.len(), ""@, "signals"@))
        } else {
            None
        },
    );
    assert(all == head + rows + tail);
    lemma_in_part(head, rows, tail, line);
}

/// How `compare` writes a difference.
pub open spec fn change_line(g: SignalView, x: DiffView) -> Seq<char> {
    "  "@ + left_justified(g.path, 48) + " "@ + text_or_undef(x.a, g) + " -> "@ + text_or_undef(
        x.b,
        g,
    ) + "\n"@
}

proof fn lemma_diff_lines(table: Seq<SignalView>, d: Seq<DiffView>, n: int, i: int)
    requires
        0 <= i < n,
    ensures
        has_infix(diff_lines(table, d, n), change_line(table[d[i].sid as int], d[i])),
    decreases n,
{
    let line = change_line(table[d[i].sid as int], d[i]);
    let before = diff_lines(table, d, n - 1);
    let own = diff_line(table, d[n - 1]);
    if i == n - 1 {
        lemma_itself(line);
        lemma_second(before, own, line);
    } else {
        lemma_diff_lines(table, d, n - 1, i);
        lemma_first(before, own, line);
    }
}

/// The text of a comparison counts what changed and what did not, and has a
/// line for each difference that is shown: from the value at the first time to
/// that at the second.
pub proof fn compare_writes_its_differences<T: Timescale>(
    table: Seq<SignalView>,
    d: CompareView,
    limit: int,
    ts: &T,
    i: int,
)
    requires
        limit >= 0,
        0 <= i < shown_count(d.diffs.len() as int, limit),
        d.diffs.len() <= d.union_len,
    ensures
        has_infix(
            compare_text(table, d, limit, ts),
            change_line(table[d.diffs[i].sid as int], d.diffs[i]),
        ),
        has_infix(
            compare_text(table, d, limit, ts),
            dec(d.diffs.len()) + " changed, "@ + dec((d.union_len - d.diffs.len()) as nat)
                + " unchanged\n"@,
        ),
{
    let line = change_line(table[d.diffs[i].sid as int], d.diffs[i]);
    let shown = shown_count(d.diffs.len() as int, limit);
    lemma_diff_lines(table, d.diffs, shown, i);
    let rows = diff_lines(table, d.diffs, shown);
    let tally = dec(d.diffs.len()) + " changed, "@ + dec((d.union_len - d.diffs.len()) as nat)
        + " unchanged\n"@;
    let all = compare_text(table, d, limit, ts);
    let head = "Compare: "@ + ts.shown(d.ta) + " vs "@ + ts.shown(d.tb) + "\n"@
        + opt_line(""@, header_text(d.matched)) + opt_line(
        "Note: "@,
        alias_note_text(d.matched),
    );
    let tail = opt_line(
        ""@,
        if shown < d.diffs.len() {
            Some(trunc_text(shown as nat, d.diffs.len(), ""@, "diffs"@))
        } else {
            None
        },
    );
    assert(all == head + tally + rows + tail);
    lemma_in_part(head + tally, rows, tail, line);
    lemma_itself(tally);
    lemma_second(head, tally, tally);
    lemma_first(head + tally, rows, tally);
    lemma_first(head + tally + rows, tail, tally);
}

// ---- search ----

/// How `search` writes the values that are shown.
pub open spec fn shown_values(
    table: Seq<SignalView>,
    show: Seq<usize>,
    raws: Seq<Option<Seq<char>>>,
) -> Seq<Seq<char>> {
    Seq::new(
        show.len(),
        |k: int| table[show[k] as int].path + "="@ + shown_text(raws[k], table[show[k] as int]),
    )
}

/// How `search` writes a row: when it begins and, of an interval, ends; and the
/// values shown, or else the condition.
pub open spec fn found_line<T: Timescale>(
    table: Seq<SignalView>,
    d: SearchView,
    h: HitView,
    ts: &T,
) -> Seq<char> {
    let what = if d.show.len() == 0 {
        d.text
    } else {
        joined(shown_values(table, d.show, h.raws), " "@)
    };
    match h.end {
        Some(t) => "  "@ + left_justified(ts.shown(h.begin), 12) + ".."@ + left_justified(
            ts.shown(t),
            12,
        ) + " "@ + what + "\n"@,
        None => "  T="@ + left_justified(ts.shown(h.begin), 12) + " "@ + what + "\n"@,
    }
}

proof fn lemma_hit_lines<T: Timescale>(
    table: Seq<SignalView>,
    d: SearchView,
    h: Seq<HitView>,
    n: int,
    ts: &T,
    i: int,
)
    requires
        0 <= i < n,
    ensures
        has_infix(hit_lines(table, d, h, n, ts), found_line(table, d, h[i], ts)),
    decreases n,
{
    let line = found_line(table, d, h[i], ts);
    let before = hit_lines(table, d, h, n - 1, ts);
    let own = hit_line(table, d, h[n - 1], ts);
    if i == n - 1 {
        assert(shown_values(table, d.show, h[i].raws) =~= Seq::new(
            d.show.len(),
            |k: int|
                table[d.show[k] as int].path + "="@ + shown_text(
                    h[i].raws[k],
                    table[d.show[k] as int],
                ),
        ));
        assert(own == line);
        lemma_itself(line);
        lemma_second(before, own, line);
    } else {
        lemma_hit_lines(table, d, h, n - 1, ts, i);
        lemma_first(before, own, line);
    }
}

/// The text of a search has a line for each row that is shown.
pub proof fn search_writes_its_rows<T: Timescale>(
    w: WaveView,
    d: SearchView,
    limit: usize,
    ts: &T,
    i: int,
)
    requires
        0 <= i < shown_count(hits_of(w, d).len() as int, limit as int),
    ensures
        has_infix(search_text(w, d, limit, ts), found_line(w.table, d, hits_of(w, d)[i], ts)),
{
    let all = hits_of(w, d);
    let shown = first_rows(all, limit);
    let n = shown.len() as int;
    assert(shown[i] == all[i]);
    let line = found_line(w.table, d, all[i], ts);
    lemma_hit_lines(w.table, d, shown, n, ts, i);
    let rows = hit_lines(w.table, d, shown, n, ts);
    let more = limit != 0 && all.len() > limit;
    let total = rows_counted(all.len(), limit);
    let head = "Found: "@ + count_text(total, more) + " "@ + row_noun(d)
        + "(s)\n"@;
    let tail = opt_line(
        ""@,
        if more {
            Some(
                trunc_text(
                    n as nat,
                    total,
                    "+"@,
                    row_noun(d) + "s"@,
                ),
            )
        } else {
            None
        },
    );
    assert(search_text(w, d, limit, ts) == head + rows + tail);
    lemma_in_part(head, rows, tail, line);
}

// ---- tree ----

/// How `tree` writes a scope: a root or a link of a chain by its path, any other
/// by its name, two blanks further in for every level.
pub open spec fn scope_line(chain: bool, n: NodeView, width: nat) -> Seq<char> {
    let label = if chain || n.level == 0 {
        n.path
    } else {
        repeated(' ', (2 * n.level) as nat) + n.name
    };
    "  "@ + left_justified(label, width) + "  "@ + dec(n.signals) + " signal(s)"@ + (if n.children
        == 0 {
        ""@
    } else {
        ", "@ + dec(n.children) + " child scope(s)"@
    }) + "\n"@
}

proof fn lemma_node_lines(chain: bool, nodes: Seq<NodeView>, n: int, width: nat, i: int)
    requires
        0 <= i < n,
    ensures
        has_infix(node_lines(chain, nodes, n, width), scope_line(chain, nodes[i], width)),
    decreases n,
{
    let line = scope_line(chain, nodes[i], width);
    let before = node_lines(chain, nodes, n - 1, width);
    let own = node_line(chain, nodes[n - 1], width);
    if i == n - 1 {
        let level = nodes[i].level;
        assert(repeated(' ', level) + repeated(' ', level) =~= repeated(' ', (2 * level) as nat));
        assert(own == line);
        lemma_itself(line);
        lemma_second(before, own, line);
    } else {
        lemma_node_lines(chain, nodes, n - 1, width, i);
        lemma_first(before, own, line);
    }
}

/// The text of a tree has a line for each scope that is shown.
pub proof fn tree_writes_its_scopes(d: TreeView, limit: int, i: int)
    requires
        limit >= 0,
        0 <= i < shown_count(d.nodes.len() as int, limit),
    ensures
        has_infix(
            tree_text(d, limit),
            scope_line(
                d.of is Some,
                d.nodes[i],
                widest(d.of is Some, d.nodes, shown_count(d.nodes.len() as int, limit)),
            ),
        ),
{
    let shown = shown_count(d.nodes.len() as int, limit);
    let chain = d.of is Some;
    let width = widest(chain, d.nodes, shown);
    let line = scope_line(chain, d.nodes[i], width);
    lemma_node_lines(chain, d.nodes, shown, width, i);
    let rows = node_lines(chain, d.nodes, shown, width);
    let note = if d.root_signals > 0 && !chain {
        "\n  ("@ + dec(d.root_signals) + " signal(s) at the file root, outside any scope)\n"@
    } else {
        ""@
    };
    let tail = opt_line(
        ""@,
        if shown < d.nodes.len() {
            Some(trunc_text(shown as nat, d.nodes.len(), ""@, "scopes"@))
        } else {
            None
        },
    );
    assert(tree_text(d, limit) == tree_title(d) + ("\n"@ + rows + note + tail));
    lemma_second("\n"@, rows, line);
    lemma_first("\n"@ + rows, note, line);
    lemma_first("\n"@ + rows + note, tail, line);
    lemma_second(tree_title(d), "\n"@ + rows + note + tail, line);
}

// ---- summary ----

/// How `summary` writes the row of a signal that changes.
pub open spec fn active_line(g: SignalView, r: StatsView) -> Seq<char> {
    "  "@ + left_justified(g.path, 45) + ""@ + (" chg="@ + dec(r.changes) + (if g.width == 1 {
        " r="@ + dec(r.rises) + " f="@ + dec(r.falls)
    } else {
        ""@
    }) + " init="@ + text_or_undef(r.initial, g) + " last="@ + text_or_undef(r.last, g) + ""@) + (
    if r.unknown {
        " has-unknown"@
    } else {
        ""@
    }) + "\n"@
}

/// How `summary` writes the row of a signal that keeps its value.
pub open spec fn static_line(g: SignalView, r: StatsView, v: RawView) -> Seq<char> {
    "  "@ + left_justified(g.path, 45) + ""@ + (" value="@ + text_value(v, g)) + (if r.unknown {
        " has-unknown"@
    } else {
        ""@
    }) + "\n"@
}

proof fn lemma_row_lines<T: Timescale>(
    table: Seq<SignalView>,
    rows: Seq<StatsView>,
    n: int,
    verbose: bool,
    ts: &T,
    i: int,
)
    requires
        0 <= i < n,
    ensures
        has_infix(
            row_lines(table, rows, n, verbose, ts),
            row_line(table[rows[i].sid as int], rows[i], verbose, ts),
        ),
    decreases n,
{
    let line = row_line(table[rows[i].sid as int], rows[i], verbose, ts);
    let before = row_lines(table, rows, n - 1, verbose, ts);
    let title = group_heading(rows, n - 1);
    let own = row_line(table[rows[n - 1].sid as int], rows[n - 1], verbose, ts);
    if i == n - 1 {
        lemma_itself(line);
        lemma_second(title, own, line);
        lemma_second(before, title + own, line);
    } else {
        lemma_row_lines(table, rows, n - 1, verbose, ts, i);
        lemma_first(before, title + own, line);
    }
}

/// The parts of a summary before its rows, and after them.
spec fn summary_head<T: Timescale>(d: SummaryView, ts: &T) -> Seq<char> {
    window_text(d.t0, d.t1, ts) + "\n"@ + (first_tally(d) + second_tally(d))
}

spec fn first_tally(d: SummaryView) -> Seq<char> {
    "Selected: "@ + dec(d.selected) + ", Defined: "@ + dec(d.active + d.static_) + ", Undefined: "@
        + dec(d.undefined) + "\n"@
}

spec fn second_tally(d: SummaryView) -> Seq<char> {
    "Active: "@ + dec(d.active) + ", Static: "@ + dec(d.static_) + "\n"@
}

spec fn summary_tail(d: SummaryView, limit: int) -> Seq<char> {
    let shown = shown_count(d.rows.len() as int, limit);
    (if d.selected == 0 {
        "(no selected signals)\n"@
    } else {
        ""@
    }) + opt_line(
        ""@,
        if shown < d.rows.len() {
            Some(trunc_text(shown as nat, d.rows.len(), ""@, "rows"@))
        } else {
            None
        },
    )
}

proof fn lemma_summary_parts<T: Timescale>(
    table: Seq<SignalView>,
    d: SummaryView,
    limit: int,
    ts: &T,
)
    ensures
        summary_text(table, d, false, limit, ts) == summary_head(d, ts) + row_lines(
            table,
            d.rows,
            shown_count(d.rows.len() as int, limit),
            false,
            ts,
        ) + summary_tail(d, limit),
{
    assert(summary_text(table, d, false, limit, ts) =~= summary_head(d, ts) + row_lines(
        table,
        d.rows,
        shown_count(d.rows.len() as int, limit),
        false,
        ts,
    ) + summary_tail(d, limit));
}

proof fn lemma_row_line<T: Timescale>(g: SignalView, r: StatsView, ts: &T)
    ensures
        r.changes > 0 ==> row_line(g, r, false, ts) == active_line(g, r),
        r.changes == 0 && r.initial is Some && r.last is Some ==> row_line(g, r, false, ts)
            == static_line(g, r, r.last->0),
{
}

proof fn lemma_tallies<T: Timescale>(d: SummaryView, ts: &T)
    ensures
        has_infix(summary_head(d, ts), first_tally(d)),
        has_infix(summary_head(d, ts), second_tally(d)),
{
    let win = window_text(d.t0, d.t1, ts) + "\n"@;
    let both = first_tally(d) + second_tally(d);
    lemma_itself(first_tally(d));
    lemma_itself(second_tally(d));
    lemma_first(first_tally(d), second_tally(d), first_tally(d));
    lemma_second(first_tally(d), second_tally(d), second_tally(d));
    lemma_second(win, both, first_tally(d));
    lemma_second(win, both, second_tally(d));
}

/// The text of a summary counts the signals selected, with and without a value,
/// and those that change and that do not.
pub proof fn summary_writes_its_tallies<T: Timescale>(
    table: Seq<SignalView>,
    d: SummaryView,
    limit: int,
    ts: &T,
)
    ensures
        has_infix(
            summary_text(table, d, false, limit, ts),
            "Selected: "@ + dec(d.selected) + ", Defined: "@ + dec(d.active + d.static_)
                + ", Undefined: "@ + dec(d.undefined) + "\n"@,
        ),
        has_infix(
            summary_text(table, d, false, limit, ts),
            "Active: "@ + dec(d.active) + ", Static: "@ + dec(d.static_) + "\n"@,
        ),
{
    lemma_summary_parts(table, d, limit, ts);
    lemma_tallies(d, ts);
    let head = summary_head(d, ts);
    let rows = row_lines(table, d.rows, shown_count(d.rows.len() as int, limit), false, ts);
    lemma_first(head, rows, first_tally(d));
    lemma_first(head, rows, second_tally(d));
    lemma_first(head + rows, summary_tail(d, limit), first_tally(d));
    lemma_first(head + rows, summary_tail(d, limit), second_tally(d));
}

/// The text of a summary has a line for each row that is shown.
pub proof fn summary_writes_its_rows<T: Timescale>(
    table: Seq<SignalView>,
    d: SummaryView,
    limit: int,
    ts: &T,
    i: int,
)
    requires
        limit >= 0,
        0 <= i < shown_count(d.rows.len() as int, limit),
    ensures
        ({
            let g = table[d.rows[i].sid as int];
            let r = d.rows[i];
            let all = summary_text(table, d, false, limit, ts);
            &&& r.changes > 0 ==> has_infix(all, active_line(g, r))
            &&& r.changes == 0 && r.initial is Some && r.last is Some ==> has_infix(
                all,
                static_line(g, r, r.last->0),
            )
        }),
{
    let shown = shown_count(d.rows.len() as int, limit);
    let g = table[d.rows[i].sid as int];
    lemma_row_lines(table, d.rows, shown, false, ts, i);
    lemma_summary_parts(table, d, limit, ts);
    lemma_row_line(g, d.rows[i], ts);
    lemma_in_part(
        summary_head(d, ts),
        row_lines(table, d.rows, shown, false, ts),
        summary_tail(d, limit),
        row_line(g, d.rows[i], false, ts),
    );
}

// ---- info ----

proof fn lemma_item_lines(label: Seq<char>, v: Seq<Seq<char>>, n: int, i: int)
    requires
        0 <= i < n,
    ensures
        has_infix(item_lines(label, v, n), label + v[i] + "\n"@),
    decreases n,
{
    let line = label + v[i] + "\n"@;
    let before = item_lines(label, v, n - 1);
    let own = label + v[n - 1] + "\n"@;
    if i == n - 1 {
        lemma_itself(line);
        lemma_second(before, own, line);
    } else {
        lemma_item_lines(label, v, n - 1, i);
        lemma_first(before, own, line);
    }
}

/// The text of `info` names every scope that holds a signal.
pub proof fn info_writes_its_scopes<T: Timescale>(
    w: WaveView,
    size: int,
    verbose: bool,
    ts: &T,
    i: int,
)
    requires
        0 <= i < sorted_set(scopes_in(w.table)).len(),
    ensures
        has_infix(
            info_text(w, size, verbose, ts),
            "  scope: "@ + sorted_set(scopes_in(w.table))[i] + "\n"@,
        ),
{
    let scopes = sorted_set(scopes_in(w.table));
    let n = scopes.len() as int;
    lemma_item_lines("  scope: "@, scopes, n, i);
    let rows = item_lines("  scope: "@, scopes, n);
    let line = "  scope: "@ + scopes[i] + "\n"@;
    let notes = if w.meta.comments.len() > 0 && verbose {
        "Comments  :\n"@ + item_lines("  - "@, w.meta.comments, w.meta.comments.len() as int)
    } else {
        Seq::empty()
    };
    let all = info_text(w, size, verbose, ts);
    let k = all.len() - notes.len() - rows.len();
    let head = "File      : "@ + w.meta.path + "\n"@ + ("Size      : "@ + thousands_text(size)
        + " bytes\n"@) + line_unless_empty("Date      : "@, w.meta.date)
        + line_unless_empty("Tool      : "@, w.meta.version) + ("Timescale : "@
        + w.meta.timescale + "\n"@) + signals_line(w.table.len(), w.meta.decls.len())
        + types_line(type_counts_of(w.meta.decls))
        + time_line(w, ts);
    assert(all == head + rows + notes);
    lemma_in_part(head, rows, notes, line);
}

// ---- trace ----

/// Where a hop stands: the name of its file and the line; nothing where either
/// is not known.
pub open spec fn place_of(h: HopView) -> Seq<char> {
    match (h.file, h.line) {
        (Some(f), Some(l)) => base_name(f) + ":"@ + dec(l as nat),
        _ => ""@,
    }
}

/// How `trace` writes a hop: its kind, its place, and the statement; or, of a
/// port on the way to a load, just the other end.
pub open spec fn hop_line(h: HopView, detail: bool, kw: nat, lw: nat) -> Seq<char> {
    "  "@ + left_justified(hop_tag(h.kind), kw) + "  "@ + left_justified(place_of(h), lw) + "  "@ + (
    if detail || h.kind != HopKind::Port || h.signals.len() == 0 {
        h.statement
    } else {
        "-> "@ + h.signals[0]
    }) + "\n"@
}

/// How `trace` writes an endpoint: where the signal comes from, or goes to, with
/// its value at the time asked for.
pub open spec fn end_line(w: WaveView, d: TraceView, name: Seq<char>, kw: nat, lw: nat) -> Seq<char> {
    "  "@ + repeated(' ', kw) + repeated(' ', lw) + "    "@ + (if d.ask.dir == Direction::Driver {
        "from"@
    } else {
        "to"@
    }) + ": "@ + name + (match d.ask.at {
        Some(t) => match noted(w, name, t) {
            Some((s, v)) => " = "@ + text_value(v, w.table[s as int]),
            None => ""@,
        },
        None => ""@,
    }) + "\n"@
}

proof fn lemma_end_lines(
    w: WaveView,
    d: TraceView,
    names: Seq<Seq<char>>,
    n: int,
    kw: nat,
    lw: nat,
    k: int,
)
    requires
        0 <= k < n,
    ensures
        has_infix(endpoint_lines(w, d, names, n, kw, lw), end_line(w, d, names[k], kw, lw)),
    decreases n,
{
    let line = end_line(w, d, names[k], kw, lw);
    let before = endpoint_lines(w, d, names, n - 1, kw, lw);
    let own = endpoint_line(w, d, names[n - 1], kw, lw);
    if k == n - 1 {
        assert(own == line);
        lemma_itself(line);
        lemma_second(before, own, line);
    } else {
        lemma_end_lines(w, d, names, n - 1, kw, lw, k);
        lemma_first(before, own, line);
    }
}

proof fn lemma_hop_texts(
    w: WaveView,
    d: TraceView,
    n: int,
    detail: bool,
    kw: nat,
    lw: nat,
    i: int,
    k: int,
)
    requires
        0 <= i < n,
    ensures
        has_infix(hop_texts(w, d, n, detail, kw, lw), hop_line(d.hops[i], detail, kw, lw)),
        detail && 0 <= k < d.hops[i].signals.len() ==> has_infix(
            hop_texts(w, d, n, detail, kw, lw),
            end_line(w, d, d.hops[i].signals[k], kw, lw),
        ),
    decreases n,
{
    let h = d.hops[i];
    let line = hop_line(h, detail, kw, lw);
    let last = end_line(w, d, h.signals[k], kw, lw);
    let before = hop_texts(w, d, n - 1, detail, kw, lw);
    let own = hop_text(w, d, d.hops[n - 1], detail, kw, lw);
    if i == n - 1 {
        let ends = if detail {
            endpoint_lines(w, d, h.signals, h.signals.len() as int, kw, lw)
        } else {
            Seq::empty()
        };
        assert(own == line + ends);
        lemma_itself(line);
        lemma_first(line, ends, line);
        lemma_second(before, own, line);
        if detail && 0 <= k < h.signals.len() {
            lemma_end_lines(w, d, h.signals, h.signals.len() as int, kw, lw, k);
            lemma_second(line, ends, last);
            lemma_second(before, own, last);
        }
    } else {
        lemma_hop_texts(w, d, n - 1, detail, kw, lw, i, k);
        lemma_first(before, own, line);
        if detail && 0 <= k < h.signals.len() {
            lemma_first(before, own, last);
        }
    }
}

/// The text of a trace has a line for each hop that is shown; and one for each
/// of its endpoints, of drivers, at a time, or with `--verbose`.
pub proof fn trace_writes_its_hops(
    w: WaveView,
    d: TraceView,
    verbose: bool,
    limit: int,
    i: int,
    k: int,
)
    requires
        limit >= 0,
        0 <= i < shown_count(d.hops.len() as int, limit),
        0 <= k < d.hops[i].signals.len(),
    ensures
        ({
            let shown = shown_count(d.hops.len() as int, limit);
            let detail = d.ask.dir == Direction::Driver || d.ask.at is Some || verbose;
            let kw = kind_width(d.hops, shown);
            let lw = location_width(d.hops, shown);
            let all = trace_text(w, d, verbose, limit);
            &&& has_infix(all, hop_line(d.hops[i], detail, kw, lw))
            &&& detail ==> has_infix(all, end_line(w, d, d.hops[i].signals[k], kw, lw))
        }),
{
    let shown = shown_count(d.hops.len() as int, limit);
    let detail = d.ask.dir == Direction::Driver || d.ask.at is Some || verbose;
    let kw = kind_width(d.hops, shown);
    let lw = location_width(d.hops, shown);
    let line = hop_line(d.hops[i], detail, kw, lw);
    let last = end_line(w, d, d.hops[i].signals[k], kw, lw);
    lemma_hop_texts(w, d, shown, detail, kw, lw, i, k);
    let rows = hop_texts(w, d, shown, detail, kw, lw);
    let head = trace_title(d) + "\n"@;
    let all = trace_text(w, d, verbose, limit);
    let tail = all.skip((head + rows).len() as int);
    assert(all =~= head + rows + tail);
    lemma_in_part(head, rows, tail, line);
    if detail {
        lemma_in_part(head, rows, tail, last);
    }
}

} // verus!
