//! Which scopes `tree` shows, said of the paths themselves.

use vstd::prelude::*;

use crate::cli::ArgsView;
use crate::filter::{is_separator, MatchMode};
use crate::hierarchy::{
    all_scopes, below, cuts, enclosing, holds_a_path, last_separator, lemma_last_separator,
    lineage, lineage_holds, lineages, node_of, outermost, own_name, paths_in_scope,
    scopes_are_closed, scopes_are_those_that_hold, stands_above, times_in, walked, walked_all,
    NodeView,
};
use crate::model::scopes_in;
use crate::order::sorted_set;
use crate::report::path_meant;
use crate::resolve::{numbers_are_complete, numbers_in_range, numbers_where};
use crate::select::selection_meaning;
use crate::signal::SignalView;
use crate::text::trimmed;
use crate::tree::{
    begins_at, node_label, root_pattern, roots_of, takes_in, texts_at, tree_of, widest,
};

verus! {

/// Can the scopes of a design be numbered?
pub open spec fn countable(table: Seq<SignalView>) -> bool {
    &&& scopes_in(table).len() <= usize::MAX
    &&& lineages(sorted_set(scopes_in(table))).len() <= usize::MAX
    &&& all_scopes(table).len() <= usize::MAX
}

/// How many separators a text holds.
pub open spec fn separators(s: Seq<char>) -> nat
    decreases s.len(),
{
    if s.len() == 0 {
        0
    } else {
        separators(s.drop_last()) + (if is_separator(s.last()) {
            1nat
        } else {
            0nat
        })
    }
}

/// Is `p` the scope `q`, or `k` segments below it?
pub open spec fn segments_below(p: Seq<char>, q: Seq<char>, k: int) -> bool {
    if k == 0 {
        p == q
    } else {
        stands_above(q, p) && separators(p.skip(q.len() as int)) == k
    }
}

proof fn lemma_separators_add(a: Seq<char>, b: Seq<char>)
    ensures
        separators(a + b) == separators(a) + separators(b),
    decreases b.len(),
{
    if b.len() == 0 {
        assert(a + b =~= a);
    } else {
        lemma_separators_add(a, b.drop_last());
        assert((a + b).drop_last() =~= a + b.drop_last());
    }
}

proof fn lemma_one_separator(c: char)
    requires
        is_separator(c),
    ensures
        separators(seq![c]) == 1,
{
    assert(seq![c].drop_last() =~= Seq::empty());
    assert(separators(Seq::empty()) == 0);
}

proof fn lemma_no_separators(s: Seq<char>)
    requires
        forall|i: int| 0 <= i < s.len() ==> !is_separator(#[trigger] s[i]),
    ensures
        separators(s) == 0,
    decreases s.len(),
{
    if s.len() > 0 {
        assert forall|i: int| 0 <= i < s.drop_last().len() implies !is_separator(
            #[trigger] s.drop_last()[i],
        ) by {
            assert(s.drop_last()[i] == s[i]);
        }
        lemma_no_separators(s.drop_last());
        assert(!is_separator(s[s.len() - 1]));
    }
}

proof fn lemma_cut_last(p: Seq<char>, n: int)
    requires
        0 <= n <= last_separator(p),
    ensures
        last_separator(p) < p.len(),
        is_separator(p[last_separator(p)]),
        separators(p.skip(n)) == separators(p.take(last_separator(p)).skip(n)) + 1,
{
    lemma_last_separator(p);
    let c = last_separator(p);
    let front = p.take(c).skip(n);
    let name = p.skip(c + 1);
    let sep = seq![p[c]];
    assert(p.skip(n) =~= (front + sep) + name);
    lemma_separators_add(front + sep, name);
    lemma_separators_add(front, sep);
    lemma_one_separator(p[c]);
    assert forall|i: int| 0 <= i < name.len() implies !is_separator(#[trigger] name[i]) by {
        assert(name[i] == p[c + 1 + i]);
    }
    lemma_no_separators(name);
}

/// A scope is a segment further below than the scope that encloses it.
pub proof fn enclosing_is_one_segment_up(p: Seq<char>, q: Seq<char>, k: int)
    requires
        q.len() > 0,
        k >= 0,
    ensures
        segments_below(p, q, k + 1) <==> enclosing(p) is Some && segments_below(
            enclosing(p)->0,
            q,
            k,
        ),
{
    lemma_last_separator(p);
    let c = last_separator(p);
    let n = q.len() as int;
    if segments_below(p, q, k + 1) {
        assert(c >= n) by {
            if c < n {
                assert(!is_separator(p[n]));
            }
        }
        lemma_cut_last(p, n);
        let m = p.take(c);
        if c == n {
            assert(m =~= q);
            assert(m.skip(n) =~= Seq::empty());
        } else {
            assert(m.take(n) =~= q);
            assert(m[n] == p[n]);
            assert(m.skip(n).len() > 0);
            assert(separators(m.skip(n)) > 0) by {
                let t = m.skip(n);
                assert(t =~= seq![t[0]] + t.skip(1));
                lemma_separators_add(seq![t[0]], t.skip(1));
                lemma_one_separator(t[0]);
            }
        }
    }
    if enclosing(p) is Some && segments_below(enclosing(p)->0, q, k) {
        let m = p.take(c);
        if k == 0 {
            assert(m == q && c == n);
            lemma_cut_last(p, n);
            assert(m.skip(n) =~= Seq::empty());
        } else {
            assert(c > n);
            lemma_cut_last(p, n);
            assert(p.take(n) =~= m.take(n));
            assert(p[n] == m[n]);
        }
    }
}

/// A scope directly below `q` that is `k` segments above `p`, or `p` itself.
proof fn lemma_step_down(table: Seq<SignalView>, p: Seq<char>, q: Seq<char>, k: int)
    requires
        countable(table),
        all_scopes(table).contains(p),
        q.len() > 0,
        k >= 0,
        segments_below(p, q, k + 1),
    ensures
        exists|c: Seq<char>| #[trigger]
            all_scopes(table).contains(c) && enclosing(c) == Some(q) && segments_below(p, c, k),
    decreases k,
{
    enclosing_is_one_segment_up(p, q, k);
    if k == 0 {
        assert(enclosing(p) == Some(q));
        assert(segments_below(p, p, 0));
    } else {
        let up = enclosing(p)->0;
        scopes_are_closed(table, p);
        lemma_step_down(table, up, q, k - 1);
        let c = choose|c: Seq<char>| #[trigger]
            all_scopes(table).contains(c) && enclosing(c) == Some(q) && segments_below(
                up,
                c,
                k - 1,
            );
        scopes_are_those_that_hold(table, c);
        enclosing_is_one_segment_up(p, c, k - 1);
        assert(segments_below(p, c, k));
    }
}

proof fn lemma_step_up(p: Seq<char>, c: Seq<char>, q: Seq<char>, k: int)
    requires
        q.len() > 0,
        c.len() > 0,
        k >= 0,
        enclosing(c) == Some(q),
        segments_below(p, c, k),
    ensures
        segments_below(p, q, k + 1),
    decreases k,
{
    enclosing_is_one_segment_up(p, q, k);
    if k > 0 {
        enclosing_is_one_segment_up(p, c, k - 1);
        lemma_step_up(enclosing(p)->0, c, q, k - 1);
    }
}

/// Is the scope shown at this level?
pub open spec fn shows(nodes: Seq<NodeView>, p: Seq<char>, level: int) -> bool {
    exists|i: int| 0 <= i < nodes.len() && (#[trigger] nodes[i]).path == p && nodes[i].level == level
}

proof fn lemma_shows_add(a: Seq<NodeView>, b: Seq<NodeView>, p: Seq<char>, level: int)
    ensures
        shows(a + b, p, level) <==> shows(a, p, level) || shows(b, p, level),
{
    let all = a + b;
    if shows(a, p, level) {
        let i = choose|i: int|
            0 <= i < a.len() && (#[trigger] a[i]).path == p && a[i].level == level;
        assert(all[i] == a[i]);
    }
    if shows(b, p, level) {
        let i = choose|i: int|
            0 <= i < b.len() && (#[trigger] b[i]).path == p && b[i].level == level;
        assert(all[a.len() + i] == b[i]);
    }
    if shows(all, p, level) {
        let i = choose|i: int|
            0 <= i < all.len() && (#[trigger] all[i]).path == p && all[i].level == level;
        if i < a.len() {
            assert(a[i] == all[i]);
        } else {
            assert(b[i - a.len()] == all[i]);
        }
    }
}

/// Is the scope among these, or `k` segments below one of them?
pub open spec fn below_one_of(p: Seq<char>, tops: Seq<Seq<char>>, k: int) -> bool {
    exists|i: int| 0 <= i < tops.len() && segments_below(p, #[trigger] tops[i], k)
}

proof fn lemma_walked(
    table: Seq<SignalView>,
    pos: usize,
    level: nat,
    deepest: nat,
    p: Seq<char>,
    l: int,
)
    requires
        countable(table),
        pos < all_scopes(table).len(),
        level <= deepest,
    ensures
        shows(walked(table, pos, level, deepest), p, l) <==> level <= l <= deepest && all_scopes(
            table,
        ).contains(p) && segments_below(p, all_scopes(table)[pos as int], l - level),
    decreases deepest + 1 - level, 0int,
{
    let scopes = all_scopes(table);
    let q = scopes[pos as int];
    assert(scopes.contains(q));
    scopes_are_those_that_hold(table, q);
    let head = seq![node_of(table, q, level)];
    let kids = below(scopes, q);
    numbers_in_range(scopes.len(), |k: int| enclosing(scopes[k]) == Some(q));
    let rest = if level >= deepest {
        Seq::empty()
    } else {
        walked_all(table, kids, level + 1, deepest)
    };
    lemma_shows_add(head, rest, p, l);
    assert(shows(head, p, l) <==> p == q && l == level) by {
        assert(head[0].path == q && head[0].level == level);
    }
    if level < deepest {
        lemma_walked_all(table, kids, level + 1, deepest, p, l);
        let tops = texts_at(scopes, kids);
        if below_one_of(p, tops, l - level - 1) && level + 1 <= l {
            let i = choose|i: int|
                0 <= i < tops.len() && segments_below(p, #[trigger] tops[i], l - level - 1);
            assert(tops[i] == scopes[kids[i] as int]);
            assert(scopes.contains(tops[i]));
            scopes_are_those_that_hold(table, tops[i]);
            lemma_step_up(p, tops[i], q, l - level - 1);
        }
        if level < l && scopes.contains(p) && segments_below(p, q, l - level) {
            lemma_step_down(table, p, q, l - level - 1);
            let c = choose|c: Seq<char>| #[trigger]
                scopes.contains(c) && enclosing(c) == Some(q) && segments_below(
                    p,
                    c,
                    l - level - 1,
                );
            let k = choose|k: int| 0 <= k < scopes.len() && scopes[k] == c;
            numbers_are_complete(scopes.len(), |k: int| enclosing(scopes[k]) == Some(q), k);
            let i = choose|i: int| 0 <= i < kids.len() && kids[i] == k as usize;
            assert(tops[i] == c);
        }
    } else {
        assert(!shows(rest, p, l));
    }
}

proof fn lemma_walked_all(
    table: Seq<SignalView>,
    positions: Seq<usize>,
    level: nat,
    deepest: nat,
    p: Seq<char>,
    l: int,
)
    requires
        countable(table),
        forall|i: int|
            0 <= i < positions.len() ==> (#[trigger] positions[i]) < all_scopes(table).len(),
        level <= deepest,
    ensures
        shows(walked_all(table, positions, level, deepest), p, l) <==> level <= l <= deepest
            && all_scopes(table).contains(p) && below_one_of(
            p,
            texts_at(all_scopes(table), positions),
            l - level,
        ),
    decreases deepest + 1 - level, positions.len() + 1,
{
    let scopes = all_scopes(table);
    let tops = texts_at(scopes, positions);
    if positions.len() > 0 {
        let less = positions.drop_last();
        assert forall|i: int| 0 <= i < less.len() implies (#[trigger] less[i]) < scopes.len() by {
            assert(less[i] == positions[i]);
        }
        lemma_walked_all(table, less, level, deepest, p, l);
        assert(positions[positions.len() - 1] == positions.last());
        lemma_walked(table, positions.last(), level, deepest, p, l);
        lemma_shows_add(
            walked_all(table, less, level, deepest),
            walked(table, positions.last(), level, deepest),
            p,
            l,
        );
        let fewer = texts_at(scopes, less);
        assert(tops =~= fewer.push(scopes[positions.last() as int]));
        if below_one_of(p, fewer, l - level) {
            let i = choose|i: int|
                0 <= i < fewer.len() && segments_below(p, #[trigger] fewer[i], l - level);
            assert(tops[i] == fewer[i]);
        }
        if below_one_of(p, tops, l - level) {
            let i = choose|i: int|
                0 <= i < tops.len() && segments_below(p, #[trigger] tops[i], l - level);
            if i < fewer.len() {
                assert(tops[i] == fewer[i]);
            }
        }
        assert(tops[tops.len() - 1] == scopes[positions.last() as int]);
    }
}

/// Is the tree asked for that of scopes, and not the chain above a signal?
pub open spec fn asks_subtrees(a: ArgsView) -> bool {
    a.of matches Some(pat) ==> trimmed(pat).len() == 0
}

/// A scope is shown at a level just when a path lies in it or below it, the
/// level is at most the depth, and the scope is as many segments below one of
/// the roots.
pub proof fn tree_shows_down_to_the_depth(
    table: Seq<SignalView>,
    a: ArgsView,
    p: Seq<char>,
    level: int,
)
    requires
        countable(table),
        asks_subtrees(a),
        tree_of(table, a) is Ok,
    ensures
        shows(tree_of(table, a)->Ok_0.nodes, p, level) <==> 0 <= level <= tree_of(
            table,
            a,
        )->Ok_0.depth && p.len() > 0 && holds_a_path(table, p) && below_one_of(
            p,
            tree_of(table, a)->Ok_0.roots,
            level,
        ),
        tree_of(table, a)->Ok_0.of is None,
{
    lemma_roots_in_range(table, a);
    let roots = roots_of(table, a)->Ok_0;
    let v = tree_of(table, a)->Ok_0;
    lemma_walked_all(table, roots, 0, v.depth, p, level);
    scopes_are_those_that_hold(table, p);
}

/// The depth is the one asked for, and one where none is, or none that goes
/// down.
pub proof fn depth_is_as_asked(table: Seq<SignalView>, a: ArgsView)
    requires
        tree_of(table, a) is Ok,
    ensures
        a.depth matches Some(d) ==> 1 <= d <= usize::MAX ==> tree_of(table, a)->Ok_0.depth == d,
        a.depth matches Some(d) ==> d < 1 ==> tree_of(table, a)->Ok_0.depth == 1,
        a.depth is None ==> tree_of(table, a)->Ok_0.depth == 1,
{
}

/// With a greater depth, all that is shown with a lesser one is shown, at the
/// same level.
pub proof fn deeper_shows_no_less(
    table: Seq<SignalView>,
    a: ArgsView,
    b: ArgsView,
    p: Seq<char>,
    level: int,
)
    requires
        countable(table),
        asks_subtrees(a),
        tree_of(table, a) is Ok,
        b == (ArgsView { depth: b.depth, ..a }),
        a.depth is Some && b.depth is Some && a.depth->0 <= b.depth->0 <= usize::MAX,
    ensures
        tree_of(table, b) is Ok,
        tree_of(table, b)->Ok_0.roots == tree_of(table, a)->Ok_0.roots,
        shows(tree_of(table, a)->Ok_0.nodes, p, level) ==> shows(
            tree_of(table, b)->Ok_0.nodes,
            p,
            level,
        ),
        shows(tree_of(table, b)->Ok_0.nodes, p, level) && level <= a.depth->0 ==> shows(
            tree_of(table, a)->Ok_0.nodes,
            p,
            level,
        ),
{
    assert(roots_of(table, a) == roots_of(table, b));
    tree_shows_down_to_the_depth(table, a, p, level);
    tree_shows_down_to_the_depth(table, b, p, level);
}

/// A scope cannot be further below another than it has separators; so with that
/// depth it is shown, if a root is it or above it.
pub proof fn great_depth_shows_everything(
    table: Seq<SignalView>,
    a: ArgsView,
    p: Seq<char>,
    r: int,
    k: int,
)
    requires
        countable(table),
        asks_subtrees(a),
        tree_of(table, a) is Ok,
        a.depth is Some && separators(p) <= a.depth->0 && 1 <= a.depth->0 <= usize::MAX,
        p.len() > 0,
        holds_a_path(table, p),
        0 <= r < tree_of(table, a)->Ok_0.roots.len(),
        k >= 0,
        segments_below(p, tree_of(table, a)->Ok_0.roots[r], k),
    ensures
        shows(tree_of(table, a)->Ok_0.nodes, p, k),
{
    let q = tree_of(table, a)->Ok_0.roots[r];
    let n = q.len() as int;
    if k > 0 {
        assert(p =~= p.take(n) + p.skip(n));
        lemma_separators_add(p.take(n), p.skip(n));
    }
    tree_shows_down_to_the_depth(table, a, p, k);
}

proof fn lemma_roots_in_range(table: Seq<SignalView>, a: ArgsView)
    requires
        countable(table),
        roots_of(table, a) is Ok,
    ensures
        forall|i: int|
            0 <= i < roots_of(table, a)->Ok_0.len() ==> (#[trigger] roots_of(table, a)->Ok_0[i])
                < all_scopes(table).len(),
{
    let scopes = all_scopes(table);
    match root_pattern(a) {
        None => {
            numbers_in_range(scopes.len(), |k: int| enclosing(scopes[k]) is None);
        },
        Some(p) => {
            let s = selection_meaning(Some(p), None, None, None, MatchMode::Substring)->Ok_0;
            numbers_in_range(scopes.len(), |k: int| begins_at(s, scopes[k]));
        },
    }
}

/// Is the scope in no other: has it no separator, but for one at the front?
pub open spec fn is_outermost(p: Seq<char>) -> bool {
    forall|q: Seq<char>| !#[trigger] stands_above(q, p)
}

proof fn lemma_outermost(p: Seq<char>)
    ensures
        enclosing(p) is None <==> is_outermost(p),
{
    lemma_last_separator(p);
    let c = last_separator(p);
    if enclosing(p) is Some {
        assert(p.take(c).len() == c);
        assert(stands_above(p.take(c), p));
    } else {
        assert forall|q: Seq<char>| !#[trigger] stands_above(q, p) by {
            if stands_above(q, p) {
                assert(is_separator(p[q.len() as int]));
            }
        }
    }
}

/// Where no scope is given, the roots are the scopes that are in no other.
pub proof fn roots_are_the_outermost(table: Seq<SignalView>, a: ArgsView, p: Seq<char>)
    requires
        countable(table),
        asks_subtrees(a),
        a.target matches Some(t) ==> trimmed(t).len() == 0,
        a.scope matches Some(t) ==> trimmed(t).len() == 0,
    ensures
        tree_of(table, a) is Ok,
        tree_of(table, a)->Ok_0.roots.contains(p) <==> p.len() > 0 && holds_a_path(table, p)
            && is_outermost(p),
{
    let scopes = all_scopes(table);
    let test = |k: int| enclosing(scopes[k]) is None;
    let found = outermost(scopes);
    let roots = texts_at(scopes, found);
    numbers_in_range(scopes.len(), test);
    scopes_are_those_that_hold(table, p);
    lemma_outermost(p);
    if roots.contains(p) {
        let i = choose|i: int| 0 <= i < roots.len() && roots[i] == p;
        assert(test(found[i] as int));
        assert(scopes.contains(p));
    }
    if scopes.contains(p) && is_outermost(p) {
        let k = choose|k: int| 0 <= k < scopes.len() && scopes[k] == p;
        assert(test(k));
        numbers_are_complete(scopes.len(), test, k);
        let i = choose|i: int| 0 <= i < found.len() && found[i] == k as usize;
        assert(roots[i] == p);
    }
}

/// So without a scope, and deep enough, every scope of the design is shown.
pub proof fn whole_tree_shows_every_scope(table: Seq<SignalView>, a: ArgsView, p: Seq<char>)
    requires
        countable(table),
        asks_subtrees(a),
        a.target matches Some(t) ==> trimmed(t).len() == 0,
        a.scope matches Some(t) ==> trimmed(t).len() == 0,
        a.depth is Some && separators(p) <= a.depth->0 && 1 <= a.depth->0 <= usize::MAX,
        p.len() > 0,
        holds_a_path(table, p),
    ensures
        exists|k: int| shows(tree_of(table, a)->Ok_0.nodes, p, k),
{
    scopes_are_those_that_hold(table, p);
    lemma_has_root(table, p);
    let (q, k) = choose|q: Seq<char>, k: int|
        k >= 0 && all_scopes(table).contains(q) && is_outermost(q) && #[trigger] segments_below(
            p,
            q,
            k,
        );
    scopes_are_those_that_hold(table, q);
    roots_are_the_outermost(table, a, q);
    let roots = tree_of(table, a)->Ok_0.roots;
    let r = choose|r: int| 0 <= r < roots.len() && roots[r] == q;
    great_depth_shows_everything(table, a, p, r, k);
}

proof fn lemma_has_root(table: Seq<SignalView>, p: Seq<char>)
    requires
        countable(table),
        all_scopes(table).contains(p),
    ensures
        exists|q: Seq<char>, k: int|
            k >= 0 && all_scopes(table).contains(q) && is_outermost(q) && #[trigger] segments_below(
                p,
                q,
                k,
            ),
    decreases p.len(),
{
    lemma_outermost(p);
    if enclosing(p) is None {
        assert(segments_below(p, p, 0));
    } else {
        let up = enclosing(p)->0;
        lemma_last_separator(p);
        scopes_are_closed(table, p);
        lemma_has_root(table, up);
        let (q, k) = choose|q: Seq<char>, k: int|
            k >= 0 && all_scopes(table).contains(q) && is_outermost(q) && #[trigger] segments_below(
                up,
                q,
                k,
            );
        scopes_are_those_that_hold(table, q);
        enclosing_is_one_segment_up(p, q, k);
        assert(segments_below(p, q, k + 1));
    }
}

/// With a scope given, the roots are the scopes it takes in that are not inside
/// another it takes in; and there is one at least, or the tree is refused.
pub proof fn roots_are_the_first_taken_in(
    table: Seq<SignalView>,
    a: ArgsView,
    pattern: Seq<char>,
    p: Seq<char>,
)
    requires
        countable(table),
        asks_subtrees(a),
        root_pattern(a) == Some(pattern),
        selection_meaning(Some(pattern), None, None, None, MatchMode::Substring) is Ok,
    ensures
        ({
            let s = selection_meaning(Some(pattern), None, None, None, MatchMode::Substring)->Ok_0;
            let first = p.len() > 0 && holds_a_path(table, p) && takes_in(s, p) && forall|q: Seq<
                char,
            >|
                takes_in(s, q) ==> !#[trigger] segments_below(p, q, 1) || q.len() == 0;
            &&& tree_of(table, a) is Ok ==> (tree_of(table, a)->Ok_0.roots.contains(p) <==> first)
            &&& first ==> tree_of(table, a) is Ok
            &&& tree_of(table, a) is Ok ==> tree_of(table, a)->Ok_0.roots.len() > 0
        }),
{
    let s = selection_meaning(Some(pattern), None, None, None, MatchMode::Substring)->Ok_0;
    let scopes = all_scopes(table);
    let test = |k: int| begins_at(s, scopes[k]);
    let found = numbers_where(scopes.len(), test);
    let roots = texts_at(scopes, found);
    numbers_in_range(scopes.len(), test);
    scopes_are_those_that_hold(table, p);
    let none_above = forall|q: Seq<char>|
        takes_in(s, q) ==> !#[trigger] segments_below(p, q, 1) || q.len() == 0;
    assert(begins_at(s, p) <==> takes_in(s, p) && none_above) by {
        lemma_last_separator(p);
        if enclosing(p) is Some {
            let q = enclosing(p)->0;
            enclosing_is_one_segment_up(p, q, 0);
            assert(segments_below(p, q, 1));
        }
        if begins_at(s, p) {
            assert forall|q: Seq<char>| takes_in(s, q) implies !#[trigger] segments_below(p, q, 1)
                || q.len() == 0 by {
                if q.len() > 0 {
                    enclosing_is_one_segment_up(p, q, 0);
                }
            }
        }
    }
    if roots.contains(p) {
        let i = choose|i: int| 0 <= i < roots.len() && roots[i] == p;
        assert(test(found[i] as int));
        assert(scopes.contains(p));
    }
    if scopes.contains(p) && begins_at(s, p) {
        let k = choose|k: int| 0 <= k < scopes.len() && scopes[k] == p;
        assert(test(k));
        numbers_are_complete(scopes.len(), test, k);
        let i = choose|i: int| 0 <= i < found.len() && found[i] == k as usize;
        assert(roots[i] == p);
    }
}

// ---- the chain above a signal ----

proof fn lemma_cuts_grow(s: Seq<char>, n: int)
    requires
        n <= s.len(),
    ensures
        forall|i: int, j: int|
            0 <= i < j < cuts(s, n).len() ==> (#[trigger] cuts(s, n)[i]).len() < (
            #[trigger] cuts(s, n)[j]).len(),
        forall|i: int| 0 <= i < cuts(s, n).len() ==> (#[trigger] cuts(s, n)[i]).len() < n,
    decreases n,
{
    if n > 1 {
        lemma_cuts_grow(s, n - 1);
        let all = cuts(s, n);
        let less = cuts(s, n - 1);
        assert forall|i: int| 0 <= i < all.len() implies (#[trigger] all[i]).len() < n by {
            if i < less.len() {
                assert(all[i] == less[i]);
            }
        }
        assert forall|i: int, j: int| 0 <= i < j < all.len() implies (#[trigger] all[i]).len() < (
        #[trigger] all[j]).len() by {
            assert(all[i] == less[i]);
            if j < less.len() {
                assert(all[j] == less[j]);
            }
        }
    }
}

/// The chain of a signal is its scope and every scope above it, outermost
/// first, one level each; and the root shown is the scope itself.
pub proof fn chain_is_all_above(
    table: Seq<SignalView>,
    a: ArgsView,
    pat: Seq<char>,
    path: Seq<char>,
    scope: Seq<char>,
    p: Seq<char>,
)
    requires
        a.of == Some(pat),
        trimmed(pat).len() > 0,
        path_meant(table, pat, "--of"@) == Ok::<(Seq<char>, Seq<char>), Seq<char>>((path, scope)),
    ensures
        tree_of(table, a) is Ok,
        ({
            let v = tree_of(table, a)->Ok_0;
            &&& v.of == Some(path)
            &&& scope.len() == 0 ==> v.nodes.len() == 0 && v.roots.len() == 0
            &&& scope.len() > 0 ==> v.roots == seq![scope]
            &&& scope.len() > 0 ==> ((exists|i: int|
                0 <= i < v.nodes.len() && (#[trigger] v.nodes[i]).path == p) <==> p == scope
                || stands_above(p, scope))
            &&& forall|i: int, j: int|
                0 <= i < j < v.nodes.len() ==> (#[trigger] v.nodes[i]).path.len() < (
                #[trigger] v.nodes[j]).path.len()
            &&& forall|i: int| 0 <= i < v.nodes.len() ==> (#[trigger] v.nodes[i]).level == i
        }),
{
    let v = tree_of(table, a)->Ok_0;
    let line = lineage(scope);
    if scope.len() > 0 {
        lineage_holds(scope, p);
        lemma_cuts_grow(scope, scope.len() as int);
        let before = cuts(scope, scope.len() as int);
        assert(forall|i: int| 0 <= i < line.len() ==> (#[trigger] v.nodes[i]).path == line[i]);
        if line.contains(p) {
            let i = choose|i: int| 0 <= i < line.len() && line[i] == p;
            assert(v.nodes[i].path == p);
        }
        assert forall|i: int, j: int| 0 <= i < j < v.nodes.len() implies (
        #[trigger] v.nodes[i]).path.len() < (#[trigger] v.nodes[j]).path.len() by {
            assert(line[i] == before[i]);
            if j < before.len() {
                assert(line[j] == before[j]);
            }
        }
    }
}

// ---- a node ----

/// The name shown for a scope is its last segment.
pub proof fn name_is_the_last_segment(p: Seq<char>)
    ensures
        separators(own_name(p)) == 0,
        own_name(p) == p || exists|q: Seq<char>, c: char|
            is_separator(c) && p == #[trigger] (q.push(c)) + own_name(p),
{
    lemma_last_separator(p);
    let c = last_separator(p);
    let name = own_name(p);
    assert forall|i: int| 0 <= i < name.len() implies !is_separator(#[trigger] name[i]) by {
        assert(name[i] == p[c + 1 + i]);
    }
    lemma_no_separators(name);
    if c < 0 {
        assert(name =~= p);
    } else {
        assert(p =~= p.take(c).push(p[c]) + name);
    }
}

/// What a node says of a scope: as many scopes lie directly below it as there
/// are children, each once and in order.
pub proof fn children_are_one_segment_below(table: Seq<SignalView>, p: Seq<char>, level: nat)
    requires
        countable(table),
        p.len() > 0,
        holds_a_path(table, p),
    ensures
        ({
            let kids = texts_at(all_scopes(table), below(all_scopes(table), p));
            &&& node_of(table, p, level).children == kids.len()
            &&& kids.no_duplicates()
            &&& forall|c: Seq<char>| #[trigger]
                kids.contains(c) <==> segments_below(c, p, 1) && holds_a_path(table, c)
        }),
{
    let scopes = all_scopes(table);
    let test = |k: int| enclosing(scopes[k]) == Some(p);
    let found = below(scopes, p);
    let kids = texts_at(scopes, found);
    numbers_in_range(scopes.len(), test);
    scopes_are_those_that_hold(table, p);
    scopes_are_closed(table, p);
    assert forall|i: int, j: int| 0 <= i < kids.len() && 0 <= j < kids.len() && i != j implies kids[i]
        != kids[j] by {
        assert(found[i] != found[j]) by {
            if i < j {
                assert(found[i] < found[j]);
            } else {
                assert(found[j] < found[i]);
            }
        }
    }
    assert forall|c: Seq<char>| #[trigger] kids.contains(c) <==> segments_below(c, p, 1)
        && holds_a_path(table, c) by {
        scopes_are_those_that_hold(table, c);
        enclosing_is_one_segment_up(c, p, 0);
        if kids.contains(c) {
            let i = choose|i: int| 0 <= i < kids.len() && kids[i] == c;
            assert(test(found[i] as int));
            assert(scopes.contains(c));
        }
        if segments_below(c, p, 1) && holds_a_path(table, c) {
            let k = choose|k: int| 0 <= k < scopes.len() && scopes[k] == c;
            assert(test(k));
            numbers_are_complete(scopes.len(), test, k);
            let i = choose|i: int| 0 <= i < found.len() && found[i] == k as usize;
            assert(kids[i] == c);
        }
    }
}

// ---- what lies in a scope ----

proof fn lemma_times(v: Seq<Seq<char>>, t: Seq<char>)
    ensures
        times_in(v, t) == v.filter(|s: Seq<char>| s == t).len(),
    decreases v.len(),
{
    reveal(Seq::filter);
    if v.len() > 0 {
        lemma_times(v.drop_last(), t);
    }
}

/// The paths that lie directly in a scope are counted: of each signal as many
/// as it has there.
pub proof fn paths_in_a_scope_are_counted(table: Seq<SignalView>, g: SignalView, scope: Seq<char>)
    ensures
        paths_in_scope(Seq::empty(), scope) == 0,
        paths_in_scope(table.push(g), scope) == paths_in_scope(table, scope) + g.scopes.filter(
            |s: Seq<char>| s == scope,
        ).len(),
{
    assert(table.push(g).drop_last() =~= table);
    lemma_times(g.scopes, scope);
}

/// A node counts the paths directly in its scope, as far as they can be
/// counted.
pub proof fn nodes_count_their_paths(table: Seq<SignalView>, p: Seq<char>, level: nat)
    requires
        countable(table),
        p.len() > 0,
        holds_a_path(table, p),
        paths_in_scope(table, p) <= usize::MAX,
    ensures
        node_of(table, p, level).signals == paths_in_scope(table, p),
        node_of(table, p, level).path == p,
        node_of(table, p, level).name == own_name(p),
        node_of(table, p, level).level == level,
{
    scopes_are_those_that_hold(table, p);
}

/// Does each scope below the top level come after the one it lies in?
pub open spec fn parents_first(nodes: Seq<NodeView>, level: int) -> bool {
    forall|j: int|
        0 <= j < nodes.len() && (#[trigger] nodes[j]).level > level ==> exists|i: int|
            0 <= i < j && (#[trigger] nodes[i]).level == nodes[j].level - 1 && segments_below(
                nodes[j].path,
                nodes[i].path,
                1,
            )
}

proof fn lemma_parents_join(a: Seq<NodeView>, b: Seq<NodeView>, level: int)
    requires
        parents_first(a, level),
        parents_first(b, level),
    ensures
        parents_first(a + b, level),
{
    let all = a + b;
    assert forall|j: int| 0 <= j < all.len() && (#[trigger] all[j]).level > level implies exists|
        i: int,
    |
        0 <= i < j && (#[trigger] all[i]).level == all[j].level - 1 && segments_below(
            all[j].path,
            all[i].path,
            1,
        ) by {
        if j < a.len() {
            assert(a[j].level > level);
            let i = choose|i: int|
                0 <= i < j && (#[trigger] a[i]).level == a[j].level - 1 && segments_below(
                    a[j].path,
                    a[i].path,
                    1,
                );
            assert(all[i] == a[i]);
        } else {
            let m = j - a.len();
            assert(b[m].level > level);
            let i = choose|i: int|
                0 <= i < m && (#[trigger] b[i]).level == b[m].level - 1 && segments_below(
                    b[m].path,
                    b[i].path,
                    1,
                );
            assert(all[a.len() + i] == b[i]);
        }
    }
}

proof fn lemma_parents(table: Seq<SignalView>, pos: usize, level: nat, deepest: nat)
    requires
        countable(table),
        pos < all_scopes(table).len(),
    ensures
        parents_first(walked(table, pos, level, deepest), level as int),
        walked(table, pos, level, deepest).len() > 0,
        walked(table, pos, level, deepest)[0].level == level,
        walked(table, pos, level, deepest)[0].path == all_scopes(table)[pos as int],
    decreases deepest + 1 - level, 0int,
{
    let scopes = all_scopes(table);
    let q = scopes[pos as int];
    let head = seq![node_of(table, q, level)];
    let kids = below(scopes, q);
    assert(scopes.contains(q));
    scopes_are_those_that_hold(table, q);
    if level < deepest {
        numbers_in_range(scopes.len(), |k: int| enclosing(scopes[k]) == Some(q));
        lemma_parents_all(table, kids, level + 1, deepest);
        let rest = walked_all(table, kids, level + 1, deepest);
        let all = head + rest;
        assert(all[0] == head[0]);
        assert forall|j: int| 0 <= j < all.len() && (#[trigger] all[j]).level
            > level implies exists|i: int|
            0 <= i < j && (#[trigger] all[i]).level == all[j].level - 1 && segments_below(
                all[j].path,
                all[i].path,
                1,
            ) by {
            let m = j - 1;
            assert(all[j] == rest[m]);
            if rest[m].level > level + 1 {
                let i = choose|i: int|
                    0 <= i < m && (#[trigger] rest[i]).level == rest[m].level - 1 && segments_below(
                        rest[m].path,
                        rest[i].path,
                        1,
                    );
                assert(all[i + 1] == rest[i]);
            } else {
                assert(shows(rest, rest[m].path, rest[m].level as int));
                lemma_walked_all(
                    table,
                    kids,
                    level + 1,
                    deepest,
                    rest[m].path,
                    rest[m].level as int,
                );
                let tops = texts_at(scopes, kids);
                let i = choose|i: int|
                    0 <= i < tops.len() && segments_below(rest[m].path, #[trigger] tops[i], 0);
                assert(tops[i] == scopes[kids[i] as int]);
                assert(enclosing(rest[m].path) == Some(q));
                enclosing_is_one_segment_up(rest[m].path, q, 0);
                assert(all[0].level == all[j].level - 1);
            }
        }
    }
}

proof fn lemma_parents_all(
    table: Seq<SignalView>,
    positions: Seq<usize>,
    level: nat,
    deepest: nat,
)
    requires
        countable(table),
        forall|i: int|
            0 <= i < positions.len() ==> (#[trigger] positions[i]) < all_scopes(table).len(),
    ensures
        parents_first(walked_all(table, positions, level, deepest), level as int),
    decreases deepest + 1 - level, positions.len() + 1,
{
    if positions.len() > 0 {
        let less = positions.drop_last();
        assert forall|i: int| 0 <= i < less.len() implies (#[trigger] less[i]) < all_scopes(
            table,
        ).len() by {
            assert(less[i] == positions[i]);
        }
        lemma_parents_all(table, less, level, deepest);
        assert(positions[positions.len() - 1] == positions.last());
        lemma_parents(table, positions.last(), level, deepest);
        lemma_parents_join(
            walked_all(table, less, level, deepest),
            walked(table, positions.last(), level, deepest),
            level as int,
        );
    }
}

/// In a tree of scopes every scope below a root comes after the one it lies in.
pub proof fn trees_go_from_the_top_down(table: Seq<SignalView>, a: ArgsView)
    requires
        countable(table),
        asks_subtrees(a),
        tree_of(table, a) is Ok,
    ensures
        parents_first(tree_of(table, a)->Ok_0.nodes, 0),
{
    lemma_roots_in_range(table, a);
    lemma_parents_all(table, roots_of(table, a)->Ok_0, 0, tree_of(table, a)->Ok_0.depth);
}

/// A tree begins at the scope given after the file; where none is, at that of
/// `--scope`; and at the top otherwise.
pub proof fn trees_begin_where_asked(a: ArgsView)
    ensures
        a.target matches Some(t) ==> trimmed(t).len() > 0 ==> root_pattern(a) == Some(trimmed(t)),
        (a.target matches Some(t) ==> trimmed(t).len() == 0) ==> (a.scope matches Some(s)
            ==> trimmed(s).len() > 0 ==> root_pattern(a) == Some(trimmed(s))),
        (a.target matches Some(t) ==> trimmed(t).len() == 0) && (a.scope matches Some(s)
            ==> trimmed(s).len() == 0) ==> root_pattern(a) is None,
{
}

/// A tree counts the paths outside any scope, whatever it shows of the rest.
pub proof fn trees_count_the_paths_outside(table: Seq<SignalView>, a: ArgsView)
    requires
        tree_of(table, a) is Ok,
        paths_in_scope(table, Seq::empty()) <= usize::MAX,
    ensures
        tree_of(table, a)->Ok_0.root_signals == paths_in_scope(table, Seq::empty()),
{
}

/// A column of labels is as wide as the longest of them.
pub proof fn columns_fit_their_labels(chain: bool, nodes: Seq<NodeView>, n: int)
    requires
        0 <= n <= nodes.len(),
    ensures
        forall|i: int|
            0 <= i < n ==> node_label(chain, #[trigger] nodes[i]).len() <= widest(chain, nodes, n),
        n > 0 ==> exists|i: int|
            0 <= i < n && node_label(chain, #[trigger] nodes[i]).len() == widest(chain, nodes, n),
        n == 0 ==> widest(chain, nodes, n) == 0,
    decreases n,
{
    if n > 0 {
        columns_fit_their_labels(chain, nodes, n - 1);
        if node_label(chain, nodes[n - 1]).len() >= widest(chain, nodes, n - 1) {
            assert(node_label(chain, nodes[n - 1]).len() == widest(chain, nodes, n));
        } else {
            let i = choose|i: int|
                0 <= i < n - 1 && node_label(chain, #[trigger] nodes[i]).len() == widest(
                    chain,
                    nodes,
                    n - 1,
                );
            assert(node_label(chain, nodes[i]).len() == widest(chain, nodes, n));
        }
    }
}

} // verus!
