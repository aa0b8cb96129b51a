//! Which texts patterns match, which paths a selection keeps, and which signal
//! a name stands for.

use vstd::prelude::*;

use crate::cli::ArgsView;
use crate::condition::{csv_items, list_items};
use crate::filter::{
    any_pattern_matches, glob, is_separator, pattern_of, patterns_of, stars_collapsed,
    wildcard_count, MatchMode, PatternView,
};
use crate::report::{choice_of, sids_are_the_matches, sids_of};
use crate::resolve::{
    is_wild, kept_named, missed, numbers_are_complete, numbers_in_range, numbers_where, passes_some,
    show_meant, show_test, show_tests, signal_meant, spelled,
};
use crate::select::{
    ends_at, in_scopes, in_subtree, keeps_path, named, option_items, path_matches, scope_patterns,
    segments, segments_from, selection_meaning, within, SelectionView,
};
use crate::signal::SignalView;
use crate::text::{byte_len, lowercase, trimmed};

verus! {

// ---- globs ----

/// Two globs one after the other match what falls into two parts, one for each.
pub proof fn glob_of_two(p: Seq<char>, q: Seq<char>, h: Seq<char>)
    ensures
        glob(p + q, h) <==> exists|k: int|
            0 <= k <= h.len() && glob(p, #[trigger] h.take(k)) && glob(q, h.skip(k)),
    decreases p.len(), h.len(),
{
    let all = p + q;
    if p.len() == 0 {
        assert(all =~= q);
        assert(h.take(0) =~= Seq::empty());
        assert(h.skip(0) =~= h);
        assert(glob(p, h.take(0)));
        if exists|k: int| 0 <= k <= h.len() && glob(p, #[trigger] h.take(k)) && glob(q, h.skip(k)) {
            let k = choose|k: int|
                0 <= k <= h.len() && glob(p, #[trigger] h.take(k)) && glob(q, h.skip(k));
            assert(h.take(k).len() == 0);
            assert(k == 0);
        }
    } else {
        let p1 = p.drop_first();
        assert(all.drop_first() =~= p1 + q);
        assert(all[0] == p[0]);
        if p[0] == '*' {
            glob_of_two(p1, q, h);
            if h.len() > 0 {
                glob_of_two(p, q, h.drop_first());
            }
            lemma_star(p, q, h);
        } else if h.len() > 0 {
            let h1 = h.drop_first();
            glob_of_two(p1, q, h1);
            assert(h.take(0) =~= Seq::empty());
            assert(!glob(p, h.take(0)));
            assert forall|k: int| 1 <= k <= h.len() implies #[trigger] h.take(k).drop_first()
                == h1.take(k - 1) && h.skip(k) == h1.skip(k - 1) && h.take(k)[0] == h[0] by {
                assert(h.take(k).drop_first() =~= h1.take(k - 1));
                assert(h.skip(k) =~= h1.skip(k - 1));
            }
            if glob(all, h) {
                let k = choose|k: int|
                    0 <= k <= h1.len() && glob(p1, #[trigger] h1.take(k)) && glob(q, h1.skip(k));
                assert(h.take(k + 1).drop_first() == h1.take(k));
                assert(glob(p, h.take(k + 1)) && glob(q, h.skip(k + 1)));
            }
            if exists|k: int|
                0 <= k <= h.len() && glob(p, #[trigger] h.take(k)) && glob(q, h.skip(k)) {
                let k = choose|k: int|
                    0 <= k <= h.len() && glob(p, #[trigger] h.take(k)) && glob(q, h.skip(k));
                assert(k > 0);
                assert(h.take(k).drop_first() == h1.take(k - 1));
                assert(glob(p1, h1.take(k - 1)) && glob(q, h1.skip(k - 1)));
            }
        } else {
            assert forall|k: int| 0 <= k <= h.len() implies !glob(p, #[trigger] h.take(k)) by {
                assert(h.take(k).len() == 0);
            }
        }
    }
}

proof fn lemma_star(p: Seq<char>, q: Seq<char>, h: Seq<char>)
    requires
        p.len() > 0,
        p[0] == '*',
        glob(p.drop_first() + q, h) <==> exists|k: int|
            0 <= k <= h.len() && glob(p.drop_first(), #[trigger] h.take(k)) && glob(q, h.skip(k)),
        h.len() > 0 ==> (glob(p + q, h.drop_first()) <==> exists|k: int|
            0 <= k <= h.drop_first().len() && glob(p, #[trigger] h.drop_first().take(k)) && glob(
                q,
                h.drop_first().skip(k),
            )),
    ensures
        glob(p + q, h) <==> exists|k: int|
            0 <= k <= h.len() && glob(p, #[trigger] h.take(k)) && glob(q, h.skip(k)),
{
    let all = p + q;
    let p1 = p.drop_first();
    let h1 = h.drop_first();
    assert(all.drop_first() =~= p1 + q);
    assert(all[0] == '*');
    if glob(all, h) {
        if glob(p1 + q, h) {
            let k = choose|k: int|
                0 <= k <= h.len() && glob(p1, #[trigger] h.take(k)) && glob(q, h.skip(k));
            assert(glob(p, h.take(k)));
        } else {
            let k = choose|k: int|
                0 <= k <= h1.len() && glob(p, #[trigger] h1.take(k)) && glob(q, h1.skip(k));
            assert(h.take(k + 1).drop_first() =~= h1.take(k));
            assert(h.skip(k + 1) =~= h1.skip(k));
            assert(glob(p, h.take(k + 1)));
        }
    }
    if exists|k: int| 0 <= k <= h.len() && glob(p, #[trigger] h.take(k)) && glob(q, h.skip(k)) {
        let k = choose|k: int|
            0 <= k <= h.len() && glob(p, #[trigger] h.take(k)) && glob(q, h.skip(k));
        if glob(p1, h.take(k)) {
            assert(glob(p1 + q, h));
        } else {
            assert(k > 0 && glob(p, h.take(k).drop_first()));
            assert(h.take(k).drop_first() =~= h1.take(k - 1));
            assert(h.skip(k) =~= h1.skip(k - 1));
            assert(glob(p + q, h1));
        }
    }
}

/// A star matches every text, a question mark every character, and any other
/// character itself.
pub proof fn glob_of_one(c: char, h: Seq<char>)
    ensures
        glob(Seq::empty(), h) <==> h.len() == 0,
        glob(seq!['*'], h),
        glob(seq!['?'], h) <==> h.len() == 1,
        c != '*' && c != '?' ==> (glob(seq![c], h) <==> h == seq![c]),
    decreases h.len(),
{
    assert(seq!['*'].drop_first() =~= Seq::empty());
    assert(seq!['?'].drop_first() =~= Seq::empty());
    assert(seq![c].drop_first() =~= Seq::empty());
    if h.len() > 0 {
        glob_of_one(c, h.drop_first());
        assert(h.drop_first().len() == h.len() - 1);
        if h == seq![c] {
            assert(h.drop_first().len() == 0);
        }
        if c != '*' && c != '?' && glob(seq![c], h) {
            assert(h =~= seq![c]);
        }
    }
}

/// Stars in a row match as a single one does: collapsing them changes nothing.
pub proof fn collapsing_stars_changes_nothing(p: Seq<char>, h: Seq<char>)
    ensures
        glob(stars_collapsed(p), h) == glob(p, h),
    decreases p.len(), h.len(),
{
    if p.len() > 0 {
        let less = p.drop_last();
        let c = p.last();
        assert(p =~= less + seq![c]);
        if c == '*' && p.len() >= 2 && p[p.len() - 2] == '*' {
            let front = less.drop_last();
            assert(less =~= front + seq!['*']);
            collapsing_stars_changes_nothing(less, h);
            lemma_two_stars(front, h);
            assert(p =~= (front + seq!['*']) + seq!['*']);
        } else {
            let short = stars_collapsed(less);
            assert(stars_collapsed(p) =~= short + seq![c]);
            glob_of_two(less, seq![c], h);
            glob_of_two(short, seq![c], h);
            assert forall|k: int| 0 <= k <= h.len() implies glob(short, #[trigger] h.take(k))
                == glob(less, h.take(k)) by {
                collapsing_stars_changes_nothing(less, h.take(k));
            }
        }
    }
}

proof fn lemma_two_stars(front: Seq<char>, h: Seq<char>)
    ensures
        glob((front + seq!['*']) + seq!['*'], h) == glob(front + seq!['*'], h),
{
    let one = front + seq!['*'];
    glob_of_two(one, seq!['*'], h);
    glob_of_two(front, seq!['*'], h);
    if glob(one, h) {
        assert(h.take(h.len() as int) =~= h);
        glob_of_one('*', h.skip(h.len() as int));
        assert(glob(one, h.take(h.len() as int)));
    }
    if glob(one + seq!['*'], h) {
        let k = choose|k: int|
            0 <= k <= h.len() && glob(one, #[trigger] h.take(k)) && glob(seq!['*'], h.skip(k));
        let t = h.take(k);
        glob_of_two(front, seq!['*'], t);
        let m = choose|m: int|
            0 <= m <= t.len() && glob(front, #[trigger] t.take(m)) && glob(seq!['*'], t.skip(m));
        assert(t.take(m) =~= h.take(m));
        glob_of_one('*', h.skip(m));
    }
}

/// A pattern is refused just when it is longer than 256 bytes or has more than
/// 16 wildcards, stars in a row counted once.
pub proof fn patterns_are_bounded(raw: Seq<char>, mode: MatchMode)
    ensures
        pattern_of(raw, mode) is Err <==> byte_len(trimmed(raw)) > 256 || wildcard_count(
            stars_collapsed(trimmed(raw)),
        ) > 16,
{
}

// ---- selections ----

/// Several patterns are alternatives.
pub proof fn patterns_are_alternatives(
    items: Seq<Seq<char>>,
    mode: MatchMode,
    path: Seq<char>,
    leaf: Seq<char>,
)
    requires
        patterns_of(items, mode) is Ok,
    ensures
        any_pattern_matches(patterns_of(items, mode)->Ok_0, path, leaf) <==> exists|i: int|
            0 <= i < items.len() && any_pattern_matches(
                patterns_of(seq![#[trigger] items[i]], mode)->Ok_0,
                path,
                leaf,
            ),
        forall|i: int|
            0 <= i < items.len() ==> patterns_of(seq![#[trigger] items[i]], mode) is Ok,
{
    lemma_each_pattern(items, mode);
    let pats = patterns_of(items, mode)->Ok_0;
    assert forall|i: int| 0 <= i < items.len() implies patterns_of(
        seq![#[trigger] items[i]],
        mode,
    ) == Ok::<Seq<PatternView>, Seq<char>>(seq![pats[i]]) by {
        let one = seq![items[i]];
        assert(one.drop_last() =~= Seq::empty());
        assert(patterns_of(one.drop_last(), mode) == Ok::<Seq<PatternView>, Seq<char>>(
            Seq::empty(),
        ));
        assert(Seq::<PatternView>::empty().push(pats[i]) =~= seq![pats[i]]);
    }
    if any_pattern_matches(pats, path, leaf) {
        let i = choose|i: int|
            0 <= i < pats.len() && crate::filter::pattern_matches(#[trigger] pats[i], path, leaf);
        let one = seq![pats[i]];
        assert(patterns_of(seq![items[i]], mode)->Ok_0 == one);
        assert(crate::filter::pattern_matches(one[0], path, leaf));
        assert(any_pattern_matches(one, path, leaf));
    }
    if exists|i: int|
        0 <= i < items.len() && any_pattern_matches(
            patterns_of(seq![#[trigger] items[i]], mode)->Ok_0,
            path,
            leaf,
        ) {
        let i = choose|i: int|
            0 <= i < items.len() && any_pattern_matches(
                patterns_of(seq![#[trigger] items[i]], mode)->Ok_0,
                path,
                leaf,
            );
        let one = seq![pats[i]];
        assert(patterns_of(seq![items[i]], mode)->Ok_0 == one);
        assert(crate::filter::pattern_matches(one[0], path, leaf));
        assert(crate::filter::pattern_matches(pats[i], path, leaf));
    }
}

proof fn lemma_each_pattern(items: Seq<Seq<char>>, mode: MatchMode)
    requires
        patterns_of(items, mode) is Ok,
    ensures
        patterns_of(items, mode)->Ok_0.len() == items.len(),
        forall|i: int|
            0 <= i < items.len() ==> pattern_of(#[trigger] items[i], mode) == Ok::<
                PatternView,
                Seq<char>,
            >(patterns_of(items, mode)->Ok_0[i]),
    decreases items.len(),
{
    if items.len() > 0 {
        let less = items.drop_last();
        lemma_each_pattern(less, mode);
        let pats = patterns_of(items, mode)->Ok_0;
        let fewer = patterns_of(less, mode)->Ok_0;
        assert forall|i: int| 0 <= i < items.len() implies pattern_of(#[trigger] items[i], mode)
            == Ok::<PatternView, Seq<char>>(pats[i]) by {
            if i < less.len() {
                assert(less[i] == items[i]);
                assert(pats[i] == fewer[i]);
            }
        }
    }
}

/// The three gates of a selection are apart: what is kept passes each of them
/// alone.
pub proof fn gates_are_apart(
    scope: Option<Seq<char>>,
    depth: Option<int>,
    filter: Option<Seq<char>>,
    exclude: Option<Seq<char>>,
    mode: MatchMode,
    path: Seq<char>,
    inside: Seq<char>,
)
    requires
        selection_meaning(scope, depth, filter, exclude, mode) is Ok,
    ensures
        selection_meaning(scope, depth, None, None, mode) is Ok,
        selection_meaning(None, None, filter, None, mode) is Ok,
        selection_meaning(None, None, None, exclude, mode) is Ok,
        keeps_path(selection_meaning(scope, depth, filter, exclude, mode)->Ok_0, path, inside)
            <==> keeps_path(selection_meaning(scope, depth, None, None, mode)->Ok_0, path, inside)
            && keeps_path(selection_meaning(None, None, filter, None, mode)->Ok_0, path, inside)
            && keeps_path(selection_meaning(None, None, None, exclude, mode)->Ok_0, path, inside),
{
    assert(scope_patterns(option_items(None)) is Ok);
}

/// `--filter` keeps what `--exclude` with the same patterns takes away.
pub proof fn exclude_is_the_opposite_of_filter(
    patterns: Seq<char>,
    mode: MatchMode,
    path: Seq<char>,
    inside: Seq<char>,
)
    requires
        csv_items(patterns).len() > 0,
        selection_meaning(None, None, Some(patterns), None, mode) is Ok,
    ensures
        selection_meaning(None, None, None, Some(patterns), mode) is Ok,
        keeps_path(
            selection_meaning(None, None, Some(patterns), None, mode)->Ok_0,
            path,
            inside,
        ) != keeps_path(
            selection_meaning(None, None, None, Some(patterns), mode)->Ok_0,
            path,
            inside,
        ),
        keeps_path(selection_meaning(None, None, Some(patterns), None, mode)->Ok_0, path, inside)
            == path_matches(patterns_of(csv_items(patterns), mode)->Ok_0, path, inside),
{
    assert(scope_patterns(option_items(None)) is Ok);
}

/// Without options, everything is kept.
pub proof fn no_options_keep_everything(
    depth: Option<int>,
    mode: MatchMode,
    path: Seq<char>,
    inside: Seq<char>,
)
    ensures
        selection_meaning(None, depth, None, None, mode) is Ok,
        keeps_path(selection_meaning(None, depth, None, None, mode)->Ok_0, path, inside),
{
    assert(scope_patterns(option_items(None)) is Ok);
}

/// The selection of a command is that of its own options, read exactly with
/// `--exact`.
pub proof fn selection_is_as_asked(a: ArgsView)
    ensures
        a.exact ==> choice_of(a) == selection_meaning(
            a.scope,
            a.depth,
            a.filter,
            a.exclude,
            MatchMode::Exact,
        ),
        !a.exact ==> choice_of(a) == selection_meaning(
            a.scope,
            a.depth,
            a.filter,
            a.exclude,
            MatchMode::Substring,
        ),
{
}

/// The segments of two paths joined by a separator are those of both; a name
/// without separators is one segment.
pub proof fn segments_join(x: Seq<char>, c: char, y: Seq<char>)
    requires
        is_separator(c),
    ensures
        segments(x + seq![c] + y) == segments(x) + segments(y),
        segments(Seq::empty()) == Seq::<Seq<char>>::empty(),
{
    lemma_segments_join(x, c, y, Seq::empty());
    assert(named(Seq::empty()) == Seq::<Seq<char>>::empty());
}

proof fn lemma_segments_join(x: Seq<char>, c: char, y: Seq<char>, cur: Seq<char>)
    requires
        is_separator(c),
    ensures
        segments_from(x + seq![c] + y, cur) == segments_from(x, cur) + segments(y),
    decreases x.len(),
{
    let all = x + seq![c] + y;
    if x.len() == 0 {
        assert(all.skip(1) =~= y);
        assert(all[0] == c);
    } else {
        assert(all.skip(1) =~= x.skip(1) + seq![c] + y);
        assert(all[0] == x[0]);
        if is_separator(x[0]) {
            lemma_segments_join(x.skip(1), c, y, Seq::empty());
            assert(named(cur) + (segments_from(x.skip(1), Seq::empty()) + segments(y)) =~= (named(
                cur,
            ) + segments_from(x.skip(1), Seq::empty())) + segments(y));
        } else {
            lemma_segments_join(x.skip(1), c, y, cur.push(x[0]));
        }
    }
}

pub proof fn a_name_is_one_segment(name: Seq<char>)
    requires
        name.len() > 0,
        forall|i: int| 0 <= i < name.len() ==> !is_separator(#[trigger] name[i]),
    ensures
        segments(name) == seq![name],
{
    lemma_name(name, Seq::empty());
    assert(Seq::<char>::empty() + name =~= name);
}

proof fn lemma_name(s: Seq<char>, cur: Seq<char>)
    requires
        cur.len() + s.len() > 0,
        forall|i: int| 0 <= i < s.len() ==> !is_separator(#[trigger] s[i]),
    ensures
        segments_from(s, cur) == seq![cur + s],
    decreases s.len(),
{
    if s.len() > 0 {
        let rest = s.skip(1);
        assert(!is_separator(s[0]));
        assert forall|i: int| 0 <= i < rest.len() implies !is_separator(#[trigger] rest[i]) by {
            assert(rest[i] == s[i + 1]);
        }
        lemma_name(rest, cur.push(s[0]));
        assert(cur.push(s[0]) + rest =~= cur + s);
    } else {
        assert(cur + s =~= cur);
    }
}

/// Do globs match names, one by one?
pub open spec fn match_one_by_one(pat: Seq<Seq<char>>, names: Seq<Seq<char>>) -> bool {
    pat.len() == names.len() > 0 && forall|i: int|
        0 <= i < pat.len() ==> glob(#[trigger] pat[i], names[i])
}

/// Does the path have names before the match, the match, and `below` names
/// after it?
pub open spec fn lies_below(
    pat: Seq<Seq<char>>,
    path: Seq<Seq<char>>,
    before: int,
    below: int,
) -> bool {
    &&& 0 <= before && 0 <= below
    &&& before + pat.len() + below == path.len()
    &&& match_one_by_one(pat, path.subrange(before, before + pat.len()))
}

/// A scope pattern takes in the scopes that it matches and all below them; with
/// a depth `d`, those fewer than `d` names below.
pub proof fn scope_takes_in_what_is_below(
    pat: Seq<Seq<char>>,
    path: Seq<Seq<char>>,
    depth: Option<int>,
)
    ensures
        in_subtree(pat, path, depth) <==> exists|before: int, below: int| #[trigger]
            lies_below(pat, path, before, below) && (depth matches Some(d) ==> below < d),
{
    if in_subtree(pat, path, depth) {
        let n = choose|n: int| #[trigger] ends_at(pat, path, n) && within(path, n, depth);
        let names = path.subrange(n - pat.len(), n);
        assert forall|i: int| 0 <= i < pat.len() implies glob(#[trigger] pat[i], names[i]) by {
            assert(names[i] == path[n - pat.len() + i]);
        }
        assert(lies_below(pat, path, n - pat.len(), path.len() - n));
    }
    if exists|before: int, below: int| #[trigger]
        lies_below(pat, path, before, below) && (depth matches Some(d) ==> below < d) {
        let (before, below) = choose|before: int, below: int| #[trigger]
            lies_below(pat, path, before, below) && (depth matches Some(d) ==> below < d);
        let n = before + pat.len();
        let names = path.subrange(before, n);
        assert forall|i: int| 0 <= i < pat.len() implies glob(
            #[trigger] pat[i],
            path[n - pat.len() + i],
        ) by {
            assert(glob(pat[i], names[i]));
        }
        assert(ends_at(pat, path, n));
    }
}

/// A scope option keeps the paths in whose scope one of its patterns matches.
pub proof fn scope_option_keeps_subtrees(
    scope: Seq<char>,
    depth: Option<int>,
    mode: MatchMode,
    path: Seq<char>,
    inside: Seq<char>,
)
    requires
        csv_items(scope).len() > 0,
        selection_meaning(Some(scope), depth, None, None, mode) is Ok,
    ensures
        keeps_path(selection_meaning(Some(scope), depth, None, None, mode)->Ok_0, path, inside)
            <==> exists|i: int|
            0 <= i < csv_items(scope).len() && in_subtree(
                segments(lowercase(stars_collapsed(trimmed(#[trigger] csv_items(scope)[i])))),
                segments(lowercase(inside)),
                depth,
            ),
{
    let items = csv_items(scope);
    lemma_scope_patterns(items);
    let pats = scope_patterns(items)->Ok_0;
    let at = segments(lowercase(inside));
    assert forall|i: int| 0 <= i < items.len() implies pats[i] == segments(
        lowercase(stars_collapsed(trimmed(#[trigger] items[i]))),
    ) by {}
    if in_scopes(pats, inside, depth) {
        let i = choose|i: int| 0 <= i < pats.len() && in_subtree(#[trigger] pats[i], at, depth);
        assert(in_subtree(
            segments(lowercase(stars_collapsed(trimmed(items[i])))),
            at,
            depth,
        ));
    }
    if exists|i: int|
        0 <= i < items.len() && in_subtree(
            segments(lowercase(stars_collapsed(trimmed(#[trigger] items[i])))),
            at,
            depth,
        ) {
        let i = choose|i: int|
            0 <= i < items.len() && in_subtree(
                segments(lowercase(stars_collapsed(trimmed(#[trigger] items[i])))),
                at,
                depth,
            );
        assert(in_subtree(pats[i], at, depth));
    }
}

proof fn lemma_scope_patterns(items: Seq<Seq<char>>)
    requires
        scope_patterns(items) is Ok,
    ensures
        scope_patterns(items)->Ok_0.len() == items.len(),
        forall|i: int|
            0 <= i < items.len() ==> scope_patterns(items)->Ok_0[i] == segments(
                lowercase(stars_collapsed(trimmed(#[trigger] items[i]))),
            ),
    decreases items.len(),
{
    if items.len() > 0 {
        let less = items.drop_last();
        lemma_scope_patterns(less);
        let pats = scope_patterns(items)->Ok_0;
        let fewer = scope_patterns(less)->Ok_0;
        assert forall|i: int| 0 <= i < items.len() implies pats[i] == segments(
            lowercase(stars_collapsed(trimmed(#[trigger] items[i]))),
        ) by {
            if i < less.len() {
                assert(less[i] == items[i]);
                assert(pats[i] == fewer[i]);
            }
        }
    }
}

// ---- names of signals ----

/// Is this the one signal of the table with the property?
pub open spec fn only_one(
    table: Seq<SignalView>,
    p: spec_fn(SignalView) -> bool,
    s: int,
) -> bool {
    &&& 0 <= s < table.len() && p(table[s])
    &&& forall|i: int| 0 <= i < table.len() && p(#[trigger] table[i]) ==> i == s
}

/// Has no signal of the table the property?
pub open spec fn none_is(table: Seq<SignalView>, p: spec_fn(SignalView) -> bool) -> bool {
    forall|i: int| 0 <= i < table.len() ==> !p(#[trigger] table[i])
}

proof fn lemma_count(table: Seq<SignalView>, p: spec_fn(SignalView) -> bool, s: int)
    requires
        table.len() <= usize::MAX,
    ensures
        sids_of(table, p).len() == 0 <==> none_is(table, p),
        only_one(table, p, s) <==> sids_of(table, p).len() == 1 && sids_of(table, p)[0] == s,
{
    sids_are_the_matches(table, p);
    let found = sids_of(table, p);
    if found.len() == 0 {
        assert forall|i: int| 0 <= i < table.len() implies !p(#[trigger] table[i]) by {
            if p(table[i]) {
                assert(found.contains(i as usize));
            }
        }
    } else {
        assert(p(table[found[0] as int]));
    }
    if only_one(table, p, s) {
        assert(found.contains(s as usize));
        if found.len() > 1 {
            assert(found[0] < found[1]);
            assert(p(table[found[0] as int]) && p(table[found[1] as int]));
        }
    }
    if found.len() == 1 && found[0] == s {
        assert forall|i: int| 0 <= i < table.len() && p(#[trigger] table[i]) implies i == s by {
            assert(found.contains(i as usize));
        }
    }
}

/// A name stands for a signal just when it spells a path of that signal and of
/// no other; or, where it has wildcards or spells no path, when that signal
/// alone is kept and matched. Otherwise it is refused.
pub proof fn a_name_stands_for_one_signal(
    table: Seq<SignalView>,
    sel: SelectionView,
    pattern: Seq<char>,
    role: Seq<char>,
    mode: MatchMode,
    s: usize,
)
    requires
        table.len() <= usize::MAX,
    ensures
        ({
            let pat = trimmed(pattern);
            let pats = patterns_of(list_items(seq![pat]), mode);
            signal_meant(table, sel, pattern, role, mode) == Ok::<usize, Seq<char>>(s) <==> (
            !is_wild(pat) && only_one(table, spelled(lowercase(pat)), s as int)) || ((is_wild(pat)
                || none_is(table, spelled(lowercase(pat)))) && pats is Ok && only_one(
                table,
                kept_named(sel, pats->Ok_0),
                s as int,
            ))
        }),
{
    let pat = trimmed(pattern);
    lemma_count(table, spelled(lowercase(pat)), s as int);
    match patterns_of(list_items(seq![pat]), mode) {
        Ok(pats) => {
            lemma_count(table, kept_named(sel, pats), s as int);
        },
        Err(_) => {},
    }
}

/// Does an item of a list name the signal? A path that it spells goes before
/// what it matches.
pub open spec fn item_names(
    table: Seq<SignalView>,
    sel: SelectionView,
    item: Seq<char>,
    mode: MatchMode,
    g: SignalView,
) -> bool {
    if !is_wild(item) && !none_is(table, spelled(lowercase(item))) {
        spelled(lowercase(item))(g)
    } else {
        patterns_of(list_items(seq![item]), mode) matches Ok(pats) && kept_named(sel, pats)(g)
    }
}

proof fn lemma_show_tests(
    table: Seq<SignalView>,
    sel: SelectionView,
    items: Seq<Seq<char>>,
    mode: MatchMode,
)
    requires
        table.len() <= usize::MAX,
        show_tests(table, sel, items, mode) is Ok,
    ensures
        show_tests(table, sel, items, mode)->Ok_0.len() == items.len(),
        forall|i: int, g: SignalView|
            0 <= i < items.len() ==> #[trigger] (show_tests(table, sel, items, mode)->Ok_0[i])(g)
                == item_names(table, sel, items[i], mode, g),
    decreases items.len(),
{
    if items.len() > 0 {
        let less = items.drop_last();
        lemma_show_tests(table, sel, less, mode);
        let fewer = show_tests(table, sel, less, mode)->Ok_0;
        let tests = show_tests(table, sel, items, mode)->Ok_0;
        let t = show_test(table, sel, items.last(), mode)->Ok_0;
        lemma_count(table, spelled(lowercase(items.last())), 0);
        assert forall|i: int, g: SignalView| 0 <= i < items.len() implies #[trigger] (tests[i])(g)
            == item_names(table, sel, items[i], mode, g) by {
            if i < less.len() {
                assert(tests[i] == fewer[i]);
                assert(less[i] == items[i]);
                assert((fewer[i])(g) == item_names(table, sel, less[i], mode, g));
            } else {
                assert(tests[i] == t);
            }
        }
    }
}

proof fn lemma_missed(
    table: Seq<SignalView>,
    items: Seq<Seq<char>>,
    tests: Seq<spec_fn(SignalView) -> bool>,
)
    requires
        table.len() <= usize::MAX,
        tests.len() == items.len(),
    ensures
        missed(table, items, tests).len() > 0 <==> exists|i: int|
            0 <= i < tests.len() && none_is(table, #[trigger] tests[i]),
    decreases items.len(),
{
    if items.len() > 0 {
        let less = items.drop_last();
        let fewer = tests.drop_last();
        lemma_missed(table, less, fewer);
        lemma_count(table, tests.last(), 0);
        if exists|i: int| 0 <= i < fewer.len() && none_is(table, #[trigger] fewer[i]) {
            let i = choose|i: int| 0 <= i < fewer.len() && none_is(table, #[trigger] fewer[i]);
            assert(tests[i] == fewer[i]);
        }
        if exists|i: int| 0 <= i < tests.len() && none_is(table, #[trigger] tests[i]) {
            let i = choose|i: int| 0 <= i < tests.len() && none_is(table, #[trigger] tests[i]);
            if i < fewer.len() {
                assert(tests[i] == fewer[i]);
            }
        }
        assert(tests[tests.len() - 1] == tests.last());
    }
}

/// `--show` shows the signals that its items name, each once and in the order
/// of the table; an item that names none is refused.
pub proof fn show_lists_the_named(
    table: Seq<SignalView>,
    sel: SelectionView,
    raw: Seq<char>,
    mode: MatchMode,
)
    requires
        table.len() <= usize::MAX,
    ensures
        show_meant(table, sel, None, mode) == Ok::<Seq<usize>, Seq<char>>(Seq::empty()),
        show_meant(table, sel, Some(raw), mode) matches Ok(shown) ==> {
            &&& forall|s: int|
                0 <= s < table.len() ==> (#[trigger] shown.contains(s as usize) <==> exists|i: int|
                    0 <= i < csv_items(raw).len() && item_names(
                        table,
                        sel,
                        #[trigger] csv_items(raw)[i],
                        mode,
                        table[s],
                    ))
            &&& forall|i: int| 0 <= i < shown.len() ==> (#[trigger] shown[i]) < table.len()
            &&& forall|i: int, j: int|
                0 <= i < j < shown.len() ==> (#[trigger] shown[i]) < (#[trigger] shown[j])
            &&& forall|i: int|
                0 <= i < csv_items(raw).len() ==> exists|s: int|
                    0 <= s < table.len() && item_names(
                        table,
                        sel,
                        #[trigger] csv_items(raw)[i],
                        mode,
                        #[trigger] table[s],
                    )
        },
{
    let items = csv_items(raw);
    if show_meant(table, sel, Some(raw), mode) is Ok {
        let tests = show_tests(table, sel, items, mode)->Ok_0;
        lemma_show_tests(table, sel, items, mode);
        lemma_missed(table, items, tests);
        let test = |s: int| passes_some(tests, table[s]);
        let shown = numbers_where(table.len(), test);
        assert(show_meant(table, sel, Some(raw), mode)->Ok_0 == shown);
        numbers_in_range(table.len(), test);
        assert forall|s: int| 0 <= s < table.len() implies (#[trigger] shown.contains(s as usize)
            <==> exists|i: int|
            0 <= i < items.len() && item_names(table, sel, #[trigger] items[i], mode, table[s])) by {
            if shown.contains(s as usize) {
                let k = choose|k: int| 0 <= k < shown.len() && shown[k] == s as usize;
                assert(test(shown[k] as int));
                let i = choose|i: int| 0 <= i < tests.len() && #[trigger] (tests[i])(table[s]);
                assert(item_names(table, sel, items[i], mode, table[s]));
            }
            if exists|i: int|
                0 <= i < items.len() && item_names(table, sel, #[trigger] items[i], mode, table[s]) {
                let i = choose|i: int|
                    0 <= i < items.len() && item_names(
                        table,
                        sel,
                        #[trigger] items[i],
                        mode,
                        table[s],
                    );
                assert((tests[i])(table[s]));
                assert(test(s));
                numbers_are_complete(table.len(), test, s);
            }
        }
        assert forall|i: int| 0 <= i < items.len() implies exists|s: int|
            0 <= s < table.len() && item_names(
                table,
                sel,
                #[trigger] items[i],
                mode,
                #[trigger] table[s],
            ) by {
            assert(!none_is(table, tests[i]));
            let s = choose|s: int| 0 <= s < table.len() && (tests[i])(#[trigger] table[s]);
            assert((tests[i])(table[s]));
            assert(item_names(table, sel, items[i], mode, table[s]));
        }
    }
}

} // verus!
