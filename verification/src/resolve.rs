//! Which signals the names in a search mean.

use vstd::prelude::*;

use crate::condition::{csv_items, list_items, split_items};
use crate::filter::{patterns_of, Filters, MatchMode, PatternView};
use crate::format::{pyrepr, repr};
use crate::model::Sid;
use crate::number::{dec, usize_text};
use crate::order::{arranged, sort_texts, stable_sorted, text_le, text_order};
use crate::replay::least;
use crate::report::{sids_are_the_matches, sids_of, sids_where, HasPath, KeptNamed, SignalTest};
use crate::select::{gates, keeps_named, Selection, SelectionView};
use crate::signal::{has_path_ci, signal_views, table_ok, SignalInfo, SignalView};
use crate::text::{
    contains_char, has_char, join, joined, lowercase, opt_view, to_lower, trim, trimmed,
    views,
};

verus! {

/// Is there a wildcard in a name?
pub open spec fn is_wild(pat: Seq<char>) -> bool {
    has_char(pat, '*') || has_char(pat, '?')
}

fn wild(pat: &str) -> (r: bool)
    ensures
        r == is_wild(pat@),
{
    contains_char(pat, '*') || contains_char(pat, '?')
}

/// Signals with the given path.
pub open spec fn spelled(lower: Seq<char>) -> spec_fn(SignalView) -> bool {
    |s: SignalView| has_path_ci(s, lower)
}

/// Kept signals with a path that the patterns match.
pub open spec fn kept_named(sel: SelectionView, pats: Seq<PatternView>) -> spec_fn(SignalView) -> bool {
    |s: SignalView| keeps_named(sel, s, pats)
}

fn find_spelled(table: &Vec<SignalInfo>, lower: &str) -> (r: Vec<Sid>)
    requires
        table_ok(signal_views(table@)),
    ensures
        r@ == sids_of(signal_views(table@), spelled(lower@)),
{
    let test = HasPath(lower);
    let r: Vec<Sid> = sids_where(table, &test);
    assert((|s: SignalView| test.holds(s)) =~= spelled(lower@));
    r
}

fn find_kept(table: &Vec<SignalInfo>, sel: &Selection, filters: &Filters) -> (r: Vec<Sid>)
    requires
        table_ok(signal_views(table@)),
    ensures
        r@ == sids_of(signal_views(table@), kept_named(sel@, filters@)),
{
    let test = KeptNamed(sel, filters);
    let r: Vec<Sid> = sids_where(table, &test);
    assert((|s: SignalView| test.holds(s)) =~= kept_named(sel@, filters@));
    r
}

/// The paths of the given signals.
pub open spec fn paths_at(table: Seq<SignalView>, sids: Seq<usize>) -> Seq<Seq<char>> {
    sids.map_values(|s: usize| table[s as int].path)
}

/// The first few paths of the given signals, in string order.
pub open spec fn examples(table: Seq<SignalView>, sids: Seq<usize>) -> Seq<char> {
    let paths = paths_at(table, sids);
    let sorted = arranged(paths, text_order(paths));
    joined(sorted.take(least(5, sorted.len() as int)), ", "@)
}

fn example_paths(table: &Vec<SignalInfo>, sids: &Vec<Sid>) -> (s: String)
    requires
        forall|i: int| 0 <= i < sids@.len() ==> (#[trigger] sids@[i]) < table@.len(),
    ensures
        s@ == examples(signal_views(table@), sids@),
{
    let ghost tab = signal_views(table@);
    let mut paths: Vec<String> = Vec::new();
    let mut i: usize = 0;
    while i < sids.len()
        invariant
            i <= sids.len(),
            tab == signal_views(table@),
            forall|k: int| 0 <= k < sids@.len() ==> (#[trigger] sids@[k]) < table@.len(),
            paths.len() == i,
            forall|k: int| 0 <= k < i ==> (#[trigger] paths@[k])@ == tab[sids@[k] as int].path,
        decreases sids.len() - i,
    {
        let sid: Sid = sids[i];
        assert(sids@[i as int] < table@.len());
        assert(tab[sid as int] == table@[sid as int]@);
        paths.push(table[sid].path.clone());
        i += 1;
    }
    assert(views(paths@) =~= paths_at(tab, sids@));
    let order: Vec<usize> = sort_texts(&paths);
    let few: usize = if order.len() > 5 {
        5
    } else {
        order.len()
    };
    let ghost sorted = arranged(views(paths@), order@);
    let mut shown: Vec<String> = Vec::new();
    let mut j: usize = 0;
    while j < few
        invariant
            j <= few <= order.len(),
            stable_sorted(text_le(), views(paths@), order@),
            sorted == arranged(views(paths@), order@),
            shown.len() == j,
            forall|k: int| 0 <= k < j ==> (#[trigger] shown@[k])@ == sorted[k],
        decreases few - j,
    {
        let p: usize = order[j];
        assert(order@[j as int] < views(paths@).len());
        assert(sorted[j as int] == views(paths@)[p as int]);
        shown.push(paths[p].clone());
        j += 1;
    }
    assert(views(shown@) =~= sorted.take(few as int));
    join(&shown, ", ")
}

/// How the selection bears on a name, for messages.
pub open spec fn within_text(sel: SelectionView) -> Seq<char> {
    if gates(sel).len() == 0 {
        ""@
    } else {
        " within the current selection ("@ + gates(sel) + ")"@
    }
}

fn within_selection(sel: &Selection) -> (s: String)
    ensures
        s@ == within_text(sel@),
{
    let g: String = sel.active_gates();
    if g.as_str().is_empty() {
        "".to_owned()
    } else {
        let mut m: String = " within the current selection (".to_owned();
        m.push_str(g.as_str());
        m.push_str(")");
        m
    }
}

pub open spec fn spelled_often(
    table: Seq<SignalView>,
    hits: Seq<usize>,
    pattern: Seq<char>,
    role: Seq<char>,
) -> Seq<char> {
    role + " pattern "@ + repr(pattern) + " exactly matches "@ + dec(hits.len())
        + " signals; use list to choose a more specific name, examples: "@ + examples(table, hits)
}

pub open spec fn named_nowhere(sel: SelectionView, pattern: Seq<char>, role: Seq<char>) -> Seq<char> {
    role + " pattern "@ + repr(pattern) + " matches no signals"@ + within_text(sel) + (if gates(
        sel,
    ).len() == 0 {
        ""@
    } else {
        "; give the full hierarchical path to look outside it"@
    })
}

pub open spec fn named_often(
    table: Seq<SignalView>,
    sel: SelectionView,
    hits: Seq<usize>,
    pattern: Seq<char>,
    role: Seq<char>,
) -> Seq<char> {
    role + " pattern "@ + repr(pattern) + " matches "@ + dec(hits.len()) + " signals"@ + within_text(
        sel,
    ) + "; narrow it with --scope or --exclude, or give the full hierarchical path"@ + (if examples(
        table,
        hits,
    ).len() == 0 {
        ""@
    } else {
        ", examples: "@ + examples(table, hits)
    })
}

/// Which signal a name means: the one whose path is spelled out, or else the
/// only one among those selected that it matches as a pattern.
pub open spec fn signal_meant(
    table: Seq<SignalView>,
    sel: SelectionView,
    pattern: Seq<char>,
    role: Seq<char>,
    mode: MatchMode,
) -> Result<usize, Seq<char>> {
    let pat = trimmed(pattern);
    let exact = sids_of(table, spelled(lowercase(pat)));
    if !is_wild(pat) && exact.len() == 1 {
        Ok(exact[0])
    } else if !is_wild(pat) && exact.len() > 1 {
        Err(spelled_often(table, exact, pattern, role))
    } else {
        match patterns_of(list_items(seq![pat]), mode) {
            Err(e) => Err(e),
            Ok(pats) => {
                let hits = sids_of(table, kept_named(sel, pats));
                if hits.len() == 0 {
                    Err(named_nowhere(sel, pattern, role))
                } else if hits.len() == 1 {
                    Ok(hits[0])
                } else {
                    Err(named_often(table, sel, hits, pattern, role))
                }
            },
        }
    }
}

fn spelled_often_text(table: &Vec<SignalInfo>, hits: &Vec<Sid>, pattern: &str, role: &str) -> (m:
    String)
    requires
        forall|i: int| 0 <= i < hits@.len() ==> (#[trigger] hits@[i]) < table@.len(),
    ensures
        m@ == spelled_often(signal_views(table@), hits@, pattern@, role@),
{
    let mut m: String = role.to_owned();
    m.push_str(" pattern ");
    m.push_str(pyrepr(pattern).as_str());
    m.push_str(" exactly matches ");
    m.push_str(usize_text(hits.len()).as_str());
    m.push_str(" signals; use list to choose a more specific name, examples: ");
    m.push_str(example_paths(table, hits).as_str());
    m
}

fn named_nowhere_text(sel: &Selection, pattern: &str, role: &str) -> (m: String)
    ensures
        m@ == named_nowhere(sel@, pattern@, role@),
{
    let mut m: String = role.to_owned();
    m.push_str(" pattern ");
    m.push_str(pyrepr(pattern).as_str());
    m.push_str(" matches no signals");
    m.push_str(within_selection(sel).as_str());
    let g: String = sel.active_gates();
    if g.as_str().is_empty() {
        m.push_str("");
    } else {
        m.push_str("; give the full hierarchical path to look outside it");
    }
    m
}

fn named_often_text(
    table: &Vec<SignalInfo>,
    sel: &Selection,
    hits: &Vec<Sid>,
    pattern: &str,
    role: &str,
) -> (m: String)
    requires
        forall|i: int| 0 <= i < hits@.len() ==> (#[trigger] hits@[i]) < table@.len(),
    ensures
        m@ == named_often(signal_views(table@), sel@, hits@, pattern@, role@),
{
    let shown: String = example_paths(table, hits);
    let mut extra: String = "".to_owned();
    if !shown.as_str().is_empty() {
        extra = ", examples: ".to_owned();
        extra.push_str(shown.as_str());
    }
    let mut m: String = role.to_owned();
    m.push_str(" pattern ");
    m.push_str(pyrepr(pattern).as_str());
    m.push_str(" matches ");
    m.push_str(usize_text(hits.len()).as_str());
    m.push_str(" signals");
    m.push_str(within_selection(sel).as_str());
    m.push_str("; narrow it with --scope or --exclude, or give the full hierarchical path");
    m.push_str(extra.as_str());
    m
}

fn one_pattern(pat: &str, mode: MatchMode) -> (r: Result<Filters, String>)
    ensures
        match r {
            Ok(f) => patterns_of(list_items(seq![pat@]), mode) == Ok::<
                Seq<PatternView>,
                Seq<char>,
            >(f@),
            Err(e) => patterns_of(list_items(seq![pat@]), mode) == Err::<
                Seq<PatternView>,
                Seq<char>,
            >(e@),
        },
{
    let mut one: Vec<String> = Vec::new();
    one.push(pat.to_owned());
    assert(views(one@) =~= seq![pat@]);
    match Filters::parse_mode(&one, mode) {
        Ok(f) => Ok(f),
        Err(e) => Err(e.0),
    }
}

/// Find the signal that a name means.
pub fn resolve_one_signal(
    table: &Vec<SignalInfo>,
    sel: &Selection,
    pattern: &str,
    role: &str,
    mode: MatchMode,
) -> (r: Result<Sid, String>)
    requires
        table_ok(signal_views(table@)),
    ensures
        match r {
            Ok(s) => s < table@.len() && signal_meant(
                signal_views(table@),
                sel@,
                pattern@,
                role@,
                mode,
            ) == Ok::<usize, Seq<char>>(s),
            Err(e) => signal_meant(signal_views(table@), sel@, pattern@, role@, mode) == Err::<
                usize,
                Seq<char>,
            >(e@),
        },
{
    let ghost tab = signal_views(table@);
    let pat: &str = trim(pattern);
    let count: usize = table.len();
    assert(tab.len() == count);
    if !wild(pat) {
        let lower: String = to_lower(pat);
        let exact: Vec<Sid> = find_spelled(table, lower.as_str());
        proof {
            sids_are_the_matches(tab, spelled(lower@));
        }
        if exact.len() == 1 {
            assert(exact@[0] < tab.len());
            return Ok(exact[0]);
        }
        if exact.len() > 1 {
            return Err(spelled_often_text(table, &exact, pattern, role));
        }
    }
    match one_pattern(pat, mode) {
        Err(e) => Err(e),
        Ok(filters) => {
            let hits: Vec<Sid> = find_kept(table, sel, &filters);
            proof {
                sids_are_the_matches(tab, kept_named(sel@, filters@));
            }
            if hits.len() == 0 {
                return Err(named_nowhere_text(sel, pattern, role));
            }
            if hits.len() == 1 {
                assert(hits@[0] < tab.len());
                return Ok(hits[0]);
            }
            Err(named_often_text(table, sel, &hits, pattern, role))
        },
    }
}

/// A path that is spelled out means its signal, whatever the selection.
pub proof fn full_path_ignores_selection(
    table: Seq<SignalView>,
    a: SelectionView,
    b: SelectionView,
    pattern: Seq<char>,
    role: Seq<char>,
    mode: MatchMode,
)
    requires
        !is_wild(trimmed(pattern)),
        sids_of(table, spelled(lowercase(trimmed(pattern)))).len() > 0,
    ensures
        signal_meant(table, a, pattern, role, mode) == signal_meant(table, b, pattern, role, mode),
{
}

/// The numbers below `n` for which a test holds, in ascending order.
pub open spec fn numbers_where(n: nat, p: spec_fn(int) -> bool) -> Seq<usize>
    decreases n,
{
    if n == 0 {
        Seq::empty()
    } else {
        let rest = numbers_where((n - 1) as nat, p);
        if p(n - 1) {
            rest.push((n - 1) as usize)
        } else {
            rest
        }
    }
}

/// The marked positions, in ascending order.
pub fn marked(marks: &Vec<bool>) -> (r: Vec<usize>)
    ensures
        r@ == numbers_where(marks@.len(), |i: int| marks@[i]),
        forall|k: int| 0 <= k < r@.len() ==> (#[trigger] r@[k]) < marks@.len(),
        forall|i: int| 0 <= i < marks@.len() && (#[trigger] marks@[i]) ==> r@.contains(i as usize),
{
    let ghost p = |i: int| marks@[i];
    let mut r: Vec<usize> = Vec::new();
    let mut i: usize = 0;
    while i < marks.len()
        invariant
            i <= marks.len(),
            p == (|i: int| marks@[i]),
            r@ == numbers_where(i as nat, p),
            forall|k: int| 0 <= k < r@.len() ==> (#[trigger] r@[k]) < i,
            forall|j: int| 0 <= j < i && (#[trigger] marks@[j]) ==> r@.contains(j as usize),
        decreases marks.len() - i,
    {
        let ghost r0 = r@;
        if marks[i] {
            r.push(i);
            assert forall|j: int| 0 <= j < i + 1 && (#[trigger] marks@[j]) implies r@.contains(
                j as usize,
            ) by {
                if j < i {
                    assert(r0.contains(j as usize));
                    let k = choose|k: int| 0 <= k < r0.len() && r0[k] == j as usize;
                    assert(r@[k] == j as usize);
                } else {
                    assert(r@[r0.len() as int] == i);
                }
            }
        }
        i += 1;
    }
    r
}

/// The numbers found are below the bound and pass the test, in ascending
/// order.
pub proof fn numbers_in_range(n: nat, p: spec_fn(int) -> bool)
    requires
        n <= usize::MAX,
    ensures
        forall|k: int|
            0 <= k < numbers_where(n, p).len() ==> (#[trigger] numbers_where(n, p)[k]) < n && p(
                numbers_where(n, p)[k] as int,
            ),
        forall|j: int, k: int|
            0 <= j < k < numbers_where(n, p).len() ==> (#[trigger] numbers_where(n, p)[j]) < (
            #[trigger] numbers_where(n, p)[k]),
    decreases n,
{
    if n > 0 {
        numbers_in_range((n - 1) as nat, p);
        let all = numbers_where(n, p);
        let rest = numbers_where((n - 1) as nat, p);
        assert forall|k: int| 0 <= k < all.len() implies (#[trigger] all[k]) < n && p(
            all[k] as int,
        ) by {
            if k < rest.len() {
                assert(all[k] == rest[k]);
            }
        }
        assert forall|j: int, k: int| 0 <= j < k < all.len() implies (#[trigger] all[j]) < (
        #[trigger] all[k]) by {
            assert(all[j] == rest[j]);
            if k < rest.len() {
                assert(all[k] == rest[k]);
            }
        }
    }
}

/// Every number below the bound that passes the test is found.
pub proof fn numbers_are_complete(n: nat, p: spec_fn(int) -> bool, i: int)
    requires
        n <= usize::MAX,
        0 <= i < n,
        p(i),
    ensures
        numbers_where(n, p).contains(i as usize),
    decreases n,
{
    let all = numbers_where(n, p);
    let rest = numbers_where((n - 1) as nat, p);
    if i == n - 1 {
        assert(all[rest.len() as int] == i as usize);
    } else {
        numbers_are_complete((n - 1) as nat, p, i);
        let k = choose|k: int| 0 <= k < rest.len() && rest[k] == i as usize;
        assert(all[k] == i as usize);
    }
}

/// Tests that agree pick the same numbers.
pub proof fn numbers_agree(n: nat, p: spec_fn(int) -> bool, q: spec_fn(int) -> bool)
    requires
        forall|i: int| 0 <= i < n ==> #[trigger] p(i) == q(i),
    ensures
        numbers_where(n, p) == numbers_where(n, q),
    decreases n,
{
    if n > 0 {
        numbers_agree((n - 1) as nat, p, q);
        assert(p(n - 1) == q(n - 1));
    }
}

/// No position marked.
pub fn no_marks(n: usize) -> (r: Vec<bool>)
    ensures
        r@.len() == n,
        forall|i: int| 0 <= i < n ==> !(#[trigger] r@[i]),
{
    let mut r: Vec<bool> = Vec::new();
    while r.len() < n
        invariant
            r.len() <= n,
            forall|i: int| 0 <= i < r.len() ==> !(#[trigger] r@[i]),
        decreases n - r.len(),
    {
        r.push(false);
    }
    r
}

/// The signals that one `--show` name means: those whose path is spelled out,
/// or else the selected ones that it matches as a pattern.
pub open spec fn show_test(
    table: Seq<SignalView>,
    sel: SelectionView,
    pat: Seq<char>,
    mode: MatchMode,
) -> Result<spec_fn(SignalView) -> bool, Seq<char>> {
    if !is_wild(pat) && sids_of(table, spelled(lowercase(pat))).len() > 0 {
        Ok(spelled(lowercase(pat)))
    } else {
        match patterns_of(list_items(seq![pat]), mode) {
            Err(e) => Err(e),
            Ok(pats) => Ok(kept_named(sel, pats)),
        }
    }
}

/// The tests of several names, or the first complaint.
pub open spec fn show_tests(
    table: Seq<SignalView>,
    sel: SelectionView,
    pats: Seq<Seq<char>>,
    mode: MatchMode,
) -> Result<Seq<spec_fn(SignalView) -> bool>, Seq<char>>
    decreases pats.len(),
{
    if pats.len() == 0 {
        Ok(Seq::empty())
    } else {
        match show_tests(table, sel, pats.drop_last(), mode) {
            Err(e) => Err(e),
            Ok(done) => match show_test(table, sel, pats.last(), mode) {
                Err(e) => Err(e),
                Ok(t) => Ok(done.push(t)),
            },
        }
    }
}

/// The names for which no signal passes its test.
pub open spec fn missed(
    table: Seq<SignalView>,
    pats: Seq<Seq<char>>,
    tests: Seq<spec_fn(SignalView) -> bool>,
) -> Seq<Seq<char>>
    decreases pats.len(),
{
    if pats.len() == 0 || tests.len() != pats.len() {
        Seq::empty()
    } else {
        let rest = missed(table, pats.drop_last(), tests.drop_last());
        if sids_of(table, tests.last()).len() == 0 {
            rest.push(pats.last())
        } else {
            rest
        }
    }
}

/// Does a signal pass one of the tests?
pub open spec fn passes_some(tests: Seq<spec_fn(SignalView) -> bool>, s: SignalView) -> bool {
    exists|i: int| 0 <= i < tests.len() && #[trigger] (tests[i])(s)
}

/// The signals that `--show` names.
pub open spec fn show_meant(
    table: Seq<SignalView>,
    sel: SelectionView,
    show: Option<Seq<char>>,
    mode: MatchMode,
) -> Result<Seq<usize>, Seq<char>> {
    match show {
        None => Ok(Seq::empty()),
        Some(raw) => {
            let pats = csv_items(raw);
            match show_tests(table, sel, pats, mode) {
                Err(e) => Err(e),
                Ok(tests) => {
                    let gone = missed(table, pats, tests);
                    if gone.len() > 0 {
                        Err(
                            "--show matches no signals"@ + within_text(sel) + ": "@ + joined(
                                gone,
                                ", "@,
                            ),
                        )
                    } else {
                        Ok(numbers_where(table.len(), |s: int| passes_some(tests, table[s])))
                    }
                },
            }
        },
    }
}

/// The signals that one `--show` name means.
fn show_hits(table: &Vec<SignalInfo>, sel: &Selection, pat: &str, mode: MatchMode) -> (r: Result<
    Vec<Sid>,
    String,
>)
    requires
        table_ok(signal_views(table@)),
    ensures
        match (r, show_test(signal_views(table@), sel@, pat@, mode)) {
            (Ok(v), Ok(t)) => v@ == sids_of(signal_views(table@), t),
            (Err(e), Err(m)) => e@ == m,
            _ => false,
        },
{
    if !wild(pat) {
        let lower: String = to_lower(pat);
        let exact: Vec<Sid> = find_spelled(table, lower.as_str());
        if exact.len() > 0 {
            return Ok(exact);
        }
    }
    match one_pattern(pat, mode) {
        Err(e) => Err(e),
        Ok(filters) => Ok(find_kept(table, sel, &filters)),
    }
}

proof fn lemma_show_fails(
    table: Seq<SignalView>,
    sel: SelectionView,
    pats: Seq<Seq<char>>,
    mode: MatchMode,
    n: int,
    e: Seq<char>,
)
    requires
        0 <= n <= pats.len(),
        show_tests(table, sel, pats.take(n), mode) == Err::<
            Seq<spec_fn(SignalView) -> bool>,
            Seq<char>,
        >(e),
    ensures
        show_tests(table, sel, pats, mode) == Err::<Seq<spec_fn(SignalView) -> bool>, Seq<char>>(e),
    decreases pats.len() - n,
{
    if n < pats.len() {
        assert(pats.take(n + 1).drop_last() =~= pats.take(n));
        lemma_show_fails(table, sel, pats, mode, n + 1, e);
    } else {
        assert(pats.take(n) =~= pats);
    }
}

/// Mark the given positions.
pub fn mark_all(marks: &mut Vec<bool>, sids: &Vec<Sid>)
    requires
        forall|i: int| 0 <= i < sids@.len() ==> (#[trigger] sids@[i]) < old(marks)@.len(),
    ensures
        final(marks)@.len() == old(marks)@.len(),
        forall|s: int|
            0 <= s < old(marks)@.len() ==> #[trigger] final(marks)@[s] == (old(marks)@[s]
                || sids@.contains(s as usize)),
{
    let ghost m0 = marks@;
    let count: usize = marks.len();
    let mut i: usize = 0;
    while i < sids.len()
        invariant
            i <= sids.len(),
            count == m0.len(),
            marks@.len() == m0.len(),
            forall|k: int| 0 <= k < sids@.len() ==> (#[trigger] sids@[k]) < m0.len(),
            forall|s: int|
                0 <= s < m0.len() ==> #[trigger] marks@[s] == (m0[s] || exists|k: int|
                    0 <= k < i && #[trigger] sids@[k] == s),
        decreases sids.len() - i,
    {
        let sid: Sid = sids[i];
        assert(sids@[i as int] < m0.len());
        let ghost m1 = marks@;
        marks.set(sid, true);
        assert forall|s: int| 0 <= s < m0.len() implies #[trigger] marks@[s] == (m0[s]
            || exists|k: int| 0 <= k < i + 1 && #[trigger] sids@[k] == s) by {
            if s == sid {
                assert(sids@[i as int] == s);
            } else {
                assert(marks@[s] == m1[s]);
            }
        }
        i += 1;
    }
    assert forall|s: int| 0 <= s < m0.len() implies #[trigger] marks@[s] == (m0[s]
        || sids@.contains(s as usize)) by {
        if sids@.contains(s as usize) {
            let k = choose|k: int| 0 <= k < sids@.len() && sids@[k] == s as usize;
            assert(sids@[k] == s);
        }
        if exists|k: int| 0 <= k < sids@.len() && #[trigger] sids@[k] == s {
            let k = choose|k: int| 0 <= k < sids@.len() && #[trigger] sids@[k] == s;
            assert(sids@[k] == s as usize);
        }
    }
}

proof fn lemma_marks_step(
    table: Seq<SignalView>,
    done: Seq<spec_fn(SignalView) -> bool>,
    t: spec_fn(SignalView) -> bool,
    s: int,
)
    requires
        table.len() <= usize::MAX,
        0 <= s < table.len(),
    ensures
        passes_some(done.push(t), table[s]) == (passes_some(done, table[s]) || sids_of(
            table,
            t,
        ).contains(s as usize)),
{
    let more = done.push(t);
    let hits = sids_of(table, t);
    sids_are_the_matches(table, t);
    if passes_some(more, table[s]) {
        let i = choose|i: int| 0 <= i < more.len() && #[trigger] (more[i])(table[s]);
        if i < done.len() {
            assert((done[i])(table[s]));
        } else {
            assert(t(table[s]));
        }
    }
    if passes_some(done, table[s]) {
        let i = choose|i: int| 0 <= i < done.len() && #[trigger] (done[i])(table[s]);
        assert((more[i])(table[s]));
    }
    if hits.contains(s as usize) {
        let k = choose|k: int| 0 <= k < hits.len() && hits[k] == s as usize;
        assert(t(table[hits[k] as int]));
        assert((more[done.len() as int])(table[s]));
    }
}

/// Find the signals that a list of names means.
fn show_by_names(table: &Vec<SignalInfo>, sel: &Selection, raw: &str, mode: MatchMode) -> (r: Result<
    Vec<Sid>,
    String,
>)
    requires
        table_ok(signal_views(table@)),
    ensures
        match r {
            Ok(v) => show_meant(signal_views(table@), sel@, Some(raw@), mode) == Ok::<
                Seq<usize>,
                Seq<char>,
            >(v@) && forall|k: int| 0 <= k < v@.len() ==> (#[trigger] v@[k]) < table@.len(),
            Err(e) => show_meant(signal_views(table@), sel@, Some(raw@), mode) == Err::<
                Seq<usize>,
                Seq<char>,
            >(e@),
        },
{
    let ghost tab = signal_views(table@);
    let count: usize = table.len();
    let pats: Vec<String> = split_items(raw);
    let ghost ps = csv_items(raw@);
    let mut marks: Vec<bool> = no_marks(count);
    let mut gone: Vec<String> = Vec::new();
    let ghost mut tests: Seq<spec_fn(SignalView) -> bool> = Seq::empty();
    let mut i: usize = 0;
    assert(ps.take(0) =~= Seq::empty());
    assert(views(gone@) =~= Seq::empty());
    assert(tab.len() == count);
    while i < pats.len()
        invariant
            i <= pats.len(),
            count == table@.len(),
            tab == signal_views(table@),
            tab.len() == count,
            table_ok(tab),
            views(pats@) == ps,
            ps == csv_items(raw@),
            ps.len() == pats@.len(),
            show_tests(tab, sel@, ps.take(i as int), mode) == Ok::<
                Seq<spec_fn(SignalView) -> bool>,
                Seq<char>,
            >(tests),
            tests.len() == i,
            views(gone@) == missed(tab, ps.take(i as int), tests),
            marks@.len() == count,
            forall|s: int| 0 <= s < count ==> #[trigger] marks@[s] == passes_some(tests, tab[s]),
        decreases pats.len() - i,
    {
        let pat: &str = pats[i].as_str();
        proof {
            assert(ps[i as int] == pat@);
            assert(ps.take(i + 1).drop_last() =~= ps.take(i as int));
            assert(ps.take(i + 1).last() == pat@);
        }
        match show_hits(table, sel, pat, mode) {
            Err(e) => {
                proof {
                    lemma_show_fails(tab, sel@, ps, mode, i + 1, e@);
                }
                return Err(e);
            },
            Ok(hits) => {
                let ghost t = show_test(tab, sel@, pat@, mode)->Ok_0;
                let ghost m0 = marks@;
                proof {
                    sids_are_the_matches(tab, t);
                }
                mark_all(&mut marks, &hits);
                let ghost g0 = views(gone@);
                if hits.len() == 0 {
                    gone.push(pat.to_owned());
                    assert(views(gone@) =~= g0.push(pat@));
                }
                proof {
                    let before = tests;
                    tests = before.push(t);
                    assert(tests.drop_last() =~= before);
                    assert forall|s: int| 0 <= s < count implies #[trigger] marks@[s]
                        == passes_some(tests, tab[s]) by {
                        lemma_marks_step(tab, before, t, s);
                        assert(m0[s] == passes_some(before, tab[s]));
                    }
                }
            },
        }
        i += 1;
    }
    assert(ps.take(i as int) =~= ps);
    if gone.len() > 0 {
        assert(views(gone@).len() == gone@.len());
        let mut m: String = "--show matches no signals".to_owned();
        m.push_str(within_selection(sel).as_str());
        m.push_str(": ");
        m.push_str(join(&gone, ", ").as_str());
        return Err(m);
    }
    let r: Vec<usize> = marked(&marks);
    proof {
        assert(views(gone@).len() == 0);
        numbers_agree(
            count as nat,
            |s: int| marks@[s],
            |s: int| passes_some(tests, tab[s]),
        );
    }
    Ok(r)
}

/// Find the signals that `--show` names.
pub fn resolve_show_sids(
    table: &Vec<SignalInfo>,
    sel: &Selection,
    show: &Option<String>,
    mode: MatchMode,
) -> (r: Result<Vec<Sid>, String>)
    requires
        table_ok(signal_views(table@)),
    ensures
        match r {
            Ok(v) => show_meant(signal_views(table@), sel@, opt_view(*show), mode) == Ok::<
                Seq<usize>,
                Seq<char>,
            >(v@) && forall|k: int| 0 <= k < v@.len() ==> (#[trigger] v@[k]) < table@.len(),
            Err(e) => show_meant(signal_views(table@), sel@, opt_view(*show), mode) == Err::<
                Seq<usize>,
                Seq<char>,
            >(e@),
        },
{
    match show {
        Some(raw) => show_by_names(table, sel, raw.as_str(), mode),
        None => Ok(Vec::new()),
    }
}

} // verus!
