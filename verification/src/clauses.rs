//! The clauses of a search, bound to signals.

use vstd::prelude::*;

use crate::condition::{clause_of, op_text, parse_clause, Target, Term, TermView};
use crate::filter::MatchMode;
use crate::model::Sid;
use crate::resolve::{mark_all, marked, no_marks, numbers_agree, numbers_where};
use crate::resolve::{resolve_one_signal, signal_meant};
use crate::select::{Selection, SelectionView};
use crate::signal::{signal_views, table_ok, SignalInfo, SignalView};
use crate::sweep::{
    clause_views, clauses_in, cond_views, BoundView, CondView, ResolvedCond, ResolvedTerm,
};
use crate::text::{join, joined, same, views};

verus! {

/// Do two terms ask the same of the same signal? Values count as they are
/// written: a number in another base is another value.
pub open spec fn same_term(a: CondView, b: CondView) -> bool {
    a.sid == b.sid && match (a.term, b.term) {
        (BoundView::Changed, BoundView::Changed) => true,
        (
            BoundView::Level { op: p, target: t, width: _, kind: _, value_text: _ },
            BoundView::Level { op: q, target: u, width: _, kind: _, value_text: _ },
        ) => p == q && t == u,
        _ => false,
    }
}

pub open spec fn has_term(clause: Seq<CondView>, c: CondView) -> bool {
    exists|i: int| 0 <= i < clause.len() && same_term(#[trigger] clause[i], c)
}

/// Do two clauses have the same terms, in whatever order?
pub open spec fn same_clause(a: Seq<CondView>, b: Seq<CondView>) -> bool {
    a.len() == b.len() && forall|i: int| 0 <= i < a.len() ==> has_term(b, #[trigger] a[i])
}

pub open spec fn has_clause(clauses: Seq<Seq<CondView>>, c: Seq<CondView>) -> bool {
    exists|i: int| 0 <= i < clauses.len() && same_clause(#[trigger] clauses[i], c)
}

/// A term bound to the signal it names.
pub open spec fn bound(
    table: Seq<SignalView>,
    sel: SelectionView,
    t: TermView,
    mode: MatchMode,
) -> Result<CondView, Seq<char>> {
    match t {
        TermView::Level(c) => match signal_meant(
            table,
            sel,
            c.pattern,
            "condition signal"@,
            mode,
        ) {
            Err(e) => Err(e),
            Ok(sid) => {
                let s = table[sid as int];
                Ok(
                    CondView {
                        sid: sid as nat,
                        term: BoundView::Level {
                            op: c.op,
                            target: c.target,
                            width: s.width,
                            kind: s.kind,
                            value_text: c.value_text,
                        },
                        original: c.original,
                        path: s.path,
                    },
                )
            },
        },
        TermView::Changed { pattern, original } => match signal_meant(
            table,
            sel,
            pattern,
            "changed() signal"@,
            mode,
        ) {
            Err(e) => Err(e),
            Ok(sid) => Ok(
                CondView {
                    sid: sid as nat,
                    term: BoundView::Changed,
                    original,
                    path: table[sid as int].path,
                },
            ),
        },
    }
}

/// Terms bound to their signals, repeated ones left out; or the first
/// complaint.
pub open spec fn bound_terms(
    table: Seq<SignalView>,
    sel: SelectionView,
    terms: Seq<TermView>,
    mode: MatchMode,
) -> Result<Seq<CondView>, Seq<char>>
    decreases terms.len(),
{
    if terms.len() == 0 {
        Ok(Seq::empty())
    } else {
        match bound_terms(table, sel, terms.drop_last(), mode) {
            Err(e) => Err(e),
            Ok(done) => match bound(table, sel, terms.last(), mode) {
                Err(e) => Err(e),
                Ok(c) => if has_term(done, c) {
                    Ok(done)
                } else {
                    Ok(done.push(c))
                },
            },
        }
    }
}

/// One clause bound to its signals.
pub open spec fn bound_clause(
    table: Seq<SignalView>,
    sel: SelectionView,
    text: Seq<char>,
    mode: MatchMode,
) -> Result<Seq<CondView>, Seq<char>> {
    match clause_of(text) {
        Err(e) => Err(e),
        Ok(terms) => bound_terms(table, sel, terms, mode),
    }
}

/// Clauses bound to their signals, repeated ones left out; or the first
/// complaint.
pub open spec fn bound_clauses(
    table: Seq<SignalView>,
    sel: SelectionView,
    texts: Seq<Seq<char>>,
    mode: MatchMode,
) -> Result<Seq<Seq<CondView>>, Seq<char>>
    decreases texts.len(),
{
    if texts.len() == 0 {
        Ok(Seq::empty())
    } else {
        match bound_clauses(table, sel, texts.drop_last(), mode) {
            Err(e) => Err(e),
            Ok(done) => match bound_clause(table, sel, texts.last(), mode) {
                Err(e) => Err(e),
                Ok(c) => if has_clause(done, c) {
                    Ok(done)
                } else {
                    Ok(done.push(c))
                },
            },
        }
    }
}

/// Does no term say the same as another?
pub open spec fn terms_distinct(c: Seq<CondView>) -> bool {
    forall|i: int, j: int|
        0 <= i < j < c.len() ==> !same_term(#[trigger] c[i], #[trigger] c[j])
}

/// No term of a bound clause says the same as another.
pub proof fn bound_terms_are_distinct(
    table: Seq<SignalView>,
    sel: SelectionView,
    terms: Seq<TermView>,
    mode: MatchMode,
)
    ensures
        bound_terms(table, sel, terms, mode) matches Ok(c) ==> terms_distinct(c),
    decreases terms.len(),
{
    if terms.len() > 0 {
        bound_terms_are_distinct(table, sel, terms.drop_last(), mode);
    }
}

/// Writing a clause a second time changes nothing.
pub proof fn repeated_clause_is_dropped(
    table: Seq<SignalView>,
    sel: SelectionView,
    texts: Seq<Seq<char>>,
    mode: MatchMode,
    i: int,
)
    requires
        0 <= i < texts.len(),
    ensures
        bound_clauses(table, sel, texts.push(texts[i]), mode) == bound_clauses(
            table,
            sel,
            texts,
            mode,
        ),
{
    let more = texts.push(texts[i]);
    assert(more.drop_last() =~= texts);
    if bound_clauses(table, sel, texts, mode) is Ok {
        lemma_clause_is_there(table, sel, texts, mode, i);
    }
}

proof fn lemma_same_clause_self(c: Seq<CondView>)
    ensures
        same_clause(c, c),
{
    assert forall|i: int| 0 <= i < c.len() implies has_term(c, #[trigger] c[i]) by {
        assert(same_term(c[i], c[i]));
    }
}

proof fn lemma_clause_is_there(
    table: Seq<SignalView>,
    sel: SelectionView,
    texts: Seq<Seq<char>>,
    mode: MatchMode,
    i: int,
)
    requires
        0 <= i < texts.len(),
        bound_clauses(table, sel, texts, mode) is Ok,
    ensures
        bound_clause(table, sel, texts[i], mode) is Ok,
        has_clause(
            bound_clauses(table, sel, texts, mode)->Ok_0,
            bound_clause(table, sel, texts[i], mode)->Ok_0,
        ),
    decreases texts.len(),
{
    let less = texts.drop_last();
    let all = bound_clauses(table, sel, texts, mode)->Ok_0;
    let done = bound_clauses(table, sel, less, mode)->Ok_0;
    if i < less.len() {
        assert(less[i] == texts[i]);
        lemma_clause_is_there(table, sel, less, mode, i);
        let c = bound_clause(table, sel, texts[i], mode)->Ok_0;
        let k = choose|k: int| 0 <= k < done.len() && same_clause(#[trigger] done[k], c);
        assert(all[k] == done[k]);
    } else {
        let c = bound_clause(table, sel, texts[i], mode)->Ok_0;
        if !has_clause(done, c) {
            lemma_same_clause_self(c);
            assert(all[done.len() as int] == c);
        }
    }
}

fn same_target(a: &Target, b: &Target) -> (r: bool)
    ensures
        r == (a@ == b@),
{
    if !same(a.raw.as_str(), b.raw.as_str()) {
        return false;
    }
    match (&a.int, &b.int) {
        (Some(x), Some(y)) => *x == *y,
        (None, None) => true,
        _ => false,
    }
}

fn terms_agree(a: &ResolvedCond, b: &ResolvedCond) -> (r: bool)
    ensures
        r == same_term(a@, b@),
{
    if a.sid != b.sid {
        return false;
    }
    match &a.term {
        ResolvedTerm::Changed => match &b.term {
            ResolvedTerm::Changed => true,
            _ => false,
        },
        ResolvedTerm::Level { op: p, target: t, width: _, kind: _, value_text: _ } => match &b.term {
            ResolvedTerm::Level { op: q, target: u, width: _, kind: _, value_text: _ } => *p == *q
                && same_target(t, u),
            _ => false,
        },
    }
}

fn term_in(clause: &Vec<ResolvedCond>, c: &ResolvedCond) -> (r: bool)
    ensures
        r == has_term(cond_views(clause@), c@),
{
    let ghost cv = cond_views(clause@);
    let mut i: usize = 0;
    while i < clause.len()
        invariant
            i <= clause.len(),
            cv == cond_views(clause@),
            forall|k: int| 0 <= k < i ==> !same_term(#[trigger] cv[k], c@),
        decreases clause.len() - i,
    {
        assert(cv[i as int] == clause@[i as int]@);
        if terms_agree(&clause[i], c) {
            return true;
        }
        i += 1;
    }
    false
}

fn clauses_agree(a: &Vec<ResolvedCond>, b: &Vec<ResolvedCond>) -> (r: bool)
    ensures
        r == same_clause(cond_views(a@), cond_views(b@)),
{
    let ghost av = cond_views(a@);
    let ghost bv = cond_views(b@);
    assert(av.len() == a@.len() && bv.len() == b@.len());
    if a.len() != b.len() {
        return false;
    }
    let mut i: usize = 0;
    while i < a.len()
        invariant
            i <= a.len(),
            av == cond_views(a@),
            bv == cond_views(b@),
            av.len() == bv.len(),
            forall|k: int| 0 <= k < i ==> has_term(bv, #[trigger] av[k]),
        decreases a.len() - i,
    {
        assert(av[i as int] == a@[i as int]@);
        if !term_in(b, &a[i]) {
            return false;
        }
        i += 1;
    }
    true
}

fn clause_in(clauses: &Vec<Vec<ResolvedCond>>, c: &Vec<ResolvedCond>) -> (r: bool)
    ensures
        r == has_clause(clause_views(clauses@), cond_views(c@)),
{
    let ghost cv = clause_views(clauses@);
    let mut i: usize = 0;
    while i < clauses.len()
        invariant
            i <= clauses.len(),
            cv == clause_views(clauses@),
            forall|k: int| 0 <= k < i ==> !same_clause(#[trigger] cv[k], cond_views(c@)),
        decreases clauses.len() - i,
    {
        assert(cv[i as int] == cond_views(clauses@[i as int]@));
        if clauses_agree(&clauses[i], c) {
            return true;
        }
        i += 1;
    }
    false
}

fn bind_term(table: &Vec<SignalInfo>, sel: &Selection, t: &Term, mode: MatchMode) -> (r: Result<
    ResolvedCond,
    String,
>)
    requires
        table_ok(signal_views(table@)),
    ensures
        match r {
            Ok(c) => c.sid < table@.len() && bound(signal_views(table@), sel@, t@, mode) == Ok::<
                CondView,
                Seq<char>,
            >(c@),
            Err(e) => bound(signal_views(table@), sel@, t@, mode) == Err::<CondView, Seq<char>>(e@),
        },
{
    match t {
        Term::Level(c) => match resolve_one_signal(
            table,
            sel,
            c.pattern.as_str(),
            "condition signal",
            mode,
        ) {
            Err(e) => Err(e),
            Ok(sid) => {
                let info: &SignalInfo = &table[sid];
                assert(signal_views(table@)[sid as int] == info@);
                Ok(
                    ResolvedCond {
                        sid,
                        term: ResolvedTerm::Level {
                            op: c.op,
                            target: c.target.clone(),
                            width: info.width,
                            kind: info.kind,
                            value_text: c.value_text.clone(),
                        },
                        original: c.original.clone(),
                        path: info.path.clone(),
                    },
                )
            },
        },
        Term::Changed { pattern, original } => match resolve_one_signal(
            table,
            sel,
            pattern.as_str(),
            "changed() signal",
            mode,
        ) {
            Err(e) => Err(e),
            Ok(sid) => {
                let info: &SignalInfo = &table[sid];
                assert(signal_views(table@)[sid as int] == info@);
                Ok(
                    ResolvedCond {
                        sid,
                        term: ResolvedTerm::Changed,
                        original: original.clone(),
                        path: info.path.clone(),
                    },
                )
            },
        },
    }
}

/// Are the signals of a clause in a table of `n` signals?
pub open spec fn clause_sids_in(c: Seq<CondView>, n: nat) -> bool {
    forall|j: int| 0 <= j < c.len() ==> (#[trigger] c[j]).sid < n
}

proof fn lemma_terms_fail(
    table: Seq<SignalView>,
    sel: SelectionView,
    terms: Seq<TermView>,
    mode: MatchMode,
    n: int,
    e: Seq<char>,
)
    requires
        0 <= n <= terms.len(),
        bound_terms(table, sel, terms.take(n), mode) == Err::<Seq<CondView>, Seq<char>>(e),
    ensures
        bound_terms(table, sel, terms, mode) == Err::<Seq<CondView>, Seq<char>>(e),
    decreases terms.len() - n,
{
    if n < terms.len() {
        assert(terms.take(n + 1).drop_last() =~= terms.take(n));
        lemma_terms_fail(table, sel, terms, mode, n + 1, e);
    } else {
        assert(terms.take(n) =~= terms);
    }
}

fn bind_terms(table: &Vec<SignalInfo>, sel: &Selection, terms: &Vec<Term>, mode: MatchMode) -> (r:
    Result<Vec<ResolvedCond>, String>)
    requires
        table_ok(signal_views(table@)),
    ensures
        match r {
            Ok(c) => clause_sids_in(cond_views(c@), table@.len()) && bound_terms(
                signal_views(table@),
                sel@,
                crate::condition::term_views(terms@),
                mode,
            ) == Ok::<Seq<CondView>, Seq<char>>(cond_views(c@)),
            Err(e) => bound_terms(
                signal_views(table@),
                sel@,
                crate::condition::term_views(terms@),
                mode,
            ) == Err::<Seq<CondView>, Seq<char>>(e@),
        },
{
    let ghost tab = signal_views(table@);
    let ghost tv = crate::condition::term_views(terms@);
    let mut out: Vec<ResolvedCond> = Vec::new();
    let mut i: usize = 0;
    assert(tv.take(0) =~= Seq::empty());
    assert(cond_views(out@) =~= Seq::empty());
    while i < terms.len()
        invariant
            i <= terms.len(),
            tab == signal_views(table@),
            table_ok(tab),
            tv == crate::condition::term_views(terms@),
            clause_sids_in(cond_views(out@), table@.len()),
            bound_terms(tab, sel@, tv.take(i as int), mode) == Ok::<Seq<CondView>, Seq<char>>(
                cond_views(out@),
            ),
        decreases terms.len() - i,
    {
        proof {
            assert(tv.take(i + 1).drop_last() =~= tv.take(i as int));
            assert(tv.take(i + 1).last() == terms@[i as int]@);
        }
        match bind_term(table, sel, &terms[i], mode) {
            Err(e) => {
                proof {
                    lemma_terms_fail(tab, sel@, tv, mode, i + 1, e@);
                }
                return Err(e);
            },
            Ok(c) => {
                if !term_in(&out, &c) {
                    let ghost o0 = cond_views(out@);
                    let ghost cv = c@;
                    out.push(c);
                    assert(cond_views(out@) =~= o0.push(cv));
                }
            },
        }
        i += 1;
    }
    assert(tv.take(i as int) =~= tv);
    Ok(out)
}

/// Bind one clause to its signals.
pub fn resolve_conditions(table: &Vec<SignalInfo>, sel: &Selection, text: &str, mode: MatchMode) -> (r:
    Result<Vec<ResolvedCond>, String>)
    requires
        table_ok(signal_views(table@)),
    ensures
        match r {
            Ok(c) => clause_sids_in(cond_views(c@), table@.len()) && bound_clause(
                signal_views(table@),
                sel@,
                text@,
                mode,
            ) == Ok::<Seq<CondView>, Seq<char>>(cond_views(c@)),
            Err(e) => bound_clause(signal_views(table@), sel@, text@, mode) == Err::<
                Seq<CondView>,
                Seq<char>,
            >(e@),
        },
{
    match parse_clause(text) {
        Err(e) => Err(e.0),
        Ok(terms) => bind_terms(table, sel, &terms, mode),
    }
}

proof fn lemma_clauses_fail(
    table: Seq<SignalView>,
    sel: SelectionView,
    texts: Seq<Seq<char>>,
    mode: MatchMode,
    n: int,
    e: Seq<char>,
)
    requires
        0 <= n <= texts.len(),
        bound_clauses(table, sel, texts.take(n), mode) == Err::<Seq<Seq<CondView>>, Seq<char>>(e),
    ensures
        bound_clauses(table, sel, texts, mode) == Err::<Seq<Seq<CondView>>, Seq<char>>(e),
    decreases texts.len() - n,
{
    if n < texts.len() {
        assert(texts.take(n + 1).drop_last() =~= texts.take(n));
        lemma_clauses_fail(table, sel, texts, mode, n + 1, e);
    } else {
        assert(texts.take(n) =~= texts);
    }
}

/// Bind all clauses to their signals.
pub fn resolve_clauses(
    table: &Vec<SignalInfo>,
    sel: &Selection,
    texts: &Vec<String>,
    mode: MatchMode,
) -> (r: Result<Vec<Vec<ResolvedCond>>, String>)
    requires
        table_ok(signal_views(table@)),
    ensures
        match r {
            Ok(c) => clauses_in(clause_views(c@), table@.len()) && bound_clauses(
                signal_views(table@),
                sel@,
                views(texts@),
                mode,
            ) == Ok::<Seq<Seq<CondView>>, Seq<char>>(clause_views(c@)),
            Err(e) => bound_clauses(signal_views(table@), sel@, views(texts@), mode) == Err::<
                Seq<Seq<CondView>>,
                Seq<char>,
            >(e@),
        },
{
    let ghost tab = signal_views(table@);
    let ghost tv = views(texts@);
    let mut out: Vec<Vec<ResolvedCond>> = Vec::new();
    let mut i: usize = 0;
    assert(tv.take(0) =~= Seq::empty());
    assert(clause_views(out@) =~= Seq::empty());
    while i < texts.len()
        invariant
            i <= texts.len(),
            tab == signal_views(table@),
            table_ok(tab),
            tv == views(texts@),
            clauses_in(clause_views(out@), table@.len()),
            bound_clauses(tab, sel@, tv.take(i as int), mode) == Ok::<
                Seq<Seq<CondView>>,
                Seq<char>,
            >(clause_views(out@)),
        decreases texts.len() - i,
    {
        proof {
            assert(tv.take(i + 1).drop_last() =~= tv.take(i as int));
            assert(tv.take(i + 1).last() == texts@[i as int]@);
        }
        match resolve_conditions(table, sel, texts[i].as_str(), mode) {
            Err(e) => {
                proof {
                    lemma_clauses_fail(tab, sel@, tv, mode, i + 1, e@);
                }
                return Err(e);
            },
            Ok(c) => {
                if !clause_in(&out, &c) {
                    let ghost o0 = clause_views(out@);
                    let ghost cv = cond_views(c@);
                    out.push(c);
                    proof {
                        let o1 = clause_views(out@);
                        assert(o1 =~= o0.push(cv));
                        assert forall|a: int, b: int|
                            0 <= a < o1.len() && 0 <= b < o1[a].len() implies (
                        #[trigger] o1[a][b]).sid < table@.len() by {
                            if a < o0.len() {
                                assert(o1[a] == o0[a]);
                                assert(o0[a][b].sid < table@.len());
                            } else {
                                assert(cv[b].sid < table@.len());
                            }
                        }
                    }
                }
            },
        }
        i += 1;
    }
    assert(tv.take(i as int) =~= tv);
    Ok(out)
}

/// Does the clause ask for a change?
pub open spec fn asks_change(c: Seq<CondView>) -> bool {
    exists|i: int| 0 <= i < c.len() && (#[trigger] c[i]).term is Changed
}

/// Do some clauses ask for a change and others not?
pub open spec fn is_mixed(clauses: Seq<Seq<CondView>>) -> bool {
    (exists|i: int| 0 <= i < clauses.len() && asks_change(#[trigger] clauses[i])) && (exists|i: int|
        0 <= i < clauses.len() && !asks_change(#[trigger] clauses[i]))
}

fn asks_for_change(c: &Vec<ResolvedCond>) -> (r: bool)
    ensures
        r == asks_change(cond_views(c@)),
{
    let ghost cv = cond_views(c@);
    let mut i: usize = 0;
    while i < c.len()
        invariant
            i <= c.len(),
            cv == cond_views(c@),
            forall|k: int| 0 <= k < i ==> !((#[trigger] cv[k]).term is Changed),
        decreases c.len() - i,
    {
        assert(cv[i as int] == c@[i as int]@);
        match c[i].term {
            ResolvedTerm::Changed => {
                return true;
            },
            _ => {},
        }
        i += 1;
    }
    false
}

/// Are clauses of both sorts there?
pub fn mixed(clauses: &Vec<Vec<ResolvedCond>>) -> (r: bool)
    ensures
        r == is_mixed(clause_views(clauses@)),
{
    let ghost cv = clause_views(clauses@);
    let mut with: bool = false;
    let mut without: bool = false;
    let mut i: usize = 0;
    while i < clauses.len()
        invariant
            i <= clauses.len(),
            cv == clause_views(clauses@),
            with == exists|k: int| 0 <= k < i && asks_change(#[trigger] cv[k]),
            without == exists|k: int| 0 <= k < i && !asks_change(#[trigger] cv[k]),
        decreases clauses.len() - i,
    {
        assert(cv[i as int] == cond_views(clauses@[i as int]@));
        if asks_for_change(&clauses[i]) {
            with = true;
        } else {
            without = true;
        }
        i += 1;
    }
    with && without
}

/// Is signal `s` asked to change?
pub open spec fn is_watched(clauses: Seq<Seq<CondView>>, s: int) -> bool {
    exists|i: int, j: int|
        0 <= i < clauses.len() && 0 <= j < clauses[i].len() && (#[trigger] clauses[i][j]).sid == s
            && clauses[i][j].term is Changed
}

/// Does a clause speak of signal `s`?
pub open spec fn is_used(clauses: Seq<Seq<CondView>>, s: int) -> bool {
    exists|i: int, j: int|
        0 <= i < clauses.len() && 0 <= j < clauses[i].len() && (#[trigger] clauses[i][j]).sid == s
}

/// The signals that are asked to change, in ascending order.
pub open spec fn watched(clauses: Seq<Seq<CondView>>, n: nat) -> Seq<usize> {
    numbers_where(n, |s: int| is_watched(clauses, s))
}

/// The signals that the clauses speak of or that are shown, in ascending
/// order.
pub open spec fn involved(clauses: Seq<Seq<CondView>>, show: Seq<usize>, n: nat) -> Seq<usize> {
    numbers_where(n, |s: int| is_used(clauses, s) || show.contains(s as usize))
}

/// Mark the signals of a clause: all of them, or those asked to change.
fn mark_clause(marks: &mut Vec<bool>, clause: &Vec<ResolvedCond>, only_changed: bool)
    requires
        clause_sids_in(cond_views(clause@), old(marks)@.len()),
    ensures
        final(marks)@.len() == old(marks)@.len(),
        forall|s: int|
            0 <= s < old(marks)@.len() ==> #[trigger] final(marks)@[s] == (old(marks)@[s]
                || marks_signal(cond_views(clause@), only_changed, s)),
{
    let ghost m0 = marks@;
    let ghost cv = cond_views(clause@);
    let mut i: usize = 0;
    while i < clause.len()
        invariant
            i <= clause.len(),
            cv == cond_views(clause@),
            clause_sids_in(cv, m0.len()),
            marks@.len() == m0.len(),
            forall|s: int|
                0 <= s < m0.len() ==> #[trigger] marks@[s] == (m0[s] || marks_signal(
                    cv.take(i as int),
                    only_changed,
                    s,
                )),
        decreases clause.len() - i,
    {
        let sid: Sid = clause[i].sid;
        assert(cv[i as int] == clause@[i as int]@);
        assert(cv[i as int].sid < m0.len());
        let take: bool = match clause[i].term {
            ResolvedTerm::Changed => true,
            _ => !only_changed,
        };
        let ghost m1 = marks@;
        if take {
            marks.set(sid, true);
        }
        assert forall|s: int| 0 <= s < m0.len() implies #[trigger] marks@[s] == (m0[s]
            || marks_signal(cv.take(i + 1), only_changed, s)) by {
            let a = cv.take(i as int);
            let b = cv.take(i + 1);
            assert(m1[s] == (m0[s] || marks_signal(a, only_changed, s)));
            if marks_signal(a, only_changed, s) {
                let k = choose|k: int|
                    0 <= k < a.len() && (#[trigger] a[k]).sid == s && (only_changed ==> a[k].term is Changed);
                assert(b[k] == a[k]);
            }
            if marks_signal(b, only_changed, s) {
                let k = choose|k: int|
                    0 <= k < b.len() && (#[trigger] b[k]).sid == s && (only_changed ==> b[k].term is Changed);
                if k < i {
                    assert(a[k] == b[k]);
                }
            }
            assert(b[i as int] == cv[i as int]);
        }
        i += 1;
    }
    assert(cv.take(i as int) =~= cv);
}

spec fn marks_signal(c: Seq<CondView>, only_changed: bool, s: int) -> bool {
    exists|k: int| 0 <= k < c.len() && (#[trigger] c[k]).sid == s && (only_changed ==> c[k].term is Changed)
}

fn mark_clauses(clauses: &Vec<Vec<ResolvedCond>>, count: usize, only_changed: bool) -> (marks: Vec<
    bool,
>)
    requires
        clauses_in(clause_views(clauses@), count as nat),
    ensures
        marks@.len() == count,
        forall|s: int|
            0 <= s < count ==> #[trigger] marks@[s] == (if only_changed {
                is_watched(clause_views(clauses@), s)
            } else {
                is_used(clause_views(clauses@), s)
            }),
{
    let ghost cv = clause_views(clauses@);
    let mut marks: Vec<bool> = no_marks(count);
    let mut i: usize = 0;
    while i < clauses.len()
        invariant
            i <= clauses.len(),
            cv == clause_views(clauses@),
            clauses_in(cv, count as nat),
            marks@.len() == count,
            forall|s: int|
                0 <= s < count ==> #[trigger] marks@[s] == exists|k: int|
                    0 <= k < i && marks_signal(#[trigger] cv[k], only_changed, s),
        decreases clauses.len() - i,
    {
        let ghost m0 = marks@;
        proof {
            assert(cv[i as int] == cond_views(clauses@[i as int]@));
            assert forall|j: int| 0 <= j < cv[i as int].len() implies (
            #[trigger] cv[i as int][j]).sid < count by {}
        }
        mark_clause(&mut marks, &clauses[i], only_changed);
        assert forall|s: int| 0 <= s < count implies #[trigger] marks@[s] == exists|k: int|
            0 <= k < i + 1 && marks_signal(#[trigger] cv[k], only_changed, s) by {
            assert(m0[s] == exists|k: int|
                0 <= k < i && marks_signal(#[trigger] cv[k], only_changed, s));
            if marks_signal(cv[i as int], only_changed, s) {
                assert(0 <= i < i + 1);
            }
        }
        i += 1;
    }
    assert forall|s: int| 0 <= s < count implies #[trigger] marks@[s] == (if only_changed {
        is_watched(cv, s)
    } else {
        is_used(cv, s)
    }) by {
        if exists|k: int| 0 <= k < cv.len() && marks_signal(#[trigger] cv[k], only_changed, s) {
            let a = choose|k: int|
                0 <= k < cv.len() && marks_signal(#[trigger] cv[k], only_changed, s);
            let b = choose|k: int|
                0 <= k < cv[a].len() && (#[trigger] cv[a][k]).sid == s && (only_changed
                    ==> cv[a][k].term is Changed);
            assert(cv[a][b].sid == s);
        }
        if only_changed && is_watched(cv, s) {
            let (a, b) = choose|a: int, b: int|
                0 <= a < cv.len() && 0 <= b < cv[a].len() && (#[trigger] cv[a][b]).sid == s
                    && cv[a][b].term is Changed;
            assert(marks_signal(cv[a], only_changed, s));
        }
        if !only_changed && is_used(cv, s) {
            let (a, b) = choose|a: int, b: int|
                0 <= a < cv.len() && 0 <= b < cv[a].len() && (#[trigger] cv[a][b]).sid == s;
            assert(marks_signal(cv[a], only_changed, s));
        }
    }
    marks
}

/// The signals that are asked to change.
pub fn watched_sids(clauses: &Vec<Vec<ResolvedCond>>, count: usize) -> (r: Vec<Sid>)
    requires
        clauses_in(clause_views(clauses@), count as nat),
    ensures
        r@ == watched(clause_views(clauses@), count as nat),
        forall|k: int| 0 <= k < r@.len() ==> (#[trigger] r@[k]) < count,
{
    let marks: Vec<bool> = mark_clauses(clauses, count, true);
    let r: Vec<usize> = marked(&marks);
    proof {
        numbers_agree(
            count as nat,
            |i: int| marks@[i],
            |s: int| is_watched(clause_views(clauses@), s),
        );
    }
    r
}

/// The signals that the clauses speak of or that are shown.
pub fn involved_sids(clauses: &Vec<Vec<ResolvedCond>>, show: &Vec<Sid>, count: usize) -> (r: Vec<Sid>)
    requires
        clauses_in(clause_views(clauses@), count as nat),
        forall|k: int| 0 <= k < show@.len() ==> (#[trigger] show@[k]) < count,
    ensures
        r@ == involved(clause_views(clauses@), show@, count as nat),
        forall|k: int| 0 <= k < r@.len() ==> (#[trigger] r@[k]) < count,
{
    let mut marks: Vec<bool> = mark_clauses(clauses, count, false);
    let ghost m0 = marks@;
    mark_all(&mut marks, show);
    let r: Vec<usize> = marked(&marks);
    proof {
        assert forall|s: int| 0 <= s < count implies #[trigger] marks@[s] == (is_used(
            clause_views(clauses@),
            s,
        ) || show@.contains(s as usize)) by {
            assert(m0[s] == is_used(clause_views(clauses@), s));
        }
        numbers_agree(
            count as nat,
            |i: int| marks@[i],
            |s: int| is_used(clause_views(clauses@), s) || show@.contains(s as usize),
        );
    }
    r
}

/// A clause as it was written.
pub open spec fn written(c: Seq<CondView>) -> Seq<char> {
    joined(c.map_values(|x: CondView| x.original), ","@)
}

/// A term with the path of its signal.
pub open spec fn term_label(c: CondView) -> Seq<char> {
    match c.term {
        BoundView::Level { op, target: _, width: _, kind: _, value_text } => c.path + op_text(op)
            + value_text,
        BoundView::Changed => "changed("@ + c.path + ")"@,
    }
}

/// A clause with the paths of its signals.
pub open spec fn spelled_out(c: Seq<CondView>) -> Seq<char> {
    joined(c.map_values(|x: CondView| term_label(x)), ","@)
}

/// Clauses put together: one as it is, several in brackets.
pub open spec fn either(labels: Seq<Seq<char>>) -> Seq<char> {
    if labels.len() == 1 {
        labels[0]
    } else {
        joined(labels.map_values(|l: Seq<char>| "("@ + l + ")"@), " OR "@)
    }
}

fn either_text(labels: &Vec<String>) -> (s: String)
    ensures
        s@ == either(views(labels@)),
{
    let ghost lv = views(labels@);
    assert(lv.len() == labels@.len());
    if labels.len() == 1 {
        assert(lv[0] == labels@[0]@);
        return labels[0].clone();
    }
    let mut out: Vec<String> = Vec::new();
    let mut i: usize = 0;
    while i < labels.len()
        invariant
            i <= labels.len(),
            lv == views(labels@),
            out.len() == i,
            forall|k: int| 0 <= k < i ==> (#[trigger] out@[k])@ == "("@ + lv[k] + ")"@,
        decreases labels.len() - i,
    {
        assert(lv[i as int] == labels@[i as int]@);
        let mut m: String = "(".to_owned();
        m.push_str(labels[i].as_str());
        m.push_str(")");
        out.push(m);
        i += 1;
    }
    assert(views(out@) =~= lv.map_values(|l: Seq<char>| "("@ + l + ")"@));
    join(&out, " OR ")
}

fn condition_label(c: &Vec<ResolvedCond>) -> (s: String)
    ensures
        s@ == written(cond_views(c@)),
{
    let ghost cv = cond_views(c@);
    let mut out: Vec<String> = Vec::new();
    let mut i: usize = 0;
    while i < c.len()
        invariant
            i <= c.len(),
            cv == cond_views(c@),
            out.len() == i,
            forall|k: int| 0 <= k < i ==> (#[trigger] out@[k])@ == cv[k].original,
        decreases c.len() - i,
    {
        assert(cv[i as int] == c@[i as int]@);
        out.push(c[i].original.clone());
        i += 1;
    }
    assert(views(out@) =~= cv.map_values(|x: CondView| x.original));
    join(&out, ",")
}

fn condition_result_text(c: &Vec<ResolvedCond>) -> (s: String)
    ensures
        s@ == spelled_out(cond_views(c@)),
{
    let ghost cv = cond_views(c@);
    let mut out: Vec<String> = Vec::new();
    let mut i: usize = 0;
    while i < c.len()
        invariant
            i <= c.len(),
            cv == cond_views(c@),
            out.len() == i,
            forall|k: int| 0 <= k < i ==> (#[trigger] out@[k])@ == term_label(cv[k]),
        decreases c.len() - i,
    {
        assert(cv[i as int] == c@[i as int]@);
        let one: String = match &c[i].term {
            ResolvedTerm::Level { op, target: _, width: _, kind: _, value_text } => {
                let mut m: String = c[i].path.clone();
                m.push_str(op.as_str());
                m.push_str(value_text.as_str());
                m
            },
            ResolvedTerm::Changed => {
                let mut m: String = "changed(".to_owned();
                m.push_str(c[i].path.as_str());
                m.push_str(")");
                m
            },
        };
        out.push(one);
        i += 1;
    }
    assert(views(out@) =~= cv.map_values(|x: CondView| term_label(x)));
    join(&out, ",")
}

/// The clauses as they were written, and with the paths of their signals.
pub fn clause_labels(clauses: &Vec<Vec<ResolvedCond>>) -> (r: (String, String))
    ensures
        r.0@ == either(clause_views(clauses@).map_values(|c: Seq<CondView>| written(c))),
        r.1@ == either(clause_views(clauses@).map_values(|c: Seq<CondView>| spelled_out(c))),
{
    let ghost cv = clause_views(clauses@);
    let mut a: Vec<String> = Vec::new();
    let mut b: Vec<String> = Vec::new();
    let mut i: usize = 0;
    while i < clauses.len()
        invariant
            i <= clauses.len(),
            cv == clause_views(clauses@),
            a.len() == i,
            b.len() == i,
            forall|k: int| 0 <= k < i ==> (#[trigger] a@[k])@ == written(cv[k]),
            forall|k: int| 0 <= k < i ==> (#[trigger] b@[k])@ == spelled_out(cv[k]),
        decreases clauses.len() - i,
    {
        assert(cv[i as int] == cond_views(clauses@[i as int]@));
        a.push(condition_label(&clauses[i]));
        b.push(condition_result_text(&clauses[i]));
        i += 1;
    }
    assert(views(a@) =~= cv.map_values(|c: Seq<CondView>| written(c)));
    assert(views(b@) =~= cv.map_values(|c: Seq<CondView>| spelled_out(c)));
    (either_text(&a), either_text(&b))
}

} // verus!
