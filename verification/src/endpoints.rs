//! Finding the signals that a design database names.

use vstd::prelude::*;

use vstd::hash_map::StringHashMap;
use vstd::hash_set::StringHashSet;

use crate::model::Sid;
use crate::signal::{has_path_ci, signal_views, SignalInfo, SignalView};
use crate::text::{lowercase, to_lower, views};

verus! {

/// The first of the first `n` signals with a path.
pub open spec fn first_with_path(table: Seq<SignalView>, path: Seq<char>, n: nat) -> Option<usize>
    decreases n,
{
    if n == 0 {
        None
    } else {
        match first_with_path(table, path, (n - 1) as nat) {
            Some(s) => Some(s),
            None => if table[n - 1].aliases.contains(path) {
                Some((n - 1) as usize)
            } else {
                None
            },
        }
    }
}

/// The one of the first `n` signals that has a path, not minding case: `None`
/// if there is none, `Some(None)` if there are several.
pub open spec fn only_with_path(table: Seq<SignalView>, lower: Seq<char>, n: nat) -> Option<
    Option<usize>,
>
    decreases n,
{
    if n == 0 {
        None
    } else {
        let before = only_with_path(table, lower, (n - 1) as nat);
        if has_path_ci(table[n - 1], lower) {
            match before {
                None => Some(Some((n - 1) as usize)),
                Some(_) => Some(None),
            }
        } else {
            before
        }
    }
}

/// The signal that a name of the design means: one with that very path, or
/// else the only one with that path but for case.
pub open spec fn endpoint_of(table: Seq<SignalView>, name: Seq<char>) -> Option<usize> {
    match first_with_path(table, name, table.len()) {
        Some(s) => Some(s),
        None => match only_with_path(table, lowercase(name), table.len()) {
            Some(Some(s)) => Some(s),
            _ => None,
        },
    }
}

/// The signal found is in the table and has the name as a path, but for case.
pub proof fn endpoint_has_name(table: Seq<SignalView>, name: Seq<char>)
    requires
        table.len() <= usize::MAX,
    ensures
        endpoint_of(table, name) matches Some(s) ==> s < table.len() && has_path_ci(
            table[s as int],
            lowercase(name),
        ),
{
    lemma_first(table, name, table.len());
    lemma_only(table, lowercase(name), table.len());
}

proof fn lemma_first(table: Seq<SignalView>, path: Seq<char>, n: nat)
    requires
        n <= table.len() <= usize::MAX,
    ensures
        first_with_path(table, path, n) matches Some(s) ==> s < n && has_path_ci(
            table[s as int],
            lowercase(path),
        ),
    decreases n,
{
    if n > 0 {
        lemma_first(table, path, (n - 1) as nat);
        let a = table[n - 1].aliases;
        if a.contains(path) {
            let i = choose|i: int| 0 <= i < a.len() && a[i] == path;
            assert(lowercase(a[i]) == lowercase(path));
        }
    }
}

proof fn lemma_only(table: Seq<SignalView>, lower: Seq<char>, n: nat)
    requires
        n <= table.len() <= usize::MAX,
    ensures
        only_with_path(table, lower, n) matches Some(Some(s)) ==> s < n && has_path_ci(
            table[s as int],
            lower,
        ),
    decreases n,
{
    if n > 0 {
        lemma_only(table, lower, (n - 1) as nat);
    }
}

/// Is one of the first `j` paths this one, not minding case?
spec fn seen_ci(aliases: Seq<Seq<char>>, lower: Seq<char>, j: int) -> bool {
    exists|i: int| 0 <= i < j && #[trigger] lowercase(aliases[i]) == lower
}

/// `first_with_path` after `j` paths of signal `k`.
spec fn first_so_far(table: Seq<SignalView>, t: Seq<char>, k: nat, j: int) -> Option<usize> {
    match first_with_path(table, t, k) {
        Some(s) => Some(s),
        None => if table[k as int].aliases.take(j).contains(t) {
            Some(k as usize)
        } else {
            None
        },
    }
}

/// `only_with_path` after `j` paths of signal `k`.
spec fn only_so_far(table: Seq<SignalView>, t: Seq<char>, k: nat, j: int) -> Option<Option<usize>> {
    let before = only_with_path(table, t, k);
    if seen_ci(table[k as int].aliases, t, j) {
        match before {
            None => Some(Some(k as usize)),
            Some(_) => Some(None),
        }
    } else {
        before
    }
}

spec fn exact_right(
    m: Map<Seq<char>, usize>,
    want: Set<Seq<char>>,
    table: Seq<SignalView>,
    k: nat,
    j: int,
) -> bool {
    forall|t: Seq<char>|
        {
            &&& #[trigger] m.contains_key(t) == (want.contains(t) && first_so_far(
                table,
                t,
                k,
                j,
            ) is Some)
            &&& m.contains_key(t) ==> Some(m[t]) == first_so_far(table, t, k, j)
        }
}

spec fn folded_right(
    m: Map<Seq<char>, Option<usize>>,
    want: Set<Seq<char>>,
    table: Seq<SignalView>,
    k: nat,
    j: int,
) -> bool {
    forall|t: Seq<char>|
        {
            &&& #[trigger] m.contains_key(t) == (want.contains(t) && only_so_far(
                table,
                t,
                k,
                j,
            ) is Some)
            &&& m.contains_key(t) ==> Some(m[t]) == only_so_far(table, t, k, j)
        }
}

proof fn lemma_contains_step(v: Seq<Seq<char>>, j: int, t: Seq<char>)
    requires
        0 <= j < v.len(),
    ensures
        v.take(j + 1).contains(t) == (v.take(j).contains(t) || v[j] == t),
{
    let a = v.take(j);
    let b = v.take(j + 1);
    if b.contains(t) {
        let i = choose|i: int| 0 <= i < b.len() && b[i] == t;
        if i < j {
            assert(a[i] == t);
        }
    }
    if a.contains(t) {
        let i = choose|i: int| 0 <= i < a.len() && a[i] == t;
        assert(b[i] == t);
    }
    assert(b[j] == v[j]);
}

proof fn lemma_seen_step(v: Seq<Seq<char>>, j: int, t: Seq<char>)
    requires
        0 <= j < v.len(),
    ensures
        seen_ci(v, t, j + 1) == (seen_ci(v, t, j) || lowercase(v[j]) == t),
{
    if seen_ci(v, t, j) {
        let i = choose|i: int| 0 <= i < j && #[trigger] lowercase(v[i]) == t;
        assert(lowercase(v[i]) == t);
    }
}

/// Take in the paths of signal `k`.
fn index_signal(
    exact: &mut StringHashMap<usize>,
    folded: &mut StringHashMap<Option<usize>>,
    want: &StringHashSet,
    want_lower: &StringHashSet,
    info: &SignalInfo,
    k: usize,
    Ghost(table): Ghost<Seq<SignalView>>,
)
    requires
        k < table.len() <= usize::MAX,
        info@ == table[k as int],
        exact_right(old(exact)@, want@, table, k as nat, 0),
        folded_right(old(folded)@, want_lower@, table, k as nat, 0),
    ensures
        exact_right(final(exact)@, want@, table, k as nat, table[k as int].aliases.len() as int),
        folded_right(
            final(folded)@,
            want_lower@,
            table,
            k as nat,
            table[k as int].aliases.len() as int,
        ),
{
    let ghost av = table[k as int].aliases;
    let mut j: usize = 0;
    while j < info.aliases.len()
        invariant
            j <= info.aliases.len(),
            k < table.len() <= usize::MAX,
            av == table[k as int].aliases,
            av == views(info.aliases@),
            exact_right(exact@, want@, table, k as nat, j as int),
            folded_right(folded@, want_lower@, table, k as nat, j as int),
        decreases info.aliases.len() - j,
    {
        let path: &str = info.aliases[j].as_str();
        assert(av[j as int] == path@);
        let ghost e0 = exact@;
        if want.contains(path) && !exact.contains_key(path) {
            exact.insert(path.to_owned(), k);
        }
        assert(exact_right(exact@, want@, table, k as nat, j + 1)) by {
            assert forall|t: Seq<char>|
                {
                    &&& #[trigger] exact@.contains_key(t) == (want@.contains(t) && first_so_far(
                        table,
                        t,
                        k as nat,
                        j + 1,
                    ) is Some)
                    &&& exact@.contains_key(t) ==> Some(exact@[t]) == first_so_far(
                        table,
                        t,
                        k as nat,
                        j + 1,
                    )
                } by {
                lemma_contains_step(av, j as int, t);
                assert(e0.contains_key(t) == (want@.contains(t) && first_so_far(
                    table,
                    t,
                    k as nat,
                    j as int,
                ) is Some));
            }
        }
        let lower: String = to_lower(path);
        let ghost f0 = folded@;
        let wanted: bool = want_lower.contains(lower.as_str());
        if wanted {
            let now: Option<Option<usize>> = match folded.get(lower.as_str()) {
                None => None,
                Some(v) => Some(*v),
            };
            match now {
                None => {
                    folded.insert(lower.clone(), Some(k));
                },
                Some(v) => {
                    let same_signal: bool = match v {
                        Some(s) => s == k,
                        None => false,
                    };
                    if !same_signal {
                        folded.insert(lower.clone(), None);
                    }
                },
            }
        }
        assert(folded_right(folded@, want_lower@, table, k as nat, j + 1)) by {
            assert forall|t: Seq<char>|
                {
                    &&& #[trigger] folded@.contains_key(t) == (want_lower@.contains(t)
                        && only_so_far(table, t, k as nat, j + 1) is Some)
                    &&& folded@.contains_key(t) ==> Some(folded@[t]) == only_so_far(
                        table,
                        t,
                        k as nat,
                        j + 1,
                    )
                } by {
                lemma_seen_step(av, j as int, t);
                lemma_only(table, t, k as nat);
                assert(f0.contains_key(t) == (want_lower@.contains(t) && only_so_far(
                    table,
                    t,
                    k as nat,
                    j as int,
                ) is Some));
            }
        }
        j += 1;
    }
}

fn wanted_sets(wanted: &Vec<String>) -> (r: (StringHashSet, StringHashSet))
    ensures
        forall|i: int| 0 <= i < wanted@.len() ==> r.0@.contains((#[trigger] wanted@[i])@),
        forall|i: int| 0 <= i < wanted@.len() ==> r.1@.contains(lowercase((#[trigger] wanted@[i])@)),
{
    let mut a: StringHashSet = StringHashSet::new();
    let mut b: StringHashSet = StringHashSet::new();
    let mut i: usize = 0;
    while i < wanted.len()
        invariant
            i <= wanted.len(),
            forall|k: int| 0 <= k < i ==> a@.contains((#[trigger] wanted@[k])@),
            forall|k: int| 0 <= k < i ==> b@.contains(lowercase((#[trigger] wanted@[k])@)),
        decreases wanted.len() - i,
    {
        let _x: bool = a.insert(wanted[i].clone());
        let _y: bool = b.insert(to_lower(wanted[i].as_str()));
        i += 1;
    }
    (a, b)
}

proof fn lemma_signal_done(table: Seq<SignalView>, k: nat, t: Seq<char>)
    requires
        k < table.len() <= usize::MAX,
    ensures
        first_so_far(table, t, k, table[k as int].aliases.len() as int) == first_with_path(
            table,
            t,
            k + 1,
        ),
        only_so_far(table, t, k, table[k as int].aliases.len() as int) == only_with_path(
            table,
            t,
            k + 1,
        ),
{
    let a = table[k as int].aliases;
    assert(a.take(a.len() as int) =~= a);
    if has_path_ci(table[k as int], t) {
        let i = choose|i: int| 0 <= i < a.len() && lowercase(#[trigger] a[i]) == t;
        assert(lowercase(a[i]) == t);
    }
}

proof fn lemma_signal_fresh(table: Seq<SignalView>, k: nat, t: Seq<char>)
    ensures
        first_so_far(table, t, k, 0) == first_with_path(table, t, k),
        only_so_far(table, t, k, 0) == only_with_path(table, t, k),
{
    assert(table[k as int].aliases.take(0).len() == 0);
}

/// The signal that each of the wanted names means, in one pass over the
/// table.
pub fn endpoint_index(table: &Vec<SignalInfo>, wanted: &Vec<String>) -> (r: Vec<Option<Sid>>)
    ensures
        r@.len() == wanted@.len(),
        forall|i: int|
            0 <= i < wanted@.len() ==> #[trigger] r@[i] == endpoint_of(
                signal_views(table@),
                wanted@[i]@,
            ),
        forall|i: int|
            0 <= i < wanted@.len() ==> (#[trigger] r@[i] matches Some(s) ==> s < table@.len()),
{
    let ghost tab = signal_views(table@);
    let count: usize = table.len();
    let (want, want_lower) = wanted_sets(wanted);
    let mut exact: StringHashMap<usize> = StringHashMap::new();
    let mut folded: StringHashMap<Option<usize>> = StringHashMap::new();
    let mut k: usize = 0;
    assert(tab.len() == count);
    while k < count
        invariant
            k <= count,
            count == table@.len(),
            tab == signal_views(table@),
            tab.len() == count,
            forall|t: Seq<char>|
                {
                    &&& #[trigger] exact@.contains_key(t) == (want@.contains(t) && first_with_path(
                        tab,
                        t,
                        k as nat,
                    ) is Some)
                    &&& exact@.contains_key(t) ==> Some(exact@[t]) == first_with_path(
                        tab,
                        t,
                        k as nat,
                    )
                },
            forall|t: Seq<char>|
                {
                    &&& #[trigger] folded@.contains_key(t) == (want_lower@.contains(t)
                        && only_with_path(tab, t, k as nat) is Some)
                    &&& folded@.contains_key(t) ==> Some(folded@[t]) == only_with_path(
                        tab,
                        t,
                        k as nat,
                    )
                },
        decreases count - k,
    {
        proof {
            assert(tab[k as int] == table@[k as int]@);
            assert forall|t: Seq<char>| #[trigger]
                first_so_far(tab, t, k as nat, 0) == first_with_path(tab, t, k as nat) by {
                lemma_signal_fresh(tab, k as nat, t);
            }
            assert forall|t: Seq<char>| #[trigger]
                only_so_far(tab, t, k as nat, 0) == only_with_path(tab, t, k as nat) by {
                lemma_signal_fresh(tab, k as nat, t);
            }
        }
        index_signal(&mut exact, &mut folded, &want, &want_lower, &table[k], k, Ghost(tab));
        proof {
            let n = tab[k as int].aliases.len() as int;
            assert forall|t: Seq<char>|
                {
                    &&& #[trigger] exact@.contains_key(t) == (want@.contains(t) && first_with_path(
                        tab,
                        t,
                        (k + 1) as nat,
                    ) is Some)
                    &&& exact@.contains_key(t) ==> Some(exact@[t]) == first_with_path(
                        tab,
                        t,
                        (k + 1) as nat,
                    )
                } by {
                lemma_signal_done(tab, k as nat, t);
            }
            assert forall|t: Seq<char>|
                {
                    &&& #[trigger] folded@.contains_key(t) == (want_lower@.contains(t)
                        && only_with_path(tab, t, (k + 1) as nat) is Some)
                    &&& folded@.contains_key(t) ==> Some(folded@[t]) == only_with_path(
                        tab,
                        t,
                        (k + 1) as nat,
                    )
                } by {
                lemma_signal_done(tab, k as nat, t);
            }
        }
        k += 1;
    }
    let mut r: Vec<Option<Sid>> = Vec::new();
    let mut i: usize = 0;
    while i < wanted.len()
        invariant
            i <= wanted.len(),
            count == table@.len(),
            tab == signal_views(table@),
            tab.len() == count,
            forall|k: int| 0 <= k < wanted@.len() ==> want@.contains((#[trigger] wanted@[k])@),
            forall|k: int|
                0 <= k < wanted@.len() ==> want_lower@.contains(
                    lowercase((#[trigger] wanted@[k])@),
                ),
            forall|t: Seq<char>|
                {
                    &&& #[trigger] exact@.contains_key(t) == (want@.contains(t) && first_with_path(
                        tab,
                        t,
                        tab.len(),
                    ) is Some)
                    &&& exact@.contains_key(t) ==> Some(exact@[t]) == first_with_path(
                        tab,
                        t,
                        tab.len(),
                    )
                },
            forall|t: Seq<char>|
                {
                    &&& #[trigger] folded@.contains_key(t) == (want_lower@.contains(t)
                        && only_with_path(tab, t, tab.len()) is Some)
                    &&& folded@.contains_key(t) ==> Some(folded@[t]) == only_with_path(
                        tab,
                        t,
                        tab.len(),
                    )
                },
            r@.len() == i,
            forall|m: int| 0 <= m < i ==> #[trigger] r@[m] == endpoint_of(tab, wanted@[m]@),
            forall|m: int| 0 <= m < i ==> (#[trigger] r@[m] matches Some(s) ==> s < count),
        decreases wanted.len() - i,
    {
        let name: &str = wanted[i].as_str();
        let found: Option<Sid> = match exact.get(name) {
            Some(s) => Some(*s),
            None => {
                let lower: String = to_lower(name);
                match folded.get(lower.as_str()) {
                    Some(v) => *v,
                    None => None,
                }
            },
        };
        proof {
            assert(want@.contains(wanted@[i as int]@));
            assert(want_lower@.contains(lowercase(wanted@[i as int]@)));
            endpoint_has_name(tab, name@);
        }
        r.push(found);
        i += 1;
    }
    r
}

} // verus!
