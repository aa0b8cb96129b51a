//! The scope hierarchy of a design, as far as its signals show it.

use vstd::prelude::*;

use vstd::hash_map::StringHashMap;

use crate::filter::is_separator;
use crate::model::{non_empty, scopes_in};
use crate::order::{increasing, sorted_distinct, sorted_set, sorted_set_is_sorted};
use crate::replay::least;
use crate::resolve::{numbers_in_range, numbers_where};
use crate::signal::{signal_views, SignalInfo, SignalView};
use crate::text::{chars_of, opt_view, string_of, views};

verus! {

/// The parts of `s` before a separator among its first `n` characters; a
/// separator at the very front is no such place.
pub open spec fn cuts(s: Seq<char>, n: int) -> Seq<Seq<char>>
    decreases n,
{
    if n <= 1 {
        Seq::empty()
    } else if is_separator(s[n - 1]) {
        cuts(s, n - 1).push(s.take(n - 1))
    } else {
        cuts(s, n - 1)
    }
}

/// The scopes above a scope, outermost first, and then the scope itself.
pub open spec fn lineage(scope: Seq<char>) -> Seq<Seq<char>> {
    cuts(scope, scope.len() as int).push(scope)
}

/// The position of the last separator, or -1.
pub open spec fn last_separator(s: Seq<char>) -> int
    decreases s.len(),
{
    if s.len() == 0 {
        -1
    } else if is_separator(s.last()) {
        s.len() - 1
    } else {
        last_separator(s.drop_last())
    }
}

/// The name of a scope within the one above it.
pub open spec fn own_name(path: Seq<char>) -> Seq<char> {
    path.skip(last_separator(path) + 1)
}

/// The scope above a scope, if there is one.
pub open spec fn enclosing(path: Seq<char>) -> Option<Seq<char>> {
    let p = last_separator(path);
    if p <= 0 {
        None
    } else {
        Some(path.take(p))
    }
}

/// The last separator is one, and no other follows it.
pub proof fn lemma_last_separator(s: Seq<char>)
    ensures
        -1 <= last_separator(s) < s.len(),
        last_separator(s) >= 0 ==> is_separator(s[last_separator(s)]),
        forall|i: int| last_separator(s) < i < s.len() ==> !is_separator(#[trigger] s[i]),
    decreases s.len(),
{
    if s.len() > 0 && !is_separator(s.last()) {
        lemma_last_separator(s.drop_last());
        assert forall|i: int| last_separator(s) < i < s.len() implies !is_separator(
            #[trigger] s[i],
        ) by {
            if i < s.len() - 1 {
                assert(s.drop_last()[i] == s[i]);
            }
        }
    }
}

proof fn lemma_cuts_are_cuts(s: Seq<char>, n: int, k: int)
    requires
        1 <= k < n <= s.len(),
        is_separator(s[k]),
    ensures
        cuts(s, n).contains(s.take(k)),
    decreases n,
{
    let all = cuts(s, n);
    if k == n - 1 {
        assert(all[all.len() - 1] == s.take(k));
    } else {
        lemma_cuts_are_cuts(s, n - 1, k);
        let less = cuts(s, n - 1);
        let i = choose|i: int| 0 <= i < less.len() && less[i] == s.take(k);
        assert(all[i] == s.take(k));
    }
}

proof fn lemma_cut_is_prefix(s: Seq<char>, n: int, i: int)
    requires
        0 <= i < cuts(s, n).len(),
        n <= s.len(),
    ensures
        exists|k: int| 1 <= k < n && is_separator(s[k]) && cuts(s, n)[i] == #[trigger] s.take(k),
    decreases n,
{
    if is_separator(s[n - 1]) && i == cuts(s, n).len() - 1 {
        assert(cuts(s, n)[i] == s.take(n - 1));
    } else {
        lemma_cut_is_prefix(s, n - 1, i);
    }
}

/// The scope above one in a lineage is in the lineage too.
pub proof fn lineage_is_closed(scope: Seq<char>, p: Seq<char>)
    requires
        lineage(scope).contains(p),
        enclosing(p) is Some,
    ensures
        lineage(scope).contains(enclosing(p)->0),
{
    let all = lineage(scope);
    let n = scope.len() as int;
    let i = choose|i: int| 0 <= i < all.len() && all[i] == p;
    lemma_last_separator(p);
    let c = last_separator(p);
    let k = if i == all.len() - 1 {
        n
    } else {
        assert(cuts(scope, n)[i] == p);
        lemma_cut_is_prefix(scope, n, i);
        choose|k: int| 1 <= k < n && cuts(scope, n)[i] == #[trigger] scope.take(k)
    };
    assert(p =~= scope.take(k));
    assert(scope[c] == p[c]);
    assert(p.take(c) =~= scope.take(c));
    lemma_cuts_are_cuts(scope, n, c);
    let j = choose|j: int| 0 <= j < cuts(scope, n).len() && cuts(scope, n)[j] == scope.take(c);
    assert(all[j] == scope.take(c));
}

fn separator(c: char) -> (r: bool)
    ensures
        r == is_separator(c),
{
    c == '.' || c == '/'
}

/// The scopes above a scope, outermost first, and then the scope itself.
pub fn prefixes(scope: &str) -> (r: Vec<String>)
    ensures
        views(r@) == lineage(scope@),
        r.len() == lineage(scope@).len(),
{
    let v: Vec<char> = chars_of(scope);
    let n: usize = v.len();
    let mut r: Vec<String> = Vec::new();
    let mut i: usize = 1;
    assert(views(r@) =~= cuts(scope@, 1));
    while i < n
        invariant
            1 <= i,
            i <= n || n == 0,
            n == 0 ==> i == 1,
            n == v@.len(),
            v@ == scope@,
            views(r@) == cuts(scope@, i as int),
        decreases n - i,
    {
        if separator(v[i]) {
            let ghost r0 = views(r@);
            let part: String = string_of(&v, 0, i);
            assert(part@ =~= scope@.take(i as int));
            r.push(part);
            assert(views(r@) =~= r0.push(scope@.take(i as int)));
        }
        i += 1;
    }
    assert(cuts(scope@, n as int) =~= views(r@));
    let ghost r0 = views(r@);
    r.push(scope.to_owned());
    assert(views(r@) =~= r0.push(scope@));
    assert(views(r@).len() == r@.len());
    r
}

fn find_last_separator(v: &Vec<char>) -> (r: Option<usize>)
    ensures
        match r {
            Some(i) => i == last_separator(v@) && i < v@.len(),
            None => last_separator(v@) == -1,
        },
{
    let mut n: usize = v.len();
    assert(v@.take(n as int) =~= v@);
    while n > 0
        invariant
            n <= v@.len(),
            last_separator(v@) == last_separator(v@.take(n as int)),
        decreases n,
    {
        assert(v@.take(n as int).drop_last() =~= v@.take(n - 1));
        if separator(v[n - 1]) {
            return Some(n - 1);
        }
        n -= 1;
    }
    None
}

/// The name of a scope within the one above it.
pub fn last_segment(path: &str) -> (r: String)
    ensures
        r@ == own_name(path@),
{
    let v: Vec<char> = chars_of(path);
    let n: usize = v.len();
    match find_last_separator(&v) {
        Some(i) => {
            let r: String = string_of(&v, i + 1, n);
            assert(r@ =~= path@.skip(i + 1));
            r
        },
        None => {
            assert(path@.skip(0) =~= path@);
            path.to_owned()
        },
    }
}

/// The scope above a scope, if there is one.
pub fn parent_of(path: &str) -> (r: Option<String>)
    ensures
        opt_view(r) == enclosing(path@),
{
    let v: Vec<char> = chars_of(path);
    match find_last_separator(&v) {
        Some(i) => {
            if i == 0 {
                return None;
            }
            let r: String = string_of(&v, 0, i);
            assert(r@ =~= path@.take(i as int));
            Some(r)
        },
        None => None,
    }
}

/// The lineages of several scopes one after another.
pub open spec fn lineages(scopes: Seq<Seq<char>>) -> Seq<Seq<char>>
    decreases scopes.len(),
{
    if scopes.len() == 0 {
        Seq::empty()
    } else {
        lineages(scopes.drop_last()) + lineage(scopes.last())
    }
}

/// Every scope that holds a signal and every scope above one, in string
/// order.
pub open spec fn all_scopes(table: Seq<SignalView>) -> Seq<Seq<char>> {
    sorted_set(lineages(sorted_set(scopes_in(table))))
}

pub open spec fn times_in(v: Seq<Seq<char>>, t: Seq<char>) -> nat
    decreases v.len(),
{
    if v.len() == 0 {
        0
    } else {
        times_in(v.drop_last(), t) + (if v.last() == t {
            1nat
        } else {
            0nat
        })
    }
}

/// How many paths lie directly in a scope.
pub open spec fn paths_in_scope(table: Seq<SignalView>, scope: Seq<char>) -> nat
    decreases table.len(),
{
    if table.len() == 0 {
        0
    } else {
        paths_in_scope(table.drop_last(), scope) + times_in(table.last().scopes, scope)
    }
}

/// A count as far as a machine integer goes.
pub open spec fn capped(n: nat) -> nat {
    least(n as int, usize::MAX as int) as nat
}

/// The scopes directly below `p`, as positions.
pub open spec fn below(scopes: Seq<Seq<char>>, p: Seq<char>) -> Seq<usize> {
    numbers_where(scopes.len(), |k: int| enclosing(scopes[k]) == Some(p))
}

/// The scopes that no other is above, as positions.
pub open spec fn outermost(scopes: Seq<Seq<char>>) -> Seq<usize> {
    numbers_where(scopes.len(), |k: int| enclosing(scopes[k]) is None)
}

/// The scopes of a design with what lies directly in each.
pub struct Index {
    paths: Vec<String>,
    counts: Vec<usize>,
    children: Vec<Vec<usize>>,
    tops: Vec<usize>,
    root_signals: usize,
    places: StringHashMap<usize>,
    table: Ghost<Seq<SignalView>>,
}

impl View for Index {
    type V = Seq<SignalView>;

    /// The signal table that is indexed.
    closed spec fn view(&self) -> Seq<SignalView> {
        self.table@
    }
}

/// Does `m` lead from each text to its position?
pub open spec fn leads(m: Map<Seq<char>, usize>, v: Seq<Seq<char>>) -> bool {
    &&& forall|i: int| 0 <= i < v.len() ==> m.contains_key(#[trigger] v[i]) && m[v[i]] == i
    &&& forall|t: Seq<char>| #[trigger]
        m.contains_key(t) ==> m[t] < v.len() && v[m[t] as int] == t
}

/// A node of the hierarchy.
pub struct Node {
    pub path: String,
    pub name: String,
    pub level: usize,
    /// The paths directly in the scope.
    pub signals: usize,
    pub children: usize,
}

pub struct NodeView {
    pub path: Seq<char>,
    pub name: Seq<char>,
    pub level: nat,
    pub signals: nat,
    pub children: nat,
}

impl View for Node {
    type V = NodeView;

    open spec fn view(&self) -> NodeView {
        NodeView {
            path: self.path@,
            name: self.name@,
            level: self.level as nat,
            signals: self.signals as nat,
            children: self.children as nat,
        }
    }
}

pub open spec fn node_views(v: Seq<Node>) -> Seq<NodeView> {
    v.map_values(|n: Node| n@)
}

/// The node of a scope.
pub open spec fn node_of(table: Seq<SignalView>, p: Seq<char>, level: nat) -> NodeView {
    let known = all_scopes(table).contains(p);
    NodeView {
        path: p,
        name: own_name(p),
        level,
        signals: if known {
            capped(paths_in_scope(table, p))
        } else {
            0
        },
        children: if known {
            below(all_scopes(table), p).len()
        } else {
            0
        },
    }
}

/// A scope with what is below it, down to level `deepest`; each scope comes
/// before those below it.
pub open spec fn walked(table: Seq<SignalView>, pos: usize, level: nat, deepest: nat) -> Seq<NodeView>
    decreases deepest + 1 - level, 0int,
{
    let p = all_scopes(table)[pos as int];
    seq![node_of(table, p, level)] + (if level >= deepest {
        Seq::empty()
    } else {
        walked_all(table, below(all_scopes(table), p), level + 1, deepest)
    })
}

pub open spec fn walked_all(
    table: Seq<SignalView>,
    positions: Seq<usize>,
    level: nat,
    deepest: nat,
) -> Seq<NodeView>
    decreases deepest + 1 - level, positions.len() + 1,
{
    if positions.len() == 0 {
        Seq::empty()
    } else {
        walked_all(table, positions.drop_last(), level, deepest) + walked(
            table,
            positions.last(),
            level,
            deepest,
        )
    }
}

fn add_capped(n: usize) -> (r: usize)
    ensures
        r == capped(n as nat + 1),
{
    if n < usize::MAX {
        n + 1
    } else {
        n
    }
}

fn collect_lineages(scopes: &Vec<String>) -> (r: Vec<String>)
    ensures
        views(r@) == lineages(views(scopes@)),
{
    let ghost sv = views(scopes@);
    let mut r: Vec<String> = Vec::new();
    let mut i: usize = 0;
    assert(sv.take(0) =~= Seq::empty());
    assert(views(r@) =~= Seq::empty());
    while i < scopes.len()
        invariant
            i <= scopes.len(),
            sv == views(scopes@),
            views(r@) == lineages(sv.take(i as int)),
        decreases scopes.len() - i,
    {
        let mut more: Vec<String> = prefixes(scopes[i].as_str());
        let ghost r0 = r@;
        let ghost m0 = more@;
        proof {
            assert(sv.take(i + 1).drop_last() =~= sv.take(i as int));
            assert(sv.take(i + 1).last() == scopes@[i as int]@);
        }
        r.append(&mut more);
        assert(views(r@) =~= views(r0) + views(m0));
        i += 1;
    }
    assert(sv.take(i as int) =~= sv);
    r
}

/// Does no text occur twice?
pub open spec fn different(v: Seq<Seq<char>>) -> bool {
    forall|i: int, j: int| 0 <= i < j < v.len() ==> #[trigger] v[i] != #[trigger] v[j]
}

/// The position of each text.
pub fn place_paths(paths: &Vec<String>) -> (m: StringHashMap<usize>)
    requires
        different(views(paths@)),
    ensures
        leads(m@, views(paths@)),
{
    let ghost pv = views(paths@);
    let mut m: StringHashMap<usize> = StringHashMap::new();
    let mut i: usize = 0;
    while i < paths.len()
        invariant
            i <= paths.len(),
            pv == views(paths@),
            different(pv),
            forall|k: int| 0 <= k < i ==> m@.contains_key(#[trigger] pv[k]) && m@[pv[k]] == k,
            forall|t: Seq<char>| #[trigger]
                m@.contains_key(t) ==> m@[t] < i && pv[m@[t] as int] == t,
        decreases paths.len() - i,
    {
        assert(pv[i as int] == paths@[i as int]@);
        let ghost m0 = m@;
        m.insert(paths[i].clone(), i);
        proof {
            assert(m@ == m0.insert(pv[i as int], i));
            assert forall|k: int| 0 <= k < i + 1 implies m@.contains_key(#[trigger] pv[k])
                && m@[pv[k]] == k by {
                if k < i {
                    assert(pv[k] != pv[i as int]);
                }
            }
        }
        i += 1;
    }
    m
}

fn zeros(n: usize) -> (r: Vec<usize>)
    ensures
        r@.len() == n,
        forall|i: int| 0 <= i < n ==> #[trigger] r@[i] == 0,
{
    let mut r: Vec<usize> = Vec::new();
    while r.len() < n
        invariant
            r.len() <= n,
            forall|i: int| 0 <= i < r.len() ==> #[trigger] r@[i] == 0,
        decreases n - r.len(),
    {
        r.push(0);
    }
    r
}

/// Count the paths of one signal by scope.
fn count_signal(
    counts: &mut Vec<usize>,
    root: &mut usize,
    places: &StringHashMap<usize>,
    info: &SignalInfo,
    Ghost(pv): Ghost<Seq<Seq<char>>>,
    Ghost(before): Ghost<Seq<SignalView>>,
)
    requires
        leads(places@, pv),
        old(counts)@.len() == pv.len(),
        forall|i: int|
            0 <= i < pv.len() && pv[i].len() > 0 ==> #[trigger] old(counts)@[i] == capped(
                paths_in_scope(before, pv[i]),
            ),
        *old(root) == capped(paths_in_scope(before, Seq::empty())),
    ensures
        final(counts)@.len() == pv.len(),
        forall|i: int|
            0 <= i < pv.len() && pv[i].len() > 0 ==> #[trigger] final(counts)@[i] == capped(
                paths_in_scope(before.push(info@), pv[i]),
            ),
        *final(root) == capped(paths_in_scope(before.push(info@), Seq::empty())),
{
    let ghost sv = views(info.alias_scopes@);
    let mut j: usize = 0;
    assert(sv.take(0) =~= Seq::empty());
    while j < info.alias_scopes.len()
        invariant
            j <= info.alias_scopes.len(),
            sv == views(info.alias_scopes@),
            leads(places@, pv),
            counts@.len() == pv.len(),
            forall|i: int|
                0 <= i < pv.len() && pv[i].len() > 0 ==> #[trigger] counts@[i] == capped(
                    paths_in_scope(before, pv[i]) + times_in(sv.take(j as int), pv[i]),
                ),
            *root == capped(
                paths_in_scope(before, Seq::empty()) + times_in(sv.take(j as int), Seq::empty()),
            ),
        decreases info.alias_scopes.len() - j,
    {
        let scope: &str = info.alias_scopes[j].as_str();
        let ghost c0 = counts@;
        proof {
            assert(sv.take(j + 1).drop_last() =~= sv.take(j as int));
            assert(sv.take(j + 1).last() == scope@);
        }
        if scope.is_empty() {
            assert(scope@ =~= Seq::empty());
            *root = add_capped(*root);
            assert forall|i: int| 0 <= i < pv.len() && pv[i].len() > 0 implies
                #[trigger] counts@[i] == capped(
                paths_in_scope(before, pv[i]) + times_in(sv.take(j + 1), pv[i]),
            ) by {}
        } else {
            assert(scope@ != Seq::<char>::empty());
            match places.get(scope) {
                Some(at) => {
                    let p: usize = *at;
                    let n: usize = add_capped(counts[p]);
                    counts.set(p, n);
                    assert forall|i: int| 0 <= i < pv.len() && pv[i].len() > 0 implies
                        #[trigger] counts@[i] == capped(
                        paths_in_scope(before, pv[i]) + times_in(sv.take(j + 1), pv[i]),
                    ) by {
                        if i != p {
                            assert(counts@[i] == c0[i]);
                            if pv[i] == scope@ {
                                assert(places@[pv[i]] == i);
                            }
                        }
                    }
                },
                None => {
                    assert forall|i: int| 0 <= i < pv.len() && pv[i].len() > 0 implies
                        #[trigger] counts@[i] == capped(
                        paths_in_scope(before, pv[i]) + times_in(sv.take(j + 1), pv[i]),
                    ) by {
                        assert(places@.contains_key(pv[i]));
                        assert(pv[i] != scope@);
                    }
                },
            }
        }
        j += 1;
    }
    proof {
        assert(sv.take(j as int) =~= sv);
        assert(before.push(info@).drop_last() =~= before);
        assert(before.push(info@).last().scopes == sv);
    }
}

fn empty_lists(n: usize) -> (r: Vec<Vec<usize>>)
    ensures
        r@.len() == n,
        forall|i: int| 0 <= i < n ==> (#[trigger] r@[i])@ == Seq::<usize>::empty(),
{
    let mut r: Vec<Vec<usize>> = Vec::new();
    while r.len() < n
        invariant
            r.len() <= n,
            forall|i: int| 0 <= i < r.len() ==> (#[trigger] r@[i])@ == Seq::<usize>::empty(),
        decreases n - r.len(),
    {
        let one: Vec<usize> = Vec::new();
        assert(one@ =~= Seq::empty());
        r.push(one);
    }
    r
}

spec fn below_upto(scopes: Seq<Seq<char>>, n: nat, p: Seq<char>) -> Seq<usize> {
    numbers_where(n, |k: int| enclosing(scopes[k]) == Some(p))
}

spec fn outermost_upto(scopes: Seq<Seq<char>>, n: nat) -> Seq<usize> {
    numbers_where(n, |k: int| enclosing(scopes[k]) is None)
}

fn link_scopes(paths: &Vec<String>, places: &StringHashMap<usize>) -> (r: (
    Vec<Vec<usize>>,
    Vec<usize>,
))
    requires
        leads(places@, views(paths@)),
    ensures
        r.0@.len() == paths@.len(),
        forall|i: int|
            0 <= i < paths@.len() ==> (#[trigger] r.0@[i])@ == below(
                views(paths@),
                views(paths@)[i],
            ),
        r.1@ == outermost(views(paths@)),
{
    let ghost pv = views(paths@);
    let n: usize = paths.len();
    let mut children: Vec<Vec<usize>> = empty_lists(n);
    let mut tops: Vec<usize> = Vec::new();
    let mut k: usize = 0;
    assert(tops@ =~= outermost_upto(pv, 0));
    while k < n
        invariant
            k <= n == paths@.len(),
            pv == views(paths@),
            leads(places@, pv),
            children@.len() == n,
            forall|i: int|
                0 <= i < n ==> (#[trigger] children@[i])@ == below_upto(pv, k as nat, pv[i]),
            tops@ == outermost_upto(pv, k as nat),
        decreases n - k,
    {
        assert(pv[k as int] == paths@[k as int]@);
        let ghost c0 = children@;
        match parent_of(paths[k].as_str()) {
            Some(p) => {
                match places.get(p.as_str()) {
                    Some(at) => {
                        let i: usize = *at;
                        children[i].push(k);
                        assert forall|m: int| 0 <= m < n implies (#[trigger] children@[m])@
                            == below_upto(pv, (k + 1) as nat, pv[m]) by {
                            if m == i {
                                assert(children@[m]@ == c0[m]@.push(k));
                            } else {
                                assert(children@[m] == c0[m]);
                                if pv[m] == p@ {
                                    assert(places@[pv[m]] == m);
                                }
                            }
                        }
                    },
                    None => {
                        assert forall|m: int| 0 <= m < n implies (#[trigger] children@[m])@
                            == below_upto(pv, (k + 1) as nat, pv[m]) by {
                            assert(places@.contains_key(pv[m]));
                            assert(pv[m] != p@);
                        }
                    },
                }
            },
            None => {
                tops.push(k);
            },
        }
        k += 1;
    }
    (children, tops)
}

impl Index {
    #[verifier::type_invariant]
    spec fn right(self) -> bool {
        let pv = views(self.paths@);
        let table = self.table@;
        &&& pv == all_scopes(table)
        &&& self.counts@.len() == pv.len()
        &&& forall|i: int|
            0 <= i < pv.len() ==> #[trigger] self.counts@[i] == capped(paths_in_scope(table, pv[i]))
        &&& self.children@.len() == pv.len()
        &&& forall|i: int| 0 <= i < pv.len() ==> (#[trigger] self.children@[i])@ == below(pv, pv[i])
        &&& self.tops@ == outermost(pv)
        &&& self.root_signals == capped(paths_in_scope(table, Seq::empty()))
        &&& leads(self.places@, pv)
    }

    /// Index the scopes of a signal table; `scopes` are those that hold
    /// signals, in string order.
    pub fn build(table: &Vec<SignalInfo>, scopes: &Vec<String>) -> (r: Index)
        requires
            views(scopes@) == sorted_set(scopes_in(signal_views(table@))),
            forall|t: Seq<char>|
                #[trigger] views(scopes@).contains(t) == scopes_in(signal_views(table@)).contains(t),
        ensures
            r@ == signal_views(table@),
    {
        let ghost tab = signal_views(table@);
        let found: Vec<String> = collect_lineages(scopes);
        let paths: Vec<String> = sorted_distinct(&found);
        let ghost pv = views(paths@);
        assert(different(pv)) by {
            assert(increasing(pv));
        }
        let places: StringHashMap<usize> = place_paths(&paths);
        let mut counts: Vec<usize> = zeros(paths.len());
        let mut root_signals: usize = 0;
        let mut i: usize = 0;
        proof {
            assert(tab.take(0) =~= Seq::empty());
            assert(pv.len() == paths@.len());
        }
        while i < table.len()
            invariant
                i <= table.len(),
                tab == signal_views(table@),
                leads(places@, pv),
                counts@.len() == pv.len(),
                forall|k: int|
                    0 <= k < pv.len() && pv[k].len() > 0 ==> #[trigger] counts@[k] == capped(
                        paths_in_scope(tab.take(i as int), pv[k]),
                    ),
                root_signals == capped(paths_in_scope(tab.take(i as int), Seq::empty())),
            decreases table.len() - i,
        {
            let info: &SignalInfo = &table[i];
            proof {
                assert(tab[i as int] == info@);
                assert(tab.take(i as int).push(info@) =~= tab.take(i + 1));
            }
            count_signal(
                &mut counts,
                &mut root_signals,
                &places,
                info,
                Ghost(pv),
                Ghost(tab.take(i as int)),
            );
            i += 1;
        }
        assert(tab.take(i as int) =~= tab);
        let (children, tops) = link_scopes(&paths, &places);
        proof {
            assert forall|k: int| 0 <= k < pv.len() implies (#[trigger] pv[k]).len() > 0 by {
                assert(pv.contains(pv[k]));
                assert(views(found@).contains(pv[k]));
                lemma_scopes_not_empty(tab);
                lemma_lineages_not_empty(views(scopes@), pv[k]);
            }
        }
        Index { paths, counts, children, tops, root_signals, places, table: Ghost(tab) }
    }

    /// The number of paths outside any scope.
    pub fn root_signals(&self) -> (n: usize)
        ensures
            n == capped(paths_in_scope(self@, Seq::empty())),
    {
        proof {
            use_type_invariant(self);
        }
        self.root_signals
    }

    /// The scopes, in string order.
    pub fn scopes(&self) -> (v: &Vec<String>)
        ensures
            views(v@) == all_scopes(self@),
    {
        proof {
            use_type_invariant(self);
        }
        &self.paths
    }

    /// The scopes that no other is above.
    pub fn tops(&self) -> (v: &Vec<usize>)
        ensures
            v@ == outermost(all_scopes(self@)),
            forall|i: int| 0 <= i < v@.len() ==> (#[trigger] v@[i]) < all_scopes(self@).len(),
    {
        let count: usize = self.paths.len();
        proof {
            use_type_invariant(self);
            assert(all_scopes(self@).len() == count);
            numbers_in_range(
                all_scopes(self@).len(),
                |k: int| enclosing(all_scopes(self@)[k]) is None,
            );
        }
        &self.tops
    }

    /// The node of a scope.
    pub fn node(&self, path: &str, level: usize) -> (n: Node)
        ensures
            n@ == node_of(self@, path@, level as nat),
    {
        proof {
            use_type_invariant(self);
        }
        let ghost pv = views(self.paths@);
        let mut signals: usize = 0;
        let mut children: usize = 0;
        match self.places.get(path) {
            Some(at) => {
                let p: usize = *at;
                signals = self.counts[p];
                children = self.children[p].len();
                assert(pv[p as int] == path@);
                assert(pv.contains(path@));
            },
            None => {
                assert(!pv.contains(path@)) by {
                    if pv.contains(path@) {
                        let i = choose|i: int| 0 <= i < pv.len() && pv[i] == path@;
                        assert(self.places@.contains_key(pv[i]));
                    }
                }
            },
        }
        Node { path: path.to_owned(), name: last_segment(path), level, signals, children }
    }

    /// Append a scope and what is below it, down to level `deepest`.
    pub fn walk(&self, pos: usize, level: usize, deepest: usize, out: &mut Vec<Node>)
        requires
            pos < all_scopes(self@).len(),
            level <= deepest,
        ensures
            node_views(final(out)@) == node_views(old(out)@) + walked(
                self@,
                pos,
                level as nat,
                deepest as nat,
            ),
        decreases deepest - level,
    {
        proof {
            use_type_invariant(self);
        }
        let ghost pv = views(self.paths@);
        let ghost tab = self@;
        let ghost p = pv[pos as int];
        let ghost o0 = node_views(out@);
        let n: Node = self.node(self.paths[pos].as_str(), level);
        let ghost nv = n@;
        out.push(n);
        assert(node_views(out@) =~= o0 + seq![nv]);
        if level >= deepest {
            assert(node_views(out@) =~= o0 + walked(tab, pos, level as nat, deepest as nat));
            return;
        }
        let list: &Vec<usize> = &self.children[pos];
        let count: usize = self.paths.len();
        let ghost o1 = node_views(out@);
        proof {
            assert(pv.len() == count);
            numbers_in_range(pv.len(), |k: int| enclosing(pv[k]) == Some(p));
            assert(list@ == below(pv, p));
            assert(list@.take(0) =~= Seq::empty());
            assert(o1 + walked_all(tab, list@.take(0), (level + 1) as nat, deepest as nat) =~= o1);
        }
        let mut i: usize = 0;
        while i < list.len()
            invariant
                i <= list.len(),
                level < deepest,
                tab == self@,
                forall|k: int|
                    0 <= k < list@.len() ==> (#[trigger] list@[k]) < all_scopes(tab).len(),
                node_views(out@) == o1 + walked_all(
                    tab,
                    list@.take(i as int),
                    (level + 1) as nat,
                    deepest as nat,
                ),
            decreases list.len() - i,
        {
            proof {
                assert(list@.take(i + 1).drop_last() =~= list@.take(i as int));
                assert(list@.take(i + 1).last() == list@[i as int]);
                assert(list@[i as int] < all_scopes(tab).len());
            }
            let ghost o2 = node_views(out@);
            self.walk(list[i], level + 1, deepest, out);
            assert(node_views(out@) =~= o1 + walked_all(
                tab,
                list@.take(i + 1),
                (level + 1) as nat,
                deepest as nat,
            ));
            i += 1;
        }
        proof {
            assert(list@.take(i as int) =~= list@);
            assert(node_views(out@) =~= o0 + walked(tab, pos, level as nat, deepest as nat));
        }
    }
}

proof fn lemma_non_empty(v: Seq<Seq<char>>)
    ensures
        forall|t: Seq<char>| non_empty(v).contains(t) ==> t.len() > 0,
    decreases v.len(),
{
    if v.len() > 0 {
        lemma_non_empty(v.drop_last());
        assert forall|t: Seq<char>| non_empty(v).contains(t) implies t.len() > 0 by {
            let i = choose|i: int| 0 <= i < non_empty(v).len() && non_empty(v)[i] == t;
            if i < non_empty(v.drop_last()).len() {
                assert(non_empty(v.drop_last())[i] == t);
                assert(non_empty(v.drop_last()).contains(t));
            }
        }
    }
}

proof fn lemma_scopes_not_empty(tab: Seq<SignalView>)
    ensures
        forall|t: Seq<char>| #[trigger] scopes_in(tab).contains(t) ==> t.len() > 0,
    decreases tab.len(),
{
    if tab.len() > 0 {
        lemma_scopes_not_empty(tab.drop_last());
        lemma_non_empty(tab.last().scopes);
        let a = scopes_in(tab.drop_last());
        let b = non_empty(tab.last().scopes);
        assert forall|t: Seq<char>| #[trigger] scopes_in(tab).contains(t) implies t.len() > 0 by {
            let i = choose|i: int| 0 <= i < scopes_in(tab).len() && scopes_in(tab)[i] == t;
            if i < a.len() {
                assert(a[i] == t);
                assert(a.contains(t));
            } else {
                assert(b[i - a.len()] == t);
                assert(b.contains(t));
            }
        }
    }
}

proof fn lemma_lineages_not_empty(scopes: Seq<Seq<char>>, t: Seq<char>)
    requires
        forall|s: Seq<char>| #[trigger] scopes.contains(s) ==> s.len() > 0,
        lineages(scopes).contains(t),
    ensures
        t.len() > 0,
    decreases scopes.len(),
{
    if scopes.len() > 0 {
        let less = scopes.drop_last();
        let all = lineages(scopes);
        let a = lineages(less);
        let b = lineage(scopes.last());
        let i = choose|i: int| 0 <= i < all.len() && all[i] == t;
        assert forall|s: Seq<char>| #[trigger] less.contains(s) implies s.len() > 0 by {
            let k = choose|k: int| 0 <= k < less.len() && less[k] == s;
            assert(scopes[k] == s);
            assert(scopes.contains(s));
        }
        if i < a.len() {
            assert(a[i] == t);
            lemma_lineages_not_empty(less, t);
        } else {
            let j = i - a.len();
            assert(b[j] == t);
            assert(scopes[scopes.len() - 1] == scopes.last());
            assert(scopes.contains(scopes.last()));
            if j < b.len() - 1 {
                let n = scopes.last().len() as int;
                assert(cuts(scopes.last(), n)[j] == t);
                lemma_cut_is_prefix(scopes.last(), n, j);
            }
        }
    }
}

proof fn lemma_lineages_hold(scopes: Seq<Seq<char>>, p: Seq<char>)
    ensures
        lineages(scopes).contains(p) <==> exists|i: int|
            0 <= i < scopes.len() && lineage(#[trigger] scopes[i]).contains(p),
    decreases scopes.len(),
{
    if scopes.len() > 0 {
        let less = scopes.drop_last();
        let a = lineages(less);
        let b = lineage(scopes.last());
        lemma_lineages_hold(less, p);
        if a.contains(p) {
            let i = choose|i: int| 0 <= i < less.len() && lineage(#[trigger] less[i]).contains(p);
            assert(scopes[i] == less[i]);
            let k = choose|k: int| 0 <= k < a.len() && a[k] == p;
            assert((a + b)[k] == p);
        }
        if b.contains(p) {
            let k = choose|k: int| 0 <= k < b.len() && b[k] == p;
            assert((a + b)[a.len() + k] == p);
            assert(lineage(scopes[scopes.len() - 1]).contains(p));
        }
        if (a + b).contains(p) {
            let k = choose|k: int| 0 <= k < (a + b).len() && (a + b)[k] == p;
            if k < a.len() {
                assert(a[k] == p);
            } else {
                assert(b[k - a.len()] == p);
            }
        }
        if exists|i: int| 0 <= i < scopes.len() && lineage(#[trigger] scopes[i]).contains(p) {
            let i = choose|i: int|
                0 <= i < scopes.len() && lineage(#[trigger] scopes[i]).contains(p);
            if i < less.len() {
                assert(less[i] == scopes[i]);
            }
        }
    }
}

/// With every scope of a design the scope above it is there too, and no scope
/// is there twice.
pub proof fn scopes_are_closed(table: Seq<SignalView>, p: Seq<char>)
    requires
        scopes_in(table).len() <= usize::MAX,
        lineages(sorted_set(scopes_in(table))).len() <= usize::MAX,
        all_scopes(table).contains(p),
    ensures
        enclosing(p) is Some ==> all_scopes(table).contains(enclosing(p)->0),
        all_scopes(table).no_duplicates(),
{
    let named = sorted_set(scopes_in(table));
    sorted_set_is_sorted(lineages(named));
    lemma_lineages_hold(named, p);
    if enclosing(p) is Some {
        let q = enclosing(p)->0;
        let i = choose|i: int| 0 <= i < named.len() && lineage(#[trigger] named[i]).contains(p);
        lineage_is_closed(named[i], p);
        lemma_lineages_hold(named, q);
        assert(lineage(named[i]).contains(q));
    }
}

/// Is `p` what stands in `s` before a separator that is not its first
/// character?
pub open spec fn stands_above(p: Seq<char>, s: Seq<char>) -> bool {
    0 < p.len() < s.len() && s.take(p.len() as int) == p && is_separator(s[p.len() as int])
}

/// The lineage of a scope: the scope, and whatever stands before a separator in
/// it.
pub proof fn lineage_holds(scope: Seq<char>, p: Seq<char>)
    ensures
        lineage(scope).contains(p) <==> p == scope || stands_above(p, scope),
{
    let n = scope.len() as int;
    let all = lineage(scope);
    if all.contains(p) {
        let i = choose|i: int| 0 <= i < all.len() && all[i] == p;
        if i < all.len() - 1 {
            assert(cuts(scope, n)[i] == p);
            lemma_cut_is_prefix(scope, n, i);
        }
    }
    if p == scope {
        assert(all[all.len() - 1] == p);
    }
    if stands_above(p, scope) {
        lemma_cuts_are_cuts(scope, n, p.len() as int);
        let j = choose|j: int| 0 <= j < cuts(scope, n).len() && cuts(scope, n)[j] == p;
        assert(all[j] == p);
    }
}

proof fn lemma_named(v: Seq<Seq<char>>, t: Seq<char>)
    ensures
        non_empty(v).contains(t) <==> t.len() > 0 && v.contains(t),
    decreases v.len(),
{
    if v.len() > 0 {
        let less = v.drop_last();
        let a = non_empty(less);
        lemma_named(less, t);
        if a.contains(t) {
            let i = choose|i: int| 0 <= i < a.len() && a[i] == t;
            assert(non_empty(v)[i] == t);
            let k = choose|k: int| 0 <= k < less.len() && less[k] == t;
            assert(v[k] == t);
        }
        if t.len() > 0 && t == v.last() {
            assert(non_empty(v)[a.len() as int] == t);
            assert(v[v.len() - 1] == t);
        }
        if v.contains(t) && t != v.last() {
            let k = choose|k: int| 0 <= k < v.len() && v[k] == t;
            assert(less[k] == t);
        }
        if non_empty(v).contains(t) {
            let i = choose|i: int| 0 <= i < non_empty(v).len() && non_empty(v)[i] == t;
            if i < a.len() {
                assert(a[i] == t);
            }
        }
    }
}

proof fn lemma_in_table(table: Seq<SignalView>, t: Seq<char>)
    ensures
        scopes_in(table).contains(t) <==> t.len() > 0 && exists|i: int|
            0 <= i < table.len() && (#[trigger] table[i]).scopes.contains(t),
    decreases table.len(),
{
    if table.len() > 0 {
        let less = table.drop_last();
        let a = scopes_in(less);
        let b = non_empty(table.last().scopes);
        lemma_in_table(less, t);
        lemma_named(table.last().scopes, t);
        if a.contains(t) {
            let k = choose|k: int| 0 <= k < a.len() && a[k] == t;
            assert((a + b)[k] == t);
            let i = choose|i: int| 0 <= i < less.len() && (#[trigger] less[i]).scopes.contains(t);
            assert(table[i].scopes.contains(t));
        }
        if b.contains(t) {
            let k = choose|k: int| 0 <= k < b.len() && b[k] == t;
            assert((a + b)[a.len() + k] == t);
            assert(table[table.len() - 1].scopes.contains(t));
        }
        if (a + b).contains(t) {
            let k = choose|k: int| 0 <= k < (a + b).len() && (a + b)[k] == t;
            if k < a.len() {
                assert(a[k] == t);
            } else {
                assert(b[k - a.len()] == t);
            }
        }
        if exists|i: int| 0 <= i < table.len() && (#[trigger] table[i]).scopes.contains(t) {
            let i = choose|i: int| 0 <= i < table.len() && (#[trigger] table[i]).scopes.contains(t);
            if i < less.len() {
                assert(less[i].scopes.contains(t));
            }
        }
    }
}

/// Does a path of the design lie in the scope, or below it?
pub open spec fn holds_a_path(table: Seq<SignalView>, p: Seq<char>) -> bool {
    exists|i: int, j: int|
        0 <= i < table.len() && 0 <= j < table[i].scopes.len() && ((
        #[trigger] table[i].scopes[j]) == p || stands_above(p, table[i].scopes[j]))
}

/// The scopes of a design: those that paths lie in and those above them.
pub proof fn scopes_are_those_that_hold(table: Seq<SignalView>, p: Seq<char>)
    requires
        scopes_in(table).len() <= usize::MAX,
        lineages(sorted_set(scopes_in(table))).len() <= usize::MAX,
    ensures
        all_scopes(table).contains(p) <==> p.len() > 0 && holds_a_path(table, p),
{
    let named = sorted_set(scopes_in(table));
    sorted_set_is_sorted(scopes_in(table));
    sorted_set_is_sorted(lineages(named));
    lemma_lineages_hold(named, p);
    if all_scopes(table).contains(p) {
        let i = choose|i: int| 0 <= i < named.len() && lineage(#[trigger] named[i]).contains(p);
        let t = named[i];
        assert(named.contains(t));
        lemma_in_table(table, t);
        lineage_holds(t, p);
        let k = choose|k: int| 0 <= k < table.len() && (#[trigger] table[k]).scopes.contains(t);
        let j = choose|j: int| 0 <= j < table[k].scopes.len() && table[k].scopes[j] == t;
        assert(table[k].scopes[j] == t);
    }
    if p.len() > 0 && holds_a_path(table, p) {
        let (k, j) = choose|i: int, j: int|
            0 <= i < table.len() && 0 <= j < table[i].scopes.len() && ((
            #[trigger] table[i].scopes[j]) == p || stands_above(p, table[i].scopes[j]));
        let t = table[k].scopes[j];
        assert(table[k].scopes.contains(t));
        lemma_in_table(table, t);
        assert(named.contains(t));
        let i = choose|i: int| 0 <= i < named.len() && named[i] == t;
        lineage_holds(t, p);
        assert(lineage(named[i]).contains(p));
    }
}

} // verus!
