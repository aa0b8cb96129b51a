//! The signal table: declarations merged by handle, sorted by path.

use vstd::prelude::*;

use crate::format::ValueKind;
use crate::filter::is_separator;
use crate::handles::HandleMap;
use crate::order::{
    arranged, bytes_total, bytes_transitive, increasing, key_le, lists, sort_order, sort_texts,
    sorted_set, sorted_set_is_sorted, sorting_keeps_items, stable_before, stable_order,
    stable_order_is_unique, stable_order_sorts, stable_sorted, str_no_later, text_at_most, text_le, text_le_is_total,
    text_order, total_preorder, without_echoes, SortKey,
};
use crate::text::{chars_of, has_prefix, lowercase, same, starts_with, to_lower, views};

verus! {

/// A handle by which a backend knows a signal. Declarations with the same
/// handle name the same signal.
#[derive(Debug, Clone, Copy, PartialEq, Eq, Structural)]
pub struct BackendSid(pub usize);

/// A variable declaration, in the order of the file.
pub struct VarDecl {
    /// The full path, with the range of a vector folded in.
    pub full_path: String,
    /// The path of the enclosing scope, empty at the top level.
    pub scope_path: String,
    pub width: u32,
    pub type_str: &'static str,
    pub kind: ValueKind,
    pub backend_sid: BackendSid,
}

pub struct DeclView {
    pub path: Seq<char>,
    pub scope: Seq<char>,
    pub width: u32,
    pub type_str: Seq<char>,
    pub kind: ValueKind,
    pub handle: usize,
}

impl View for VarDecl {
    type V = DeclView;

    open spec fn view(&self) -> DeclView {
        DeclView {
            path: self.full_path@,
            scope: self.scope_path@,
            width: self.width,
            type_str: self.type_str@,
            kind: self.kind,
            handle: self.backend_sid.0,
        }
    }
}

pub open spec fn decl_views(v: Seq<VarDecl>) -> Seq<DeclView> {
    v.map_values(|d: VarDecl| d@)
}

/// A signal of the table.
#[derive(Debug)]
pub struct SignalInfo {
    /// The first of the alias paths.
    pub path: String,
    /// Every path of the signal, sorted.
    pub aliases: Vec<String>,
    pub width: u32,
    pub type_str: &'static str,
    pub kind: ValueKind,
    /// The enclosing scope of each alias.
    pub alias_scopes: Vec<String>,
    /// The position of the signal's first declaration.
    pub decl_order: usize,
    pub backend_sid: BackendSid,
}

pub struct SignalView {
    pub path: Seq<char>,
    pub aliases: Seq<Seq<char>>,
    pub width: u32,
    pub type_str: Seq<char>,
    pub kind: ValueKind,
    pub scopes: Seq<Seq<char>>,
    pub decl_order: nat,
    pub handle: usize,
}

impl View for SignalInfo {
    type V = SignalView;

    open spec fn view(&self) -> SignalView {
        SignalView {
            path: self.path@,
            aliases: views(self.aliases@),
            width: self.width,
            type_str: self.type_str@,
            kind: self.kind,
            scopes: views(self.alias_scopes@),
            decl_order: self.decl_order as nat,
            handle: self.backend_sid.0,
        }
    }
}

pub open spec fn signal_views(v: Seq<SignalInfo>) -> Seq<SignalView> {
    v.map_values(|s: SignalInfo| s@)
}

/// Each alias has a scope, and there is at least one alias.
pub open spec fn signal_ok(s: SignalView) -> bool {
    s.aliases.len() == s.scopes.len() && s.aliases.len() > 0 && s.path == s.aliases[0]
}

pub open spec fn table_ok(t: Seq<SignalView>) -> bool {
    forall|i: int| 0 <= i < t.len() ==> signal_ok(#[trigger] t[i])
}

/// Does some alias, lower-cased, equal the given text?
pub open spec fn has_path_ci(s: SignalView, lower: Seq<char>) -> bool {
    exists|i: int| 0 <= i < s.aliases.len() && lowercase(#[trigger] s.aliases[i]) == lower
}

impl SignalInfo {
    /// Each alias with its scope.
    pub fn alias_pairs(&self) -> (r: Vec<(&str, &str)>)
        requires
            self.aliases@.len() == self.alias_scopes@.len(),
        ensures
            r.len() == self.aliases@.len(),
            forall|i: int|
                0 <= i < r.len() ==> (#[trigger] r@[i]).0@ == self.aliases@[i]@ && r@[i].1@
                    == self.alias_scopes@[i]@,
    {
        let mut out: Vec<(&str, &str)> = Vec::new();
        let mut i: usize = 0;
        while i < self.aliases.len()
            invariant
                i <= self.aliases.len(),
                self.aliases@.len() == self.alias_scopes@.len(),
                out.len() == i,
                forall|k: int|
                    0 <= k < i ==> (#[trigger] out@[k]).0@ == self.aliases@[k]@ && out@[k].1@
                        == self.alias_scopes@[k]@,
            decreases self.aliases.len() - i,
        {
            out.push((self.aliases[i].as_str(), self.alias_scopes[i].as_str()));
            i += 1;
        }
        out
    }

    /// Is `pattern_lower` (lower-cased already) one of the signal's paths, not
    /// minding case?
    pub fn has_exact_path_ci(&self, pattern_lower: &str) -> (r: bool)
        ensures
            r == has_path_ci(self@, pattern_lower@),
    {
        let mut i: usize = 0;
        while i < self.aliases.len()
            invariant
                i <= self.aliases.len(),
                forall|k: int|
                    0 <= k < i ==> lowercase(#[trigger] self@.aliases[k]) != pattern_lower@,
            decreases self.aliases.len() - i,
        {
            let lower: String = to_lower(self.aliases[i].as_str());
            assert(self@.aliases[i as int] == self.aliases@[i as int]@);
            if same(lower.as_str(), pattern_lower) {
                return true;
            }
            i += 1;
        }
        false
    }
}

/// The part of `path` that follows its scope and one separator; the whole path
/// when the scope is empty or is not what stands before a separator.
pub open spec fn leaf_text(path: Seq<char>, scope: Seq<char>) -> Seq<char> {
    if scope.len() > 0 && has_prefix(path, scope) && path.len() > scope.len() && is_separator(
        path[scope.len() as int],
    ) {
        path.skip(scope.len() as int + 1)
    } else {
        path
    }
}

/// The leaf name of `path`, given the scope it sits in.
///
/// The scope itself says where the name begins; a search for the last separator
/// would cut an escaped identifier that holds one.
pub fn leaf_of<'a>(path: &'a str, scope: &str) -> (r: &'a str)
    ensures
        r@ == leaf_text(path@, scope@),
{
    if scope.is_empty() || !starts_with(path, scope) {
        return path;
    }
    let v: Vec<char> = chars_of(path);
    let n: usize = chars_of(scope).len();
    if n < v.len() && (v[n] == '.' || v[n] == '/') {
        let rest: &str = vstd::string::StrSliceExecFns::substring_char(path, n + 1, v.len());
        assert(rest@ =~= path@.skip(n + 1));
        return rest;
    }
    path
}


/// The handles of the declarations, each once, in order of first appearance.
pub open spec fn handles_of(d: Seq<DeclView>) -> Seq<usize>
    decreases d.len(),
{
    if d.len() == 0 {
        Seq::empty()
    } else {
        let rest = handles_of(d.drop_last());
        if rest.contains(d.last().handle) {
            rest
        } else {
            rest.push(d.last().handle)
        }
    }
}

/// The positions of the declarations with handle `h`, in order.
pub open spec fn members_of(d: Seq<DeclView>, h: usize) -> Seq<int>
    decreases d.len(),
{
    if d.len() == 0 {
        Seq::empty()
    } else {
        let rest = members_of(d.drop_last(), h);
        if d.last().handle == h {
            rest.push(d.len() - 1)
        } else {
            rest
        }
    }
}

/// The path and scope of each of the given declarations.
pub open spec fn alias_list(d: Seq<DeclView>, m: Seq<int>) -> Seq<(Seq<char>, Seq<char>)> {
    m.map_values(|i: int| (d[i].path, d[i].scope))
}

pub open spec fn first_of(pairs: Seq<(Seq<char>, Seq<char>)>) -> Seq<Seq<char>> {
    pairs.map_values(|p: (Seq<char>, Seq<char>)| p.0)
}

pub open spec fn second_of(pairs: Seq<(Seq<char>, Seq<char>)>) -> Seq<Seq<char>> {
    pairs.map_values(|p: (Seq<char>, Seq<char>)| p.1)
}

/// Path and scope pairs sorted by path.
pub open spec fn sorted_aliases(pairs: Seq<(Seq<char>, Seq<char>)>) -> Seq<
    (Seq<char>, Seq<char>),
> {
    arranged(pairs, text_order(first_of(pairs)))
}

/// Of neighbours with the same path only the first is kept.
pub open spec fn without_repeats(pairs: Seq<(Seq<char>, Seq<char>)>) -> Seq<(Seq<char>, Seq<char>)>
    decreases pairs.len(),
{
    if pairs.len() == 0 {
        Seq::empty()
    } else {
        let rest = without_repeats(pairs.drop_last());
        if pairs.len() >= 2 && pairs[pairs.len() - 2].0 == pairs.last().0 {
            rest
        } else {
            rest.push(pairs.last())
        }
    }
}

/// The signal that the declarations with handle `h` name: its aliases are
/// their paths, sorted and without repeats; the rest comes from the first.
pub open spec fn signal_of(d: Seq<DeclView>, h: usize) -> SignalView {
    let m = members_of(d, h);
    let aliases = without_repeats(sorted_aliases(alias_list(d, m)));
    SignalView {
        path: aliases[0].0,
        aliases: first_of(aliases),
        width: d[m[0]].width,
        type_str: d[m[0]].type_str,
        kind: d[m[0]].kind,
        scopes: second_of(aliases),
        decl_order: m[0] as nat,
        handle: h,
    }
}

/// The signals in order of first declaration.
pub open spec fn unsorted_table(d: Seq<DeclView>) -> Seq<SignalView> {
    handles_of(d).map_values(|h: usize| signal_of(d, h))
}

pub open spec fn paths_of(t: Seq<SignalView>) -> Seq<Seq<char>> {
    t.map_values(|s: SignalView| s.path)
}

/// The signal table: one signal per handle, sorted by path.
pub open spec fn table_of(d: Seq<DeclView>) -> Seq<SignalView> {
    arranged(unsorted_table(d), text_order(paths_of(unsorted_table(d))))
}

proof fn lemma_members_range(d: Seq<DeclView>, h: usize)
    ensures
        forall|i: int|
            0 <= i < members_of(d, h).len() ==> 0 <= #[trigger] members_of(d, h)[i] < d.len()
                && d[members_of(d, h)[i]].handle == h,
        handles_of(d).contains(h) <==> members_of(d, h).len() > 0,
    decreases d.len(),
{
    if d.len() > 0 {
        let less = d.drop_last();
        lemma_members_range(less, h);
        let m = members_of(d, h);
        let r = members_of(less, h);
        assert forall|i: int| 0 <= i < m.len() implies 0 <= #[trigger] m[i] < d.len()
            && d[m[i]].handle == h by {
            if i < r.len() {
                assert(m[i] == r[i]);
                assert(less[r[i]] == d[m[i]]);
            }
        }
        let rest = handles_of(less);
        let x = d.last().handle;
        if !rest.contains(x) {
            assert(rest.push(x)[rest.len() as int] == x);
            if rest.contains(h) {
                let k = choose|k: int| 0 <= k < rest.len() && rest[k] == h;
                assert(rest.push(x)[k] == h);
            }
            if rest.push(x).contains(h) && h != x {
                let k = choose|k: int| 0 <= k < rest.push(x).len() && rest.push(x)[k] == h;
                assert(rest[k] == h);
            }
        }
    }
}

proof fn lemma_without_repeats_nonempty(pairs: Seq<(Seq<char>, Seq<char>)>)
    requires
        pairs.len() > 0,
    ensures
        without_repeats(pairs).len() > 0,
    decreases pairs.len(),
{
    if pairs.len() >= 2 {
        lemma_without_repeats_nonempty(pairs.drop_last());
    }
}

/// Each signal has an alias, its path is the first of them, and each alias has
/// a scope.
pub proof fn table_is_ok(d: Seq<DeclView>)
    requires
        d.len() <= usize::MAX,
    ensures
        table_ok(table_of(d)),
        table_of(d).len() == handles_of(d).len(),
{
    let u = unsorted_table(d);
    lemma_handles_bounded(d);
    text_le_is_total();
    stable_order_sorts(text_le(), paths_of(u));
    let t = table_of(d);
    let order = text_order(paths_of(u));
    assert forall|i: int| 0 <= i < t.len() implies signal_ok(#[trigger] t[i]) by {
        let k = order[i] as int;
        assert(0 <= order[i] < paths_of(u).len());
        let h = handles_of(d)[k];
        assert(handles_of(d).contains(h));
        lemma_members_range(d, h);
        let pairs = alias_list(d, members_of(d, h));
        lemma_members_bounded(d, h);
        stable_order_sorts(text_le(), first_of(pairs));
        lemma_without_repeats_nonempty(sorted_aliases(pairs));
        assert(t[i] == signal_of(d, h));
    }
}

proof fn lemma_handles_bounded(d: Seq<DeclView>)
    ensures
        handles_of(d).len() <= d.len(),
    decreases d.len(),
{
    if d.len() > 0 {
        lemma_handles_bounded(d.drop_last());
    }
}

proof fn lemma_members_bounded(d: Seq<DeclView>, h: usize)
    ensures
        members_of(d, h).len() <= d.len(),
    decreases d.len(),
{
    if d.len() > 0 {
        lemma_members_bounded(d.drop_last(), h);
    }
}

/// The positions held by a list of machine integers.
spec fn positions(v: Seq<usize>) -> Seq<int> {
    v.map_values(|i: usize| i as int)
}

/// What the grouping loop keeps after `n` declarations.
spec fn grouped(
    d: Seq<DeclView>,
    n: int,
    map: Map<usize, usize>,
    hs: Seq<usize>,
    groups: Seq<Vec<usize>>,
) -> bool {
    &&& hs == handles_of(d.take(n))
    &&& groups.len() == hs.len()
    &&& forall|g: int|
        0 <= g < hs.len() ==> map.contains_key(#[trigger] hs[g]) && map[hs[g]] == g
    &&& forall|h: usize|
        #[trigger] map.contains_key(h) ==> map[h] < hs.len() && hs[map[h] as int] == h
    &&& forall|g: int|
        0 <= g < groups.len() ==> positions(#[trigger] groups[g]@) == members_of(d.take(n), hs[g])
}

/// Group declaration positions by handle.
fn group_decls(decls: &Vec<VarDecl>) -> (r: (Vec<usize>, Vec<Vec<usize>>))
    ensures
        r.0@ == handles_of(decl_views(decls@)),
        r.1@.len() == r.0@.len(),
        forall|g: int|
            0 <= g < r.1@.len() ==> positions(#[trigger] r.1@[g]@) == members_of(
                decl_views(decls@),
                r.0@[g],
            ),
{
    let ghost d = decl_views(decls@);
    let mut map: HandleMap = HandleMap::new();
    let mut hs: Vec<usize> = Vec::new();
    let mut groups: Vec<Vec<usize>> = Vec::new();
    let mut n: usize = 0;
    assert(d.take(0) =~= Seq::empty());
    while n < decls.len()
        invariant
            n <= decls.len(),
            d == decl_views(decls@),
            grouped(d, n as int, map@, hs@, groups@),
        decreases decls.len() - n,
    {
        let h: usize = decls[n].backend_sid.0;
        let ghost before = groups@;
        let ghost hs0 = hs@;
        let ghost map0 = map@;
        let ghost now = d.take(n + 1);
        let ghost was = d.take(n as int);
        proof {
            assert(now.drop_last() =~= was);
            assert(now.last() == decls@[n as int]@);
        }
        let found: Option<usize> = map.get(h);
        match found {
            Some(g) => {
                assert(hs0[g as int] == h);
                groups[g].push(n);
                proof {
                    assert(handles_of(was).contains(h));
                    assert forall|k: int| 0 <= k < groups@.len() implies positions(
                        #[trigger] groups@[k]@,
                    ) == members_of(now, hs@[k]) by {
                        assert(positions(before[k]@) == members_of(was, hs0[k]));
                        if k == g {
                            assert(groups@[k]@ == before[k]@.push(n));
                            assert(positions(groups@[k]@) =~= positions(before[k]@).push(n as int));
                        } else {
                            if hs0[k] == h {
                                assert(map0[hs0[k]] == k);
                            }
                        }
                    }
                }
            },
            None => {
                let mut fresh: Vec<usize> = Vec::new();
                fresh.push(n);
                map.insert(h, groups.len());
                hs.push(h);
                groups.push(fresh);
                proof {
                    if handles_of(was).contains(h) {
                        let k = choose|k: int| 0 <= k < hs0.len() && hs0[k] == h;
                        assert(map0.contains_key(hs0[k]));
                    }
                    lemma_members_range(was, h);
                    assert forall|k: int| 0 <= k < groups@.len() implies positions(
                        #[trigger] groups@[k]@,
                    ) == members_of(now, hs@[k]) by {
                        if k < before.len() {
                            assert(positions(before[k]@) == members_of(was, hs0[k]));
                            if hs0[k] == h {
                                assert(map0.contains_key(hs0[k]));
                            }
                        } else {
                            assert(members_of(was, h) =~= Seq::empty());
                            assert(positions(groups@[k]@) =~= seq![n as int]);
                            assert(members_of(now, h) =~= seq![n as int]);
                        }
                    }
                    assert forall|g: int| 0 <= g < hs@.len() implies map@.contains_key(
                        #[trigger] hs@[g],
                    ) && map@[hs@[g]] == g by {
                        if g < hs0.len() {
                            assert(map0.contains_key(hs0[g]));
                            assert(hs0[g] != h);
                        }
                    }
                    assert forall|x: usize| #[trigger] map@.contains_key(x) implies map@[x]
                        < hs@.len() && hs@[map@[x] as int] == x by {
                        if x != h {
                            assert(map0.contains_key(x));
                        }
                    }
                }
            },
        }
        n += 1;
    }
    assert(d.take(n as int) =~= d);
    (hs, groups)
}

/// Build the signal of one group.
fn build_signal(decls: &Vec<VarDecl>, group: &Vec<usize>, h: usize) -> (r: SignalInfo)
    requires
        positions(group@) == members_of(decl_views(decls@), h),
        group.len() > 0,
    ensures
        r@ == signal_of(decl_views(decls@), h),
{
    let ghost d = decl_views(decls@);
    let ghost m = members_of(d, h);
    let ghost pairs = alias_list(d, m);
    proof {
        lemma_members_range(d, h);
    }
    let mut keys: Vec<String> = Vec::new();
    let mut i: usize = 0;
    while i < group.len()
        invariant
            i <= group.len(),
            d == decl_views(decls@),
            m == members_of(d, h),
            pairs == alias_list(d, m),
            positions(group@) == m,
            forall|k: int| 0 <= k < m.len() ==> 0 <= #[trigger] m[k] < d.len(),
            views(keys@) == first_of(pairs).take(i as int),
        decreases group.len() - i,
    {
        assert(positions(group@)[i as int] == group@[i as int]);
        assert(0 <= m[i as int] < d.len());
        let ghost before = keys@;
        let key: String = decls[group[i]].full_path.clone();
        keys.push(key);
        proof {
            assert(views(keys@) =~= views(before).push(key@));
            assert(d[m[i as int]] == decls@[group@[i as int] as int]@);
            assert(views(keys@) =~= first_of(pairs).take(i + 1));
        }
        i += 1;
    }
    assert(views(keys@) =~= first_of(pairs));
    let order: Vec<usize> = sort_texts(&keys);
    let ghost sorted = sorted_aliases(pairs);
    let mut aliases: Vec<String> = Vec::new();
    let mut scopes: Vec<String> = Vec::new();
    let mut j: usize = 0;
    proof {
        assert(sorted.take(0) =~= Seq::empty());
        assert(views(aliases@) =~= first_of(without_repeats(sorted.take(0))));
        assert(views(scopes@) =~= second_of(without_repeats(sorted.take(0))));
    }
    while j < order.len()
        invariant
            j <= order.len() == group.len() == keys.len() == m.len(),
            d == decl_views(decls@),
            pairs == alias_list(d, m),
            positions(group@) == m,
            views(keys@) == first_of(pairs),
            sorted == arranged(pairs, order@),
            forall|k: int| 0 <= k < m.len() ==> 0 <= #[trigger] m[k] < d.len(),
            forall|k: int| 0 <= k < order.len() ==> 0 <= #[trigger] order@[k] < keys.len(),
            views(aliases@) == first_of(without_repeats(sorted.take(j as int))),
            views(scopes@) == second_of(without_repeats(sorted.take(j as int))),
        decreases order.len() - j,
    {
        let at: usize = order[j];
        let repeat: bool = j > 0 && same(keys[order[j - 1]].as_str(), keys[at].as_str());
        proof {
            let w = sorted.take(j + 1);
            assert(w.drop_last() =~= sorted.take(j as int));
            assert(w.last() == pairs[at as int]);
            assert(views(keys@)[at as int] == pairs[at as int].0);
            if j > 0 {
                assert(w[w.len() - 2] == pairs[order@[j - 1] as int]);
                assert(views(keys@)[order@[j - 1] as int] == pairs[order@[j - 1] as int].0);
            }
        }
        if !repeat {
            assert(positions(group@)[at as int] == group@[at as int]);
            assert(0 <= m[at as int] < d.len());
            let ghost a0 = aliases@;
            let ghost s0 = scopes@;
            let decl: &VarDecl = &decls[group[at]];
            let a: String = decl.full_path.clone();
            let s: String = decl.scope_path.clone();
            aliases.push(a);
            scopes.push(s);
            proof {
                let done = without_repeats(sorted.take(j as int));
                assert(d[m[at as int]] == decls@[group@[at as int] as int]@);
                assert(pairs[at as int] == (a@, s@));
                assert(views(aliases@) =~= views(a0).push(a@));
                assert(views(scopes@) =~= views(s0).push(s@));
                assert(first_of(done.push(pairs[at as int])) =~= first_of(done).push(a@));
                assert(second_of(done.push(pairs[at as int])) =~= second_of(done).push(s@));
            }
        }
        j += 1;
    }
    proof {
        assert(sorted.take(j as int) =~= sorted);
        lemma_without_repeats_nonempty(sorted);
        assert(positions(group@)[0] == group@[0]);
        assert(views(aliases@).len() == aliases@.len());
        assert(views(aliases@)[0] == aliases@[0]@);
    }
    let first: &VarDecl = &decls[group[0]];
    let path: String = aliases[0].clone();
    let r: SignalInfo = SignalInfo {
        path,
        aliases,
        width: first.width,
        type_str: first.type_str,
        kind: first.kind,
        alias_scopes: scopes,
        decl_order: group[0],
        backend_sid: BackendSid(h),
    };
    assert(r@ =~= signal_of(d, h));
    r
}

impl SignalInfo {
    pub fn duplicate(&self) -> (r: SignalInfo)
        ensures
            r@ == self@,
    {
        let r: SignalInfo = SignalInfo {
            path: self.path.clone(),
            aliases: crate::text::clone_strings(&self.aliases),
            width: self.width,
            type_str: self.type_str,
            kind: self.kind,
            alias_scopes: crate::text::clone_strings(&self.alias_scopes),
            decl_order: self.decl_order,
            backend_sid: self.backend_sid,
        };
        r
    }
}

/// Build the signal table from the declarations.
pub fn build_signal_table(decls: &Vec<VarDecl>) -> (r: Vec<SignalInfo>)
    ensures
        signal_views(r@) == table_of(decl_views(decls@)),
        table_ok(signal_views(r@)),
{
    let ghost d = decl_views(decls@);
    let count: usize = decls.len();
    let (hs, groups) = group_decls(decls);
    let mut infos: Vec<SignalInfo> = Vec::new();
    let mut keys: Vec<String> = Vec::new();
    let mut g: usize = 0;
    while g < groups.len()
        invariant
            g <= groups.len() == hs.len(),
            d == decl_views(decls@),
            hs@ == handles_of(d),
            forall|g: int|
                0 <= g < groups@.len() ==> positions(#[trigger] groups@[g]@) == members_of(d, hs@[g]),
            signal_views(infos@) == unsorted_table(d).take(g as int),
            views(keys@) == paths_of(unsorted_table(d)).take(g as int),
        decreases groups.len() - g,
    {
        proof {
            assert(positions(groups@[g as int]@) == members_of(d, hs@[g as int]));
            assert(handles_of(d).contains(hs@[g as int]));
            lemma_members_range(d, hs@[g as int]);
            assert(positions(groups@[g as int]@).len() == groups@[g as int]@.len());
        }
        let ghost i0 = infos@;
        let ghost k0 = keys@;
        let info: SignalInfo = build_signal(decls, &groups[g], hs[g]);
        let key: String = info.path.clone();
        infos.push(info);
        keys.push(key);
        proof {
            assert(signal_views(infos@) =~= signal_views(i0).push(info@));
            assert(views(keys@) =~= views(k0).push(key@));
            assert(signal_views(infos@) =~= unsorted_table(d).take(g + 1));
            assert(views(keys@) =~= paths_of(unsorted_table(d)).take(g + 1));
        }
        g += 1;
    }
    assert(signal_views(infos@) =~= unsorted_table(d));
    assert(views(keys@) =~= paths_of(unsorted_table(d)));
    let order: Vec<usize> = sort_texts(&keys);
    let mut out: Vec<SignalInfo> = Vec::new();
    let mut i: usize = 0;
    while i < order.len()
        invariant
            i <= order.len() == infos.len() == keys.len(),
            signal_views(infos@) == unsorted_table(d),
            table_of(d) == arranged(unsorted_table(d), order@),
            forall|k: int| 0 <= k < order.len() ==> 0 <= #[trigger] order@[k] < keys.len(),
            signal_views(out@) == table_of(d).take(i as int),
        decreases order.len() - i,
    {
        let ghost o0 = out@;
        let info: SignalInfo = infos[order[i]].duplicate();
        out.push(info);
        proof {
            assert(signal_views(infos@)[order@[i as int] as int] == infos@[order@[i as int] as int]@);
            assert(signal_views(out@) =~= signal_views(o0).push(info@));
            assert(signal_views(out@) =~= table_of(d).take(i + 1));
        }
        i += 1;
    }
    assert(signal_views(out@) =~= table_of(d));
    proof {
        assert(d.len() == count);
        table_is_ok(d);
    }
    out
}


/// The variable types of the declarations, each once, in order of first
/// appearance.
pub open spec fn types_of(d: Seq<DeclView>) -> Seq<Seq<char>>
    decreases d.len(),
{
    if d.len() == 0 {
        Seq::empty()
    } else {
        let rest = types_of(d.drop_last());
        if rest.contains(d.last().type_str) {
            rest
        } else {
            rest.push(d.last().type_str)
        }
    }
}

/// How many declarations have the given type.
pub open spec fn type_count(d: Seq<DeclView>, t: Seq<char>) -> nat
    decreases d.len(),
{
    if d.len() == 0 {
        0
    } else {
        type_count(d.drop_last(), t) + (if d.last().type_str == t {
            1nat
        } else {
            0nat
        })
    }
}

/// Each type with its count, in order of first appearance.
pub open spec fn unsorted_counts(d: Seq<DeclView>) -> Seq<(Seq<char>, nat)> {
    types_of(d).map_values(|t: Seq<char>| (t, type_count(d, t)))
}

/// Larger counts come first; equal counts are ordered by name.
pub open spec fn count_le() -> spec_fn((Seq<char>, nat), (Seq<char>, nat)) -> bool {
    |a: (Seq<char>, nat), b: (Seq<char>, nat)|
        a.1 > b.1 || (a.1 == b.1 && text_at_most(a.0, b.0))
}

/// The type counts, by descending count and then by name.
pub open spec fn type_counts_of(d: Seq<DeclView>) -> Seq<(Seq<char>, nat)> {
    arranged(unsorted_counts(d), stable_order(count_le(), unsorted_counts(d)))
}

/// A type name with its count, ordered by descending count.
struct CountKey {
    name: String,
    count: usize,
}

impl SortKey for CountKey {
    closed spec fn at_most(&self, other: &Self) -> bool {
        self.count > other.count || (self.count == other.count && text_at_most(
            self.name@,
            other.name@,
        ))
    }

    proof fn at_most_total(&self, other: &Self) {
        bytes_total(vstd::utf8::encode_utf8(self.name@), vstd::utf8::encode_utf8(other.name@));
    }

    proof fn at_most_transitive(&self, mid: &Self, other: &Self) {
        if self.count == mid.count && mid.count == other.count {
            bytes_transitive(
                vstd::utf8::encode_utf8(self.name@),
                vstd::utf8::encode_utf8(mid.name@),
                vstd::utf8::encode_utf8(other.name@),
            );
        }
    }

    fn no_later(&self, other: &Self) -> (r: bool) {
        self.count > other.count || (self.count == other.count && str_no_later(
            self.name.as_str(),
            other.name.as_str(),
        ))
    }
}

proof fn lemma_count_le_total()
    ensures
        total_preorder(count_le()),
{
    let le = count_le();
    assert forall|a: (Seq<char>, nat), b: (Seq<char>, nat)| #[trigger] le(a, b) || le(b, a) by {
        bytes_total(vstd::utf8::encode_utf8(a.0), vstd::utf8::encode_utf8(b.0));
    }
    assert forall|a: (Seq<char>, nat), b: (Seq<char>, nat), c: (Seq<char>, nat)| #[trigger]
        le(a, b) && #[trigger] le(b, c) implies le(a, c) by {
        if a.1 == b.1 && b.1 == c.1 {
            bytes_transitive(
                vstd::utf8::encode_utf8(a.0),
                vstd::utf8::encode_utf8(b.0),
                vstd::utf8::encode_utf8(c.0),
            );
        }
    }
}

spec fn count_views(v: Seq<CountKey>) -> Seq<(Seq<char>, nat)> {
    v.map_values(|k: CountKey| (k.name@, k.count as nat))
}

pub open spec fn named_counts(v: Seq<(String, usize)>) -> Seq<(Seq<char>, nat)> {
    v.map_values(|p: (String, usize)| (p.0@, p.1 as nat))
}

proof fn lemma_type_count_bound(d: Seq<DeclView>, t: Seq<char>)
    ensures
        type_count(d, t) <= d.len(),
        types_of(d).contains(t) <==> type_count(d, t) > 0,
        types_of(d).len() <= d.len(),
    decreases d.len(),
{
    if d.len() > 0 {
        let less = d.drop_last();
        lemma_type_count_bound(less, t);
        let rest = types_of(less);
        let x = d.last().type_str;
        if !rest.contains(x) {
            let now = rest.push(x);
            assert(now[rest.len() as int] == x);
            if rest.contains(t) {
                let k = choose|k: int| 0 <= k < rest.len() && rest[k] == t;
                assert(now[k] == t);
            }
            if now.contains(t) && t != x {
                let k = choose|k: int| 0 <= k < now.len() && now[k] == t;
                assert(rest[k] == t);
            }
        }
    }
}

fn tally_types(decls: &Vec<VarDecl>) -> (r: Vec<CountKey>)
    ensures
        count_views(r@) == unsorted_counts(decl_views(decls@)),
{
    let ghost d = decl_views(decls@);
    let mut out: Vec<CountKey> = Vec::new();
    let mut n: usize = 0;
    assert(d.take(0) =~= Seq::empty());
    assert(count_views(out@) =~= unsorted_counts(d.take(0)));
    while n < decls.len()
        invariant
            n <= decls.len(),
            d == decl_views(decls@),
            count_views(out@) == unsorted_counts(d.take(n as int)),
        decreases decls.len() - n,
    {
        let name: &str = decls[n].type_str;
        let ghost was = d.take(n as int);
        let ghost now = d.take(n + 1);
        let ghost before = out@;
        proof {
            assert(now.drop_last() =~= was);
            assert(now.last() == decls@[n as int]@);
            lemma_type_count_bound(was, name@);
        }
        let mut k: usize = 0;
        while k < out.len() && !same(out[k].name.as_str(), name)
            invariant
                k <= out.len(),
                out@ == before,
                count_views(before) == unsorted_counts(was),
                forall|j: int| 0 <= j < k ==> types_of(was)[j] != name@,
            decreases out.len() - k,
        {
            proof {
                assert(count_views(before).len() == before.len());
                assert(unsorted_counts(was).len() == types_of(was).len());
                assert(count_views(before)[k as int] == (types_of(was)[k as int], type_count(
                    was,
                    types_of(was)[k as int],
                )));
            }
            k += 1;
        }
        assert(count_views(before).len() == before.len());
        if k < out.len() {
            proof {
                assert(count_views(before)[k as int] == (types_of(was)[k as int], type_count(
                    was,
                    types_of(was)[k as int],
                )));
                assert(types_of(was).contains(name@));
            }
            let c: usize = out[k].count;
            assert(c <= n);
            out.set(k, CountKey { name: name.to_owned(), count: c + 1 });
            proof {
                let a = count_views(out@);
                let b = unsorted_counts(now);
                assert(a.len() == b.len());
                assert forall|j: int| 0 <= j < a.len() implies a[j] == b[j] by {
                    assert(count_views(before)[j] == (types_of(was)[j], type_count(
                        was,
                        types_of(was)[j],
                    )));
                    if j != k {
                        if types_of(was)[j] == name@ {
                            lemma_types_distinct(was, j, k as int);
                        }
                    }
                }
                assert(a =~= b);
            }
        } else {
            out.push(CountKey { name: name.to_owned(), count: 1 });
            proof {
                if types_of(was).contains(name@) {
                    let j = choose|j: int| 0 <= j < types_of(was).len() && types_of(was)[j] == name@;
                    assert(false);
                }
                let a = count_views(out@);
                let b = unsorted_counts(now);
                assert(a.len() == b.len());
                assert forall|j: int| 0 <= j < a.len() implies a[j] == b[j] by {
                    if j < before.len() {
                        assert(count_views(before)[j] == (types_of(was)[j], type_count(
                            was,
                            types_of(was)[j],
                        )));
                    }
                }
                assert(a =~= b);
            }
        }
        n += 1;
    }
    assert(d.take(n as int) =~= d);
    out
}

proof fn lemma_types_distinct(d: Seq<DeclView>, i: int, j: int)
    requires
        0 <= i < types_of(d).len(),
        0 <= j < types_of(d).len(),
        types_of(d)[i] == types_of(d)[j],
    ensures
        i == j,
    decreases d.len(),
{
    if d.len() > 0 {
        let rest = types_of(d.drop_last());
        let x = d.last().type_str;
        if rest.contains(x) {
            lemma_types_distinct(d.drop_last(), i, j);
        } else {
            if i < rest.len() && j < rest.len() {
                lemma_types_distinct(d.drop_last(), i, j);
            } else if i < rest.len() {
                assert(rest[i] == x);
            } else if j < rest.len() {
                assert(rest[j] == x);
            }
        }
    }
}

/// Count the declarations of each variable type, by descending count and then
/// by name.
pub fn count_types(decls: &Vec<VarDecl>) -> (r: Vec<(String, usize)>)
    ensures
        named_counts(r@) == type_counts_of(decl_views(decls@)),
{
    let ghost d = decl_views(decls@);
    let total: usize = decls.len();
    let keys: Vec<CountKey> = tally_types(decls);
    let order: Vec<usize> = sort_order(&keys);
    let ghost cv = unsorted_counts(d);
    proof {
        assert(d.len() == total);
        lemma_type_count_bound(d, Seq::empty());
        assert(count_views(keys@) == cv);
        assert forall|i: int, j: int| 0 <= i < j < order@.len() implies stable_before(
            count_le(),
            cv,
            #[trigger] order@[i] as int,
            #[trigger] order@[j] as int,
        ) by {
            assert(stable_before(key_le::<CountKey>(), keys@, order@[i] as int, order@[j] as int));
            assert(count_views(keys@)[order@[i] as int] == cv[order@[i] as int]);
            assert(count_views(keys@)[order@[j] as int] == cv[order@[j] as int]);
        }
        assert(keys@.len() == cv.len());
        assert(stable_sorted(count_le(), cv, order@));
        lemma_count_le_total();
        stable_order_sorts(count_le(), cv);
        stable_order_is_unique(count_le(), cv, order@, stable_order(count_le(), cv));
    }
    let mut out: Vec<(String, usize)> = Vec::new();
    let mut i: usize = 0;
    while i < order.len()
        invariant
            i <= order.len(),
            count_views(keys@) == cv,
            keys.len() == cv.len(),
            forall|k: int| 0 <= k < order.len() ==> 0 <= #[trigger] order@[k] < keys.len(),
            named_counts(out@) == arranged(cv, order@).take(i as int),
        decreases order.len() - i,
    {
        let ghost o0 = out@;
        let key: &CountKey = &keys[order[i]];
        let name: String = key.name.clone();
        out.push((name, key.count));
        proof {
            assert(count_views(keys@)[order@[i as int] as int] == (name@, key.count as nat));
            assert(named_counts(out@) =~= named_counts(o0).push((name@, key.count as nat)));
            assert(named_counts(out@) =~= arranged(cv, order@).take(i + 1));
        }
        i += 1;
    }
    assert(named_counts(out@) =~= arranged(cv, order@));
    out
}

/// The table is sorted by path, and every signal has a handle of its own.
pub proof fn table_is_sorted(d: Seq<DeclView>)
    requires
        d.len() <= usize::MAX,
    ensures
        forall|i: int, j: int|
            0 <= i < j < table_of(d).len() ==> text_at_most(
                (#[trigger] table_of(d)[i]).path,
                (#[trigger] table_of(d)[j]).path,
            ) && table_of(d)[i].handle != table_of(d)[j].handle,
{
    let u = unsorted_table(d);
    let keys = paths_of(u);
    lemma_handles_bounded(d);
    text_le_is_total();
    stable_order_sorts(text_le(), keys);
    lemma_handles_distinct(d);
    let t = table_of(d);
    let order = text_order(keys);
    assert forall|i: int, j: int| 0 <= i < j < t.len() implies text_at_most(
        (#[trigger] t[i]).path,
        (#[trigger] t[j]).path,
    ) && t[i].handle != t[j].handle by {
        assert(stable_before(text_le(), keys, order[i] as int, order[j] as int));
        assert(t[i] == u[order[i] as int] && t[j] == u[order[j] as int]);
        if order[i] == order[j] {
            assert(stable_before(text_le(), keys, order[i] as int, order[i] as int));
        }
    }
}

proof fn lemma_handles_distinct(d: Seq<DeclView>)
    ensures
        handles_of(d).no_duplicates(),
    decreases d.len(),
{
    if d.len() > 0 {
        lemma_handles_distinct(d.drop_last());
    }
}

proof fn lemma_members_hold(d: Seq<DeclView>, k: int)
    requires
        0 <= k < d.len(),
    ensures
        members_of(d, d[k].handle).contains(k),
    decreases d.len(),
{
    let h = d[k].handle;
    let m = members_of(d, h);
    if k == d.len() - 1 {
        assert(m[m.len() - 1] == k);
    } else {
        let less = d.drop_last();
        lemma_members_hold(less, k);
        assert(less[k] == d[k]);
        let r = members_of(less, h);
        let i = choose|i: int| 0 <= i < r.len() && r[i] == k;
        assert(m[i] == k);
    }
}

proof fn lemma_repeats_keep_paths(pairs: Seq<(Seq<char>, Seq<char>)>)
    ensures
        first_of(without_repeats(pairs)) == without_echoes(first_of(pairs)),
    decreases pairs.len(),
{
    if pairs.len() == 0 {
        assert(first_of(without_repeats(pairs)) =~= without_echoes(first_of(pairs)));
    } else {
        let less = pairs.drop_last();
        lemma_repeats_keep_paths(less);
        assert(first_of(pairs).drop_last() =~= first_of(less));
        let rest = without_repeats(less);
        assert(first_of(rest.push(pairs.last())) =~= first_of(rest).push(pairs.last().0));
    }
}

/// The aliases of a signal are different paths in string order, and every
/// declared path is an alias of the signal with its handle.
pub proof fn declared_paths_are_aliases(d: Seq<DeclView>, k: int)
    requires
        d.len() <= usize::MAX,
        0 <= k < d.len(),
    ensures
        ({
            let s = signal_of(d, d[k].handle);
            &&& increasing(s.aliases)
            &&& s.aliases.contains(d[k].path)
            &&& s.handle == d[k].handle
            &&& table_of(d).contains(s)
        }),
{
    let h = d[k].handle;
    let m = members_of(d, h);
    lemma_members_range(d, h);
    lemma_members_hold(d, k);
    lemma_members_bounded(d, h);
    let pairs = alias_list(d, m);
    let keys = first_of(pairs);
    let order = text_order(keys);
    assert(first_of(sorted_aliases(pairs)) =~= arranged(keys, order)) by {
        text_le_is_total();
        stable_order_sorts(text_le(), keys);
    }
    lemma_repeats_keep_paths(sorted_aliases(pairs));
    assert(signal_of(d, h).aliases == sorted_set(keys));
    sorted_set_is_sorted(keys);
    let i = choose|i: int| 0 <= i < m.len() && m[i] == k;
    assert(keys[i] == d[k].path);
    let u = unsorted_table(d);
    lemma_handles_bounded(d);
    text_le_is_total();
    stable_order_sorts(text_le(), paths_of(u));
    let hs = handles_of(d);
    let p = choose|p: int| 0 <= p < hs.len() && hs[p] == h;
    assert(u[p] == signal_of(d, h));
    let o = text_order(paths_of(u));
    assert(lists(o, p));
    let q = choose|q: int| 0 <= q < o.len() && o[q] == p;
    assert(table_of(d)[q] == signal_of(d, h));
}

proof fn lemma_members_ascend(d: Seq<DeclView>, h: usize)
    ensures
        forall|i: int, j: int|
            0 <= i < j < members_of(d, h).len() ==> (#[trigger] members_of(d, h)[i]) < (
            #[trigger] members_of(d, h)[j]),
    decreases d.len(),
{
    if d.len() > 0 {
        let less = d.drop_last();
        lemma_members_ascend(less, h);
        lemma_members_range(less, h);
        let m = members_of(d, h);
        let r = members_of(less, h);
        assert forall|i: int, j: int| 0 <= i < j < m.len() implies (#[trigger] m[i]) < (
        #[trigger] m[j]) by {
            assert(m[i] == r[i]);
            if j < r.len() {
                assert(m[j] == r[j]);
            }
        }
    }
}

proof fn lemma_repeats_hold(pairs: Seq<(Seq<char>, Seq<char>)>, i: int)
    requires
        0 <= i < without_repeats(pairs).len(),
    ensures
        pairs.contains(without_repeats(pairs)[i]),
    decreases pairs.len(),
{
    let less = pairs.drop_last();
    let rest = without_repeats(less);
    if i < rest.len() {
        lemma_repeats_hold(less, i);
        let k = choose|k: int| 0 <= k < less.len() && less[k] == rest[i];
        assert(pairs[k] == without_repeats(pairs)[i]);
    } else {
        assert(pairs[pairs.len() - 1] == without_repeats(pairs)[i]);
    }
}

/// A signal is made of the declarations with its handle: every alias is the
/// path of one of them, with its scope; and the width, the type and the kind
/// are those of the first.
pub proof fn signals_are_their_declarations(d: Seq<DeclView>, s: int)
    requires
        d.len() <= usize::MAX,
        0 <= s < table_of(d).len(),
    ensures
        ({
            let g = table_of(d)[s];
            let first = g.decl_order as int;
            &&& 0 <= first < d.len() && d[first].handle == g.handle
            &&& forall|k: int| 0 <= k < first ==> (#[trigger] d[k]).handle != g.handle
            &&& g.width == d[first].width && g.type_str == d[first].type_str && g.kind
                == d[first].kind
            &&& forall|i: int|
                0 <= i < g.aliases.len() ==> exists|k: int|
                    0 <= k < d.len() && (#[trigger] d[k]).handle == g.handle && d[k].path
                        == #[trigger] g.aliases[i] && d[k].scope == g.scopes[i]
            &&& forall|k: int|
                0 <= k < d.len() && (#[trigger] d[k]).handle == g.handle ==> g.aliases.contains(
                    d[k].path,
                )
            &&& increasing(g.aliases)
            &&& g.path == g.aliases[0]
        }),
{
    let u = unsorted_table(d);
    let o = text_order(paths_of(u));
    lemma_handles_bounded(d);
    text_le_is_total();
    stable_order_sorts(text_le(), paths_of(u));
    let h = handles_of(d)[o[s] as int];
    let g = table_of(d)[s];
    assert(g == signal_of(d, h));
    assert(handles_of(d).contains(h));
    lemma_members_range(d, h);
    lemma_members_ascend(d, h);
    lemma_members_bounded(d, h);
    let m = members_of(d, h);
    let first = m[0];
    assert(d[first].handle == h);
    assert forall|k: int| 0 <= k < first implies (#[trigger] d[k]).handle != h by {
        if d[k].handle == h {
            lemma_members_hold(d, k);
            let i = choose|i: int| 0 <= i < m.len() && m[i] == k;
            if i > 0 {
                assert(m[0] < m[i]);
            }
        }
    }
    let pairs = alias_list(d, m);
    let keys = first_of(pairs);
    let sorted = sorted_aliases(pairs);
    stable_order_sorts(text_le(), keys);
    assert forall|i: int| 0 <= i < g.aliases.len() implies exists|k: int|
        0 <= k < d.len() && (#[trigger] d[k]).handle == h && d[k].path == #[trigger] g.aliases[i]
            && d[k].scope == g.scopes[i] by {
        let kept = without_repeats(sorted);
        lemma_repeats_hold(sorted, i);
        let j = choose|j: int| 0 <= j < sorted.len() && sorted[j] == kept[i];
        let p = text_order(keys)[j] as int;
        assert(sorted[j] == pairs[p]);
        assert(pairs[p] == (d[m[p]].path, d[m[p]].scope));
        assert(d[m[p]].handle == h);
    }
    assert forall|k: int| 0 <= k < d.len() && (#[trigger] d[k]).handle == h implies g.aliases.contains(
        d[k].path,
    ) by {
        declared_paths_are_aliases(d, k);
    }
    declared_paths_are_aliases(d, first);
    table_is_ok(d);
    assert(signal_ok(table_of(d)[s]));
}

/// How many declarations have a type.
pub open spec fn declared_as(d: Seq<DeclView>, t: Seq<char>) -> nat {
    d.filter(|x: DeclView| x.type_str == t).len()
}

proof fn lemma_type_count(d: Seq<DeclView>, t: Seq<char>)
    ensures
        type_count(d, t) == declared_as(d, t),
        types_of(d).contains(t) <==> exists|k: int| 0 <= k < d.len() && (#[trigger] d[k]).type_str == t,
    decreases d.len(),
{
    reveal(Seq::filter);
    if d.len() > 0 {
        let less = d.drop_last();
        let y = d.last().type_str;
        lemma_type_count(less, t);
        let rest = types_of(less);
        assert(d[d.len() - 1].type_str == y);
        if exists|k: int| 0 <= k < less.len() && (#[trigger] less[k]).type_str == t {
            let k = choose|k: int| 0 <= k < less.len() && (#[trigger] less[k]).type_str == t;
            assert(d[k].type_str == t);
        }
        if exists|k: int| 0 <= k < d.len() && (#[trigger] d[k]).type_str == t {
            let k = choose|k: int| 0 <= k < d.len() && (#[trigger] d[k]).type_str == t;
            if k < less.len() {
                assert(less[k].type_str == t);
            }
        }
        if !rest.contains(y) {
            assert(rest.push(y)[rest.len() as int] == y);
            if rest.contains(t) {
                let i = choose|i: int| 0 <= i < rest.len() && rest[i] == t;
                assert(rest.push(y)[i] == t);
            }
            if rest.push(y).contains(t) && t != y {
                let i = choose|i: int| 0 <= i < rest.push(y).len() && rest.push(y)[i] == t;
                assert(rest[i] == t);
            }
        }
    }
}

proof fn lemma_types_bounded(d: Seq<DeclView>)
    ensures
        types_of(d).len() <= d.len(),
        types_of(d).no_duplicates(),
    decreases d.len(),
{
    if d.len() > 0 {
        lemma_types_bounded(d.drop_last());
    }
}

/// The types of a file with how many declarations have each: every type that is
/// declared, once, the most frequent first.
pub proof fn types_are_counted(d: Seq<DeclView>, t: Seq<char>, n: nat)
    requires
        d.len() <= usize::MAX,
    ensures
        type_counts_of(d).contains((t, n)) <==> n == declared_as(d, t) && exists|k: int|
            0 <= k < d.len() && (#[trigger] d[k]).type_str == t,
        type_counts_of(d).no_duplicates(),
        forall|i: int, j: int|
            0 <= i < j < type_counts_of(d).len() ==> (#[trigger] type_counts_of(d)[i]).1 >= (
            #[trigger] type_counts_of(d)[j]).1,
{
    let u = unsorted_counts(d);
    let le = count_le();
    lemma_types_bounded(d);
    lemma_type_count(d, t);
    lemma_count_le_total();
    sorting_keeps_items(u, u, le);
    stable_order_sorts(le, u);
    let ts = types_of(d);
    if u.contains((t, n)) {
        let i = choose|i: int| 0 <= i < u.len() && u[i] == (t, n);
        assert(ts[i] == t);
    }
    if ts.contains(t) && n == type_count(d, t) {
        let i = choose|i: int| 0 <= i < ts.len() && ts[i] == t;
        assert(u[i] == (t, n));
    }
    assert forall|i: int, j: int| 0 <= i < u.len() && 0 <= j < u.len() && i != j implies u[i]
        != u[j] by {
        assert(ts[i] != ts[j]);
    }
    let order = stable_order(le, u);
    assert forall|i: int, j: int| 0 <= i < j < type_counts_of(d).len() implies (
    #[trigger] type_counts_of(d)[i]).1 >= (#[trigger] type_counts_of(d)[j]).1 by {
        assert(stable_before(le, u, order[i] as int, order[j] as int));
    }
}

} // verus!
