//! Choosing signals: by subtree, depth, name and exclusion.
//!
//! The choice is made path by path. A signal is kept when any one of its paths
//! clears every option that was given.

use vstd::prelude::*;

use crate::condition::{csv_items, split_items};
use crate::filter::{
    any_pattern_matches, glob, glob_match, is_separator, pattern_text, patterns_of,
    plain_glob_is_equality, prepare_pattern, Filters, MatchMode, PatternView,
};
use crate::signal::{leaf_of, leaf_text, signal_ok, SignalInfo, SignalView};
use crate::text::{chars_of, has_char, join, joined, lowercase, opt_view, to_lower, views};

verus! {

pub open spec fn named(cur: Seq<char>) -> Seq<Seq<char>> {
    if cur.len() == 0 {
        Seq::empty()
    } else {
        seq![cur]
    }
}

/// The segments of `s`, of which the first begins with `cur`.
pub open spec fn segments_from(s: Seq<char>, cur: Seq<char>) -> Seq<Seq<char>>
    decreases s.len(),
{
    if s.len() == 0 {
        named(cur)
    } else if is_separator(s[0]) {
        named(cur) + segments_from(s.skip(1), Seq::empty())
    } else {
        segments_from(s.skip(1), cur.push(s[0]))
    }
}

/// The non-empty segments of a hierarchical name.
pub open spec fn segments(s: Seq<char>) -> Seq<Seq<char>> {
    segments_from(s, Seq::empty())
}

/// Split a hierarchical name into its non-empty segments.
pub fn split_segments(s: &str) -> (r: Vec<String>)
    ensures
        views(r@) == segments(s@),
{
    let v: Vec<char> = chars_of(s);
    let mut out: Vec<String> = Vec::new();
    let mut cur: String = "".to_owned();
    let mut len: usize = 0;
    let mut i: usize = 0;
    proof {
        reveal_strlit("");
        assert(cur@ =~= Seq::empty());
        assert(v@.skip(0) =~= s@);
        assert(views(out@) + segments_from(s@, Seq::empty()) =~= segments(s@));
    }
    while i < v.len()
        invariant
            i <= v.len(),
            v@ == s@,
            len == cur@.len(),
            len <= i,
            segments(s@) == views(out@) + segments_from(v@.skip(i as int), cur@),
        decreases v.len() - i,
    {
        let c: char = v[i];
        let ghost here = v@.skip(i as int);
        let ghost o0 = views(out@);
        proof {
            assert(here[0] == c);
            assert(here.skip(1) =~= v@.skip(i + 1));
        }
        if c == '.' || c == '/' {
            if len > 0 {
                let ghost w = cur@;
                out.push(cur);
                assert(views(out@) =~= o0.push(w));
                assert(o0 + (seq![w] + segments_from(v@.skip(i + 1), Seq::empty())) =~= views(out@)
                    + segments_from(v@.skip(i + 1), Seq::empty()));
            } else {
                assert(named(cur@) + segments_from(v@.skip(i + 1), Seq::empty())
                    =~= segments_from(v@.skip(i + 1), Seq::empty()));
            }
            cur = "".to_owned();
            len = 0;
            proof {
                reveal_strlit("");
                assert(cur@ =~= Seq::empty());
            }
        } else {
            cur.push(c);
            len += 1;
        }
        i += 1;
    }
    assert(v@.skip(i as int) =~= Seq::empty());
    let ghost o0 = views(out@);
    if len > 0 {
        let ghost w = cur@;
        out.push(cur);
        assert(views(out@) =~= o0 + seq![w]);
    } else {
        assert(o0 + named(cur@) =~= o0);
    }
    out
}

/// Does a scope pattern end at segment `n` of a path? The last of its segments
/// matches the last before `n`, and so on backwards.
pub open spec fn ends_at(pat: Seq<Seq<char>>, path: Seq<Seq<char>>, n: int) -> bool {
    &&& 0 < pat.len() <= n <= path.len()
    &&& forall|i: int|
        0 <= i < pat.len() ==> glob(#[trigger] pat[i], path[n - pat.len() + i])
}

/// Is the path in a subtree that the pattern names, at most `depth` levels
/// below its root?
pub open spec fn in_subtree(
    pat: Seq<Seq<char>>,
    path: Seq<Seq<char>>,
    depth: Option<int>,
) -> bool {
    exists|n: int| #[trigger] ends_at(pat, path, n) && within(path, n, depth)
}

pub open spec fn within(path: Seq<Seq<char>>, n: int, depth: Option<int>) -> bool {
    match depth {
        Some(d) => path.len() - n + 1 <= d,
        None => true,
    }
}

fn matches_end(pat: &Vec<String>, path: &Vec<String>, n: usize) -> (r: bool)
    requires
        n <= path.len(),
    ensures
        r == ends_at(views(pat@), views(path@), n as int),
{
    let ghost pv = views(pat@);
    let ghost sv = views(path@);
    let k: usize = pat.len();
    if k == 0 || k > n {
        return false;
    }
    let mut i: usize = 0;
    while i < k
        invariant
            i <= k == pat.len(),
            0 < k <= n <= path.len(),
            pv == views(pat@),
            sv == views(path@),
            forall|j: int| 0 <= j < i ==> glob(#[trigger] pv[j], sv[n - k + j]),
        decreases k - i,
    {
        assert(pv[i as int] == pat@[i as int]@);
        assert(sv[n - k + i] == path@[n - k + i]@);
        if !glob_match(pat[i].as_str(), path[n - k + i].as_str()) {
            return false;
        }
        i += 1;
    }
    true
}

fn subtree_holds(pat: &Vec<String>, path: &Vec<String>, depth: Option<i64>) -> (r: bool)
    ensures
        r == in_subtree(views(pat@), views(path@), crate::cli::opt_int_view(depth)),
{
    let ghost pv = views(pat@);
    let ghost sv = views(path@);
    let ghost d = crate::cli::opt_int_view(depth);
    let mut n: usize = path.len();
    loop
        invariant
            n <= path.len(),
            pv == views(pat@),
            sv == views(path@),
            d == crate::cli::opt_int_view(depth),
            forall|m: int| n < m ==> !(#[trigger] ends_at(pv, sv, m) && within(sv, m, d)),
        decreases n,
    {
        let near: bool = match depth {
            Some(limit) => {
                let below: usize = path.len() - n;
                limit > 0 && (below as u64) < (limit as u64)
            },
            None => true,
        };
        assert(n > 0 ==> near == within(sv, n as int, d));
        if near && matches_end(pat, path, n) {
            return true;
        }
        if n == 0 {
            return false;
        }
        n -= 1;
    }
}

/// A compiled choice of signals. A part that was not given is `None`.
pub struct SelectionView {
    pub scopes: Option<Seq<Seq<Seq<char>>>>,
    pub depth: Option<int>,
    pub filter: Option<Seq<PatternView>>,
    pub exclude: Option<Seq<PatternView>>,
}

/// Is the scope in one of the subtrees?
pub open spec fn in_scopes(
    pats: Seq<Seq<Seq<char>>>,
    scope: Seq<char>,
    depth: Option<int>,
) -> bool {
    exists|i: int|
        0 <= i < pats.len() && in_subtree(
            #[trigger] pats[i],
            segments(lowercase(scope)),
            depth,
        )
}

pub open spec fn path_matches(pats: Seq<PatternView>, path: Seq<char>, scope: Seq<char>) -> bool {
    any_pattern_matches(pats, lowercase(path), lowercase(leaf_text(path, scope)))
}

/// Does the choice show a path? The name filter has no say in that.
pub open spec fn shows_path(s: SelectionView, path: Seq<char>, scope: Seq<char>) -> bool {
    &&& s.scopes matches Some(pats) ==> in_scopes(pats, scope, s.depth)
    &&& s.exclude matches Some(pats) ==> !path_matches(pats, path, scope)
}

/// Does a path clear every option?
pub open spec fn keeps_path(s: SelectionView, path: Seq<char>, scope: Seq<char>) -> bool {
    &&& shows_path(s, path, scope)
    &&& s.filter matches Some(pats) ==> path_matches(pats, path, scope)
}

/// Is a signal kept? One of its paths is enough.
pub open spec fn keeps(s: SelectionView, sig: SignalView) -> bool {
    exists|i: int|
        0 <= i < sig.aliases.len() && keeps_path(s, #[trigger] sig.aliases[i], sig.scopes[i])
}

/// The first path of a signal that is kept, from `i` on.
pub open spec fn first_kept(s: SelectionView, sig: SignalView, i: int) -> Option<Seq<char>>
    decreases sig.aliases.len() - i,
{
    if i >= sig.aliases.len() {
        None
    } else if keeps_path(s, sig.aliases[i], sig.scopes[i]) {
        Some(sig.aliases[i])
    } else {
        first_kept(s, sig, i + 1)
    }
}

/// Is a signal kept under a path that the patterns match?
pub open spec fn keeps_named(s: SelectionView, sig: SignalView, pats: Seq<PatternView>) -> bool {
    exists|i: int|
        0 <= i < sig.aliases.len() && keeps_path(s, #[trigger] sig.aliases[i], sig.scopes[i])
            && path_matches(pats, sig.aliases[i], sig.scopes[i])
}

/// Is there no choice at all?
pub open spec fn selects_all(s: SelectionView) -> bool {
    s.scopes is None && s.filter is None && s.exclude is None
}

/// Is the scope in one of the subtrees?
fn any_subtree(pats: &Vec<Vec<String>>, scope: &str, depth: Option<i64>) -> (r: bool)
    ensures
        r == in_scopes(segment_views(pats@), scope@, crate::cli::opt_int_view(depth)),
{
    let ghost pv = segment_views(pats@);
    let lower: String = to_lower(scope);
    let segs: Vec<String> = split_segments(lower.as_str());
    let mut i: usize = 0;
    while i < pats.len()
        invariant
            i <= pats.len(),
            pv == segment_views(pats@),
            views(segs@) == segments(lowercase(scope@)),
            forall|k: int|
                0 <= k < i ==> !in_subtree(
                    #[trigger] pv[k],
                    segments(lowercase(scope@)),
                    crate::cli::opt_int_view(depth),
                ),
        decreases pats.len() - i,
    {
        assert(pv[i as int] == views(pats@[i as int]@));
        if subtree_holds(&pats[i], &segs, depth) {
            return true;
        }
        i += 1;
    }
    false
}

/// What a list of scope patterns means.
pub open spec fn scope_patterns(items: Seq<Seq<char>>) -> Result<Seq<Seq<Seq<char>>>, Seq<char>>
    decreases items.len(),
{
    if items.len() == 0 {
        Ok(Seq::empty())
    } else {
        match scope_patterns(items.drop_last()) {
            Err(e) => Err(e),
            Ok(done) => match pattern_text(items.last()) {
                Err(e) => Err(e),
                Ok(t) => Ok(done.push(segments(t))),
            },
        }
    }
}

/// The items of an option; a blank value is the same as none.
pub open spec fn option_items(v: Option<Seq<char>>) -> Seq<Seq<char>> {
    match v {
        Some(t) => csv_items(t),
        None => Seq::empty(),
    }
}

/// What name patterns mean, if any were given.
pub open spec fn named_patterns(v: Option<Seq<char>>, mode: MatchMode) -> Result<
    Option<Seq<PatternView>>,
    Seq<char>,
> {
    let items = option_items(v);
    if items.len() == 0 {
        Ok(None)
    } else {
        match patterns_of(items, mode) {
            Ok(p) => Ok(Some(p)),
            Err(e) => Err(e),
        }
    }
}

/// What the selection options mean.
pub open spec fn selection_meaning(
    scope: Option<Seq<char>>,
    depth: Option<int>,
    filter: Option<Seq<char>>,
    exclude: Option<Seq<char>>,
    mode: MatchMode,
) -> Result<SelectionView, Seq<char>> {
    let items = option_items(scope);
    match scope_patterns(items) {
        Err(e) => Err(e),
        Ok(pats) => match named_patterns(filter, mode) {
            Err(e) => Err(e),
            Ok(f) => match named_patterns(exclude, mode) {
                Err(e) => Err(e),
                Ok(x) => Ok(
                    SelectionView {
                        scopes: if items.len() == 0 {
                            None
                        } else {
                            Some(pats)
                        },
                        depth,
                        filter: f,
                        exclude: x,
                    },
                ),
            },
        },
    }
}

/// A compiled choice of signals.
pub struct Selection {
    scopes: Option<Vec<Vec<String>>>,
    depth: Option<i64>,
    filter: Option<Filters>,
    exclude: Option<Filters>,
}

pub open spec fn segment_views(v: Seq<Vec<String>>) -> Seq<Seq<Seq<char>>> {
    v.map_values(|p: Vec<String>| views(p@))
}

spec fn opt_filters(f: Option<Filters>) -> Option<Seq<PatternView>> {
    match f {
        Some(p) => Some(p@),
        None => None,
    }
}

impl View for Selection {
    type V = SelectionView;

    closed spec fn view(&self) -> SelectionView {
        SelectionView {
            scopes: match self.scopes {
                Some(v) => Some(segment_views(v@)),
                None => None,
            },
            depth: crate::cli::opt_int_view(self.depth),
            filter: opt_filters(self.filter),
            exclude: opt_filters(self.exclude),
        }
    }
}

proof fn lemma_scope_fail(items: Seq<Seq<char>>, n: int, e: Seq<char>)
    requires
        0 < n <= items.len(),
        scope_patterns(items.take(n)) == Err::<Seq<Seq<Seq<char>>>, Seq<char>>(e),
    ensures
        scope_patterns(items) == Err::<Seq<Seq<Seq<char>>>, Seq<char>>(e),
    decreases items.len() - n,
{
    if n < items.len() {
        assert(items.take(n + 1).drop_last() =~= items.take(n));
        lemma_scope_fail(items, n + 1, e);
    } else {
        assert(items.take(n) =~= items);
    }
}

fn compile_scopes(items: &Vec<String>) -> (r: Result<Vec<Vec<String>>, String>)
    ensures
        match r {
            Ok(v) => scope_patterns(views(items@)) == Ok::<Seq<Seq<Seq<char>>>, Seq<char>>(
                segment_views(v@),
            ),
            Err(e) => scope_patterns(views(items@)) == Err::<Seq<Seq<Seq<char>>>, Seq<char>>(e@),
        },
{
    let ghost all = views(items@);
    let mut out: Vec<Vec<String>> = Vec::new();
    let mut i: usize = 0;
    assert(all.take(0) =~= Seq::empty());
    assert(segment_views(out@) =~= Seq::empty());
    while i < items.len()
        invariant
            i <= items.len(),
            all == views(items@),
            scope_patterns(all.take(i as int)) == Ok::<Seq<Seq<Seq<char>>>, Seq<char>>(
                segment_views(out@),
            ),
        decreases items.len() - i,
    {
        proof {
            assert(all.take(i + 1).drop_last() =~= all.take(i as int));
            assert(all.take(i + 1).last() == items@[i as int]@);
        }
        match prepare_pattern(items[i].as_str()) {
            Err(e) => {
                proof {
                    lemma_scope_fail(all, i + 1, e.0@);
                }
                return Err(e.0);
            },
            Ok(t) => {
                let ghost o0 = segment_views(out@);
                let segs: Vec<String> = split_segments(t.as_str());
                out.push(segs);
                assert(segment_views(out@) =~= o0.push(segments(t@)));
            },
        }
        i += 1;
    }
    assert(all.take(i as int) =~= all);
    Ok(out)
}

fn items_of(v: &Option<String>) -> (r: Vec<String>)
    ensures
        views(r@) == option_items(opt_view(*v)),
        r.len() == option_items(opt_view(*v)).len(),
{
    match v {
        Some(t) => split_items(t.as_str()),
        None => {
            let r: Vec<String> = Vec::new();
            assert(views(r@) =~= Seq::empty());
            r
        },
    }
}

fn compile_names(v: &Option<String>, mode: MatchMode) -> (r: Result<Option<Filters>, String>)
    ensures
        match r {
            Ok(f) => named_patterns(opt_view(*v), mode) == Ok::<
                Option<Seq<PatternView>>,
                Seq<char>,
            >(opt_filters(f)),
            Err(e) => named_patterns(opt_view(*v), mode) == Err::<
                Option<Seq<PatternView>>,
                Seq<char>,
            >(e@),
        },
{
    let items: Vec<String> = items_of(v);
    if items.len() == 0 {
        return Ok(None);
    }
    match v {
        None => Ok(None),
        Some(t) => match Filters::parse_csv_mode(t.as_str(), mode) {
            Ok(f) => Ok(Some(f)),
            Err(e) => Err(e.0),
        },
    }
}

impl Selection {
    /// Compile the selection options, matching names by substring.
    pub fn parse(
        scope: &Option<String>,
        depth: Option<i64>,
        filter: &Option<String>,
        exclude: &Option<String>,
    ) -> (r: Result<Selection, String>)
        ensures
            match r {
                Ok(s) => selection_meaning(
                    opt_view(*scope),
                    crate::cli::opt_int_view(depth),
                    opt_view(*filter),
                    opt_view(*exclude),
                    MatchMode::Substring,
                ) == Ok::<SelectionView, Seq<char>>(s@),
                Err(e) => selection_meaning(
                    opt_view(*scope),
                    crate::cli::opt_int_view(depth),
                    opt_view(*filter),
                    opt_view(*exclude),
                    MatchMode::Substring,
                ) == Err::<SelectionView, Seq<char>>(e@),
            },
    {
        Selection::parse_mode(scope, depth, filter, exclude, MatchMode::Substring)
    }

    /// Compile the selection options.
    pub fn parse_mode(
        scope: &Option<String>,
        depth: Option<i64>,
        filter: &Option<String>,
        exclude: &Option<String>,
        mode: MatchMode,
    ) -> (r: Result<Selection, String>)
        ensures
            match r {
                Ok(s) => selection_meaning(
                    opt_view(*scope),
                    crate::cli::opt_int_view(depth),
                    opt_view(*filter),
                    opt_view(*exclude),
                    mode,
                ) == Ok::<SelectionView, Seq<char>>(s@),
                Err(e) => selection_meaning(
                    opt_view(*scope),
                    crate::cli::opt_int_view(depth),
                    opt_view(*filter),
                    opt_view(*exclude),
                    mode,
                ) == Err::<SelectionView, Seq<char>>(e@),
            },
    {
        let items: Vec<String> = items_of(scope);
        let pats: Vec<Vec<String>> = match compile_scopes(&items) {
            Ok(v) => v,
            Err(e) => {
                return Err(e);
            },
        };
        let f: Option<Filters> = match compile_names(filter, mode) {
            Ok(f) => f,
            Err(e) => {
                return Err(e);
            },
        };
        let x: Option<Filters> = match compile_names(exclude, mode) {
            Ok(f) => f,
            Err(e) => {
                return Err(e);
            },
        };
        let scopes: Option<Vec<Vec<String>>> = if items.len() == 0 {
            None
        } else {
            Some(pats)
        };
        Ok(Selection { scopes, depth, filter: f, exclude: x })
    }

    /// Is there no choice at all?
    pub fn is_all(&self) -> (r: bool)
        ensures
            r == selects_all(self@),
    {
        self.scopes.is_none() && self.filter.is_none() && self.exclude.is_none()
    }

    fn scope_allowed(&self, scope: &str) -> (r: bool)
        ensures
            r == (self@.scopes matches Some(pats) ==> in_scopes(pats, scope@, self@.depth)),
    {
        match &self.scopes {
            None => true,
            Some(pats) => any_subtree(pats, scope, self.depth),
        }
    }

    /// Does the choice show a path? The name filter has no say in that.
    pub fn displays_alias(&self, path: &str, scope: &str) -> (r: bool)
        ensures
            r == shows_path(self@, path@, scope@),
    {
        if !self.scope_allowed(scope) {
            return false;
        }
        match &self.exclude {
            Some(f) => !f.matches_path_leaf(path, leaf_of(path, scope)),
            None => true,
        }
    }

    /// Does a path clear every option?
    pub fn keeps_alias(&self, path: &str, scope: &str) -> (r: bool)
        ensures
            r == keeps_path(self@, path@, scope@),
    {
        if !self.displays_alias(path, scope) {
            return false;
        }
        match &self.filter {
            Some(f) => f.matches_path_leaf(path, leaf_of(path, scope)),
            None => true,
        }
    }

    /// The first path of a signal that is kept.
    pub fn matched_alias<'a>(&self, info: &'a SignalInfo) -> (r: Option<&'a str>)
        requires
            signal_ok(info@),
        ensures
            crate::condition::str_view(r) == first_kept(self@, info@, 0),
            r is Some <==> keeps(self@, info@),
    {
        let ghost sig = info@;
        let mut i: usize = 0;
        while i < info.aliases.len()
            invariant
                i <= info.aliases.len(),
                sig == info@,
                signal_ok(sig),
                first_kept(self@, sig, 0) == first_kept(self@, sig, i as int),
                forall|k: int|
                    0 <= k < i ==> !keeps_path(self@, #[trigger] sig.aliases[k], sig.scopes[k]),
            decreases info.aliases.len() - i,
        {
            assert(sig.aliases[i as int] == info.aliases@[i as int]@);
            assert(sig.scopes[i as int] == info.alias_scopes@[i as int]@);
            if self.keeps_alias(info.aliases[i].as_str(), info.alias_scopes[i].as_str()) {
                assert(keeps(self@, sig));
                return Some(info.aliases[i].as_str());
            }
            i += 1;
        }
        None
    }

    /// Is a signal kept?
    pub fn keeps_signal(&self, info: &SignalInfo) -> (r: bool)
        requires
            signal_ok(info@),
        ensures
            r == keeps(self@, info@),
    {
        self.matched_alias(info).is_some()
    }

    /// Is a signal kept under a path that the patterns match?
    pub fn keeps_signal_matching(&self, info: &SignalInfo, filters: &Filters) -> (r: bool)
        requires
            signal_ok(info@),
        ensures
            r == keeps_named(self@, info@, filters@),
    {
        let ghost sig = info@;
        let mut i: usize = 0;
        while i < info.aliases.len()
            invariant
                i <= info.aliases.len(),
                sig == info@,
                signal_ok(sig),
                forall|k: int|
                    0 <= k < i ==> !(keeps_path(self@, #[trigger] sig.aliases[k], sig.scopes[k])
                        && path_matches(filters@, sig.aliases[k], sig.scopes[k])),
            decreases info.aliases.len() - i,
        {
            assert(sig.aliases[i as int] == info.aliases@[i as int]@);
            assert(sig.scopes[i as int] == info.alias_scopes@[i as int]@);
            let path: &str = info.aliases[i].as_str();
            let scope: &str = info.alias_scopes[i].as_str();
            if self.keeps_alias(path, scope) && filters.matches_path_leaf(
                path,
                leaf_of(path, scope),
            ) {
                return true;
            }
            i += 1;
        }
        false
    }

    /// The options that are in force.
    pub fn active_gates(&self) -> (r: String)
        ensures
            r@ == gates(self@),
    {
        let mut names: Vec<String> = Vec::new();
        assert(views(names@) =~= Seq::empty());
        if self.scopes.is_some() {
            let ghost n0 = views(names@);
            names.push("--scope".to_owned());
            assert(views(names@) =~= n0.push("--scope"@));
        }
        if self.depth.is_some() {
            let ghost n0 = views(names@);
            names.push("--depth".to_owned());
            assert(views(names@) =~= n0.push("--depth"@));
        }
        if self.filter.is_some() {
            let ghost n0 = views(names@);
            names.push("--filter".to_owned());
            assert(views(names@) =~= n0.push("--filter"@));
        }
        if self.exclude.is_some() {
            let ghost n0 = views(names@);
            names.push("--exclude".to_owned());
            assert(views(names@) =~= n0.push("--exclude"@));
        }
        assert(views(names@) =~= gate_names(self@));
        join(&names, ", ")
    }
}

pub open spec fn gate_name(given: bool, name: Seq<char>) -> Seq<Seq<char>> {
    if given {
        seq![name]
    } else {
        Seq::empty()
    }
}

/// The names of the options that are in force.
pub open spec fn gate_names(s: SelectionView) -> Seq<Seq<char>> {
    gate_name(s.scopes is Some, "--scope"@) + gate_name(s.depth is Some, "--depth"@) + gate_name(
        s.filter is Some,
        "--filter"@,
    ) + gate_name(s.exclude is Some, "--exclude"@)
}

pub open spec fn gates(s: SelectionView) -> Seq<char> {
    joined(gate_names(s), ", "@)
}

/// A blank value of an option is the same as none.
pub proof fn blank_option_is_none(t: Seq<char>, mode: MatchMode)
    requires
        csv_items(t).len() == 0,
    ensures
        named_patterns(Some(t), mode) == named_patterns(None, mode),
        option_items(Some(t)) == option_items(None),
{
    assert(csv_items(t) =~= Seq::empty());
}

/// A path that is kept is also shown, and a choice without any option keeps
/// every path.
pub proof fn kept_paths_are_shown(s: SelectionView, path: Seq<char>, scope: Seq<char>)
    ensures
        keeps_path(s, path, scope) ==> shows_path(s, path, scope),
        selects_all(s) ==> keeps_path(s, path, scope),
{
}

/// An exclusion only takes away: what is kept with it is kept without it, and
/// its own matches are not kept.
pub proof fn exclusion_takes_away(s: SelectionView, path: Seq<char>, scope: Seq<char>)
    ensures
        keeps_path(s, path, scope) ==> keeps_path(
            SelectionView { exclude: None, ..s },
            path,
            scope,
        ),
        s.exclude is Some && path_matches(s.exclude->0, path, scope) ==> !keeps_path(
            s,
            path,
            scope,
        ),
{
}

/// A larger depth keeps no fewer paths, and so does no depth at all.
pub proof fn depth_is_monotonic(s: SelectionView, d: int, path: Seq<char>, scope: Seq<char>)
    requires
        s.depth matches Some(n) ==> n <= d,
        s.depth is Some,
        keeps_path(s, path, scope),
    ensures
        keeps_path(SelectionView { depth: Some(d), ..s }, path, scope),
        keeps_path(SelectionView { depth: None, ..s }, path, scope),
{
    if s.scopes is Some {
        let pats = s.scopes->0;
        let segs = segments(lowercase(scope));
        let i = choose|i: int|
            0 <= i < pats.len() && in_subtree(#[trigger] pats[i], segs, s.depth);
        let n = choose|n: int| #[trigger] ends_at(pats[i], segs, n) && within(segs, n, s.depth);
        assert(ends_at(pats[i], segs, n) && within(segs, n, Some(d)));
        assert(in_subtree(pats[i], segs, Some(d)));
        assert(ends_at(pats[i], segs, n) && within(segs, n, None));
        assert(in_subtree(pats[i], segs, None));
    }
}

/// Scope patterns go segment by segment: where a pattern without wildcards
/// finds a scope in its subtree, its segments stand in the scope as they are.
pub proof fn scope_segments_are_whole(
    pat: Seq<Seq<char>>,
    path: Seq<Seq<char>>,
    depth: Option<int>,
)
    requires
        forall|i: int| 0 <= i < pat.len() ==> !has_char(#[trigger] pat[i], '*') && !has_char(pat[i], '?'),
        in_subtree(pat, path, depth),
    ensures
        exists|n: int|
            0 < pat.len() <= n <= path.len() && #[trigger] path.subrange(n - pat.len(), n) == pat,
{
    let n = choose|n: int| #[trigger] ends_at(pat, path, n) && within(path, n, depth);
    let part = path.subrange(n - pat.len(), n);
    assert forall|i: int| 0 <= i < pat.len() implies part[i] == pat[i] by {
        assert(glob(pat[i], path[n - pat.len() + i]));
        plain_glob_is_equality(pat[i], path[n - pat.len() + i]);
    }
    assert(part =~= pat);
}

/// One path that clears every option keeps the signal, whatever becomes of its
/// other paths.
pub proof fn one_path_is_enough(s: SelectionView, sig: SignalView, i: int)
    requires
        0 <= i < sig.aliases.len(),
        keeps_path(s, sig.aliases[i], sig.scopes[i]),
    ensures
        keeps(s, sig),
{
}

} // verus!
