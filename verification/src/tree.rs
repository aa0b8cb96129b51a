//! The `tree` command: the scopes of the design, or the ones above a signal.

use vstd::prelude::*;

use crate::backend::WaveformBackend;
use crate::cli::{Args, ArgsView};
use crate::dump::{opt_line, push_opt_line};
use crate::filter::MatchMode;
use crate::format::{pyrepr, repr};
use crate::hierarchy::{
    all_scopes, capped, enclosing, lineage, node_of, node_views, outermost, parent_of,
    paths_in_scope, prefixes, walked_all, Index, Node, NodeView,
};
use crate::info::{text_array, texts_json};
use crate::json::{array, json_views, Json, JsonView, Obj};
use crate::model::Wave;
use crate::number::{dec, usize_text};
use crate::report::{
    clip_len, count_json, count_members, count_view, hint_json, limit_of, limit_view, path_meant,
    push_counts, resolve_signal_path, shown_count, trunc_hint, trunc_hint_text, trunc_line,
    trunc_text, with_hint, Hints,
};
use crate::resolve::{marked, numbers_agree, numbers_where};
use crate::select::{keeps_path, selection_meaning, Selection, SelectionView};
use crate::signal::SignalView;
use crate::text::{
    left_justified, ljust, opt_view, repeat, repeated, trim, trimmed, views,
};

verus! {

/// What `tree` found: a signal's chain of scopes, or subtrees.
pub struct TreeData {
    /// The signal whose chain it is.
    pub of: Option<String>,
    /// The scopes at which the subtrees begin.
    pub roots: Vec<String>,
    pub depth: usize,
    pub nodes: Vec<Node>,
    /// The number of paths outside any scope.
    pub root_signals: usize,
}

pub struct TreeView {
    pub of: Option<Seq<char>>,
    pub roots: Seq<Seq<char>>,
    pub depth: nat,
    pub nodes: Seq<NodeView>,
    pub root_signals: nat,
}

impl View for TreeData {
    type V = TreeView;

    open spec fn view(&self) -> TreeView {
        TreeView {
            of: opt_view(self.of),
            roots: views(self.roots@),
            depth: self.depth as nat,
            nodes: node_views(self.nodes@),
            root_signals: self.root_signals as nat,
        }
    }
}

/// An option's value, unless it is blank.
pub open spec fn unless_blank(v: Option<Seq<char>>) -> Option<Seq<char>> {
    match v {
        Some(s) => if trimmed(s).len() == 0 {
            None
        } else {
            Some(trimmed(s))
        },
        None => None,
    }
}

/// An option's value, unless it is blank.
pub fn pick(v: &Option<String>) -> (r: Option<String>)
    ensures
        opt_view(r) == unless_blank(opt_view(*v)),
{
    match v {
        Some(s) => {
            let t: &str = trim(s.as_str());
            if t.is_empty() {
                None
            } else {
                Some(t.to_owned())
            }
        },
        None => None,
    }
}

/// The scope to begin at: the positional argument, or else `--scope`.
pub open spec fn root_pattern(a: ArgsView) -> Option<Seq<char>> {
    match unless_blank(a.target) {
        Some(t) => Some(t),
        None => unless_blank(a.scope),
    }
}

fn root_pattern_of(args: &Args) -> (r: Option<String>)
    ensures
        opt_view(r) == root_pattern(args@),
{
    match pick(&args.target) {
        Some(t) => Some(t),
        None => pick(&args.scope),
    }
}

/// Does a choice of scopes take in a scope?
pub open spec fn takes_in(s: SelectionView, scope: Seq<char>) -> bool {
    keeps_path(s, ""@, scope)
}

/// Does a subtree of the choice begin at this scope?
pub open spec fn begins_at(s: SelectionView, scope: Seq<char>) -> bool {
    takes_in(s, scope) && match enclosing(scope) {
        Some(p) => !takes_in(s, p),
        None => true,
    }
}

/// The scopes at which the subtrees begin, as positions.
pub open spec fn roots_of(table: Seq<SignalView>, a: ArgsView) -> Result<Seq<usize>, Seq<char>> {
    let scopes = all_scopes(table);
    match root_pattern(a) {
        None => Ok(outermost(scopes)),
        Some(p) => match selection_meaning(Some(p), None, None, None, MatchMode::Substring) {
            Err(e) => Err(e),
            Ok(s) => {
                let found = numbers_where(scopes.len(), |k: int| begins_at(s, scopes[k]));
                if found.len() == 0 {
                    Err(
                        "no scope matches "@ + repr(p)
                            + "; run tree without a scope to see the top level"@,
                    )
                } else {
                    Ok(found)
                }
            },
        },
    }
}

/// The number of levels below the root that are shown.
pub open spec fn depth_of(a: ArgsView) -> nat {
    match a.depth {
        Some(d) => if d < 1 {
            1
        } else {
            capped(d as nat)
        },
        None => 1,
    }
}

fn depth_asked(args: &Args) -> (n: usize)
    ensures
        n == depth_of(args@),
        n >= 1,
{
    match args.depth {
        Some(d) => if d < 1 {
            1
        } else {
            let v: u64 = d as u64;
            let top: usize = usize::MAX;
            if v > top as u64 {
                top
            } else {
                v as usize
            }
        },
        None => 1,
    }
}

/// The scopes above and including `scope`, one level each.
pub open spec fn chain_nodes(table: Seq<SignalView>, scope: Seq<char>) -> Seq<NodeView> {
    if scope.len() == 0 {
        Seq::empty()
    } else {
        Seq::new(lineage(scope).len(), |i: int| node_of(table, lineage(scope)[i], i as nat))
    }
}

/// The texts at the given positions.
pub open spec fn texts_at(v: Seq<Seq<char>>, p: Seq<usize>) -> Seq<Seq<char>> {
    p.map_values(|i: usize| v[i as int])
}

/// What `tree` finds.
pub open spec fn tree_of(table: Seq<SignalView>, a: ArgsView) -> Result<TreeView, Seq<char>> {
    let root_signals = capped(paths_in_scope(table, Seq::empty()));
    match a.of {
        Some(pat) => if trimmed(pat).len() > 0 {
            match path_meant(table, pat, "--of"@) {
                Err(e) => Err(e),
                Ok((path, scope)) => Ok(
                    TreeView {
                        of: Some(path),
                        roots: if scope.len() == 0 {
                            Seq::empty()
                        } else {
                            seq![scope]
                        },
                        depth: depth_of(a),
                        nodes: chain_nodes(table, scope),
                        root_signals,
                    },
                ),
            }
        } else {
            subtrees_of(table, a)
        },
        None => subtrees_of(table, a),
    }
}

pub open spec fn subtrees_of(table: Seq<SignalView>, a: ArgsView) -> Result<TreeView, Seq<char>> {
    match roots_of(table, a) {
        Err(e) => Err(e),
        Ok(roots) => Ok(
            TreeView {
                of: None,
                roots: texts_at(all_scopes(table), roots),
                depth: depth_of(a),
                nodes: walked_all(table, roots, 0, depth_of(a)),
                root_signals: capped(paths_in_scope(table, Seq::empty())),
            },
        ),
    }
}

fn scope_begins(sel: &Selection, scope: &str) -> (r: bool)
    ensures
        r == begins_at(sel@, scope@),
{
    sel.keeps_alias("", scope) && match parent_of(scope) {
        Some(p) => !sel.keeps_alias("", p.as_str()),
        None => true,
    }
}

fn find_roots(index: &Index, sel: &Selection) -> (r: Vec<usize>)
    ensures
        r@ == numbers_where(
            all_scopes(index@).len(),
            |k: int| begins_at(sel@, all_scopes(index@)[k]),
        ),
        forall|k: int| 0 <= k < r@.len() ==> (#[trigger] r@[k]) < all_scopes(index@).len(),
{
    let scopes: &Vec<String> = index.scopes();
    let ghost sv = views(scopes@);
    let mut marks: Vec<bool> = Vec::new();
    let mut i: usize = 0;
    while i < scopes.len()
        invariant
            i <= scopes.len(),
            sv == views(scopes@),
            marks.len() == i,
            forall|k: int| 0 <= k < i ==> #[trigger] marks@[k] == begins_at(sel@, sv[k]),
        decreases scopes.len() - i,
    {
        assert(sv[i as int] == scopes@[i as int]@);
        marks.push(scope_begins(sel, scopes[i].as_str()));
        i += 1;
    }
    let r: Vec<usize> = marked(&marks);
    proof {
        assert(sv.len() == marks@.len());
        numbers_agree(sv.len(), |k: int| marks@[k], |k: int| begins_at(sel@, sv[k]));
    }
    r
}

fn copy_all(v: &Vec<usize>) -> (r: Vec<usize>)
    ensures
        r@ == v@,
{
    let n: usize = v.len();
    let r: Vec<usize> = crate::model::copy_range(v, 0, n);
    assert(v@.subrange(0, n as int) =~= v@);
    r
}

fn roots(index: &Index, args: &Args) -> (r: Result<Vec<usize>, String>)
    ensures
        match r {
            Ok(v) => roots_of(index@, args@) == Ok::<Seq<usize>, Seq<char>>(v@) && forall|k: int|
                0 <= k < v@.len() ==> (#[trigger] v@[k]) < all_scopes(index@).len(),
            Err(e) => roots_of(index@, args@) == Err::<Seq<usize>, Seq<char>>(e@),
        },
{
    let pattern: Option<String> = root_pattern_of(args);
    if pattern.is_none() {
        return Ok(copy_all(index.tops()));
    }
    match Selection::parse(&pattern, None, &None, &None) {
        Err(e) => Err(e),
        Ok(sel) => {
            let found: Vec<usize> = find_roots(index, &sel);
            if found.len() > 0 {
                return Ok(found);
            }
            match pattern {
                Some(p) => {
                    let mut m: String = "no scope matches ".to_owned();
                    m.push_str(pyrepr(p.as_str()).as_str());
                    m.push_str("; run tree without a scope to see the top level");
                    Err(m)
                },
                None => Ok(found),
            }
        },
    }
}

fn collect_chain(index: &Index, scope: &str) -> (r: Vec<Node>)
    ensures
        node_views(r@) == chain_nodes(index@, scope@),
{
    let mut r: Vec<Node> = Vec::new();
    if scope.is_empty() {
        assert(node_views(r@) =~= Seq::empty());
        return r;
    }
    let above: Vec<String> = prefixes(scope);
    let ghost lv = lineage(scope@);
    let mut i: usize = 0;
    while i < above.len()
        invariant
            i <= above.len(),
            lv == views(above@),
            r.len() == i,
            forall|k: int| 0 <= k < i ==> (#[trigger] r@[k])@ == node_of(index@, lv[k], k as nat),
        decreases above.len() - i,
    {
        assert(lv[i as int] == above@[i as int]@);
        r.push(index.node(above[i].as_str(), i));
        i += 1;
    }
    assert(node_views(r@) =~= chain_nodes(index@, scope@));
    r
}

fn collect_subtrees(index: &Index, roots: &Vec<usize>, depth: usize) -> (r: Vec<Node>)
    requires
        forall|k: int| 0 <= k < roots@.len() ==> (#[trigger] roots@[k]) < all_scopes(index@).len(),
    ensures
        node_views(r@) == walked_all(index@, roots@, 0, depth as nat),
{
    let mut r: Vec<Node> = Vec::new();
    let mut i: usize = 0;
    assert(roots@.take(0) =~= Seq::empty());
    assert(node_views(r@) =~= Seq::empty());
    while i < roots.len()
        invariant
            i <= roots.len(),
            forall|k: int|
                0 <= k < roots@.len() ==> (#[trigger] roots@[k]) < all_scopes(index@).len(),
            node_views(r@) == walked_all(index@, roots@.take(i as int), 0, depth as nat),
        decreases roots.len() - i,
    {
        proof {
            assert(roots@.take(i + 1).drop_last() =~= roots@.take(i as int));
            assert(roots@.take(i + 1).last() == roots@[i as int]);
            assert(roots@[i as int] < all_scopes(index@).len());
        }
        index.walk(roots[i], 0, depth, &mut r);
        i += 1;
    }
    assert(roots@.take(i as int) =~= roots@);
    r
}

fn root_paths(index: &Index, roots: &Vec<usize>) -> (r: Vec<String>)
    requires
        forall|k: int| 0 <= k < roots@.len() ==> (#[trigger] roots@[k]) < all_scopes(index@).len(),
    ensures
        views(r@) == texts_at(all_scopes(index@), roots@),
{
    let scopes: &Vec<String> = index.scopes();
    let ghost sv = views(scopes@);
    let mut r: Vec<String> = Vec::new();
    let mut i: usize = 0;
    while i < roots.len()
        invariant
            i <= roots.len(),
            sv == views(scopes@),
            forall|k: int| 0 <= k < roots@.len() ==> (#[trigger] roots@[k]) < sv.len(),
            r.len() == i,
            forall|k: int| 0 <= k < i ==> (#[trigger] r@[k])@ == sv[roots@[k] as int],
        decreases roots.len() - i,
    {
        let p: usize = roots[i];
        assert(roots@[i as int] < sv.len());
        assert(sv[p as int] == scopes@[p as int]@);
        r.push(scopes[p].clone());
        i += 1;
    }
    assert(views(r@) =~= texts_at(sv, roots@));
    r
}

fn subtrees(index: &Index, args: &Args) -> (r: Result<TreeData, String>)
    ensures
        match r {
            Ok(d) => subtrees_of(index@, args@) == Ok::<TreeView, Seq<char>>(d@),
            Err(e) => subtrees_of(index@, args@) == Err::<TreeView, Seq<char>>(e@),
        },
{
    match roots(index, args) {
        Err(e) => Err(e),
        Ok(found) => {
            let depth: usize = depth_asked(args);
            Ok(
                TreeData {
                    of: None,
                    roots: root_paths(index, &found),
                    depth,
                    nodes: collect_subtrees(index, &found, depth),
                    root_signals: index.root_signals(),
                },
            )
        },
    }
}

/// Collect what `tree` shows.
pub fn tree_data<B: WaveformBackend>(wave: &Wave<B>, args: &Args) -> (r: Result<TreeData, String>)
    requires
        wave.wf(),
    ensures
        match r {
            Ok(d) => tree_of(wave.table(), args@) == Ok::<TreeView, Seq<char>>(d@),
            Err(e) => tree_of(wave.table(), args@) == Err::<TreeView, Seq<char>>(e@),
        },
{
    proof {
        wave.table_is_ok();
    }
    let index: Index = Index::build(wave.signals(), &wave.scopes());
    match &args.of {
        Some(pat) => {
            if trim(pat.as_str()).is_empty() {
                return subtrees(&index, args);
            }
            match resolve_signal_path(wave.signals(), pat.as_str(), "--of") {
                Err(e) => Err(e),
                Ok((path, scope)) => {
                    let nodes: Vec<Node> = collect_chain(&index, scope.as_str());
                    let mut roots: Vec<String> = Vec::new();
                    if !scope.as_str().is_empty() {
                        roots.push(scope.clone());
                    }
                    assert(views(roots@) =~= (if scope@.len() == 0 {
                        Seq::empty()
                    } else {
                        seq![scope@]
                    }));
                    Ok(
                        TreeData {
                            of: Some(path),
                            roots,
                            depth: depth_asked(args),
                            nodes,
                            root_signals: index.root_signals(),
                        },
                    )
                },
            }
        },
        None => subtrees(&index, args),
    }
}

pub open spec fn node_json(n: NodeView) -> JsonView {
    JsonView::Object(
        seq![
            ("path"@, JsonView::Str(n.path)),
            ("name"@, JsonView::Str(n.name)),
            ("level"@, count_view(n.level as int)),
            ("signals"@, count_view(n.signals as int)),
            ("children"@, count_view(n.children as int)),
        ],
    )
}

pub open spec fn tree_head(d: TreeView) -> Seq<(Seq<char>, JsonView)> {
    match d.of {
        Some(sig) => seq![("mode"@, JsonView::Str("chain"@)), ("signal"@, JsonView::Str(sig))],
        None => seq![
            ("mode"@, JsonView::Str("subtree"@)),
            ("roots"@, texts_json(d.roots)),
            ("depth"@, count_view(d.depth as int)),
            ("root_signals"@, count_view(d.root_signals as int)),
        ],
    }
}

/// What `tree` writes as JSON.
pub open spec fn tree_json(d: TreeView, limit: int) -> JsonView {
    let total = d.nodes.len();
    let shown = shown_count(total as int, limit);
    let hints = with_hint(
        Seq::empty(),
        trunc_hint_text(shown < total, shown as nat, total, true, "scopes"@),
    );
    JsonView::Object(
        (tree_head(d) + count_members(shown, total as int, true, shown < total)).push(
            ("hint"@, hint_json(hints)),
        ).push(
            (
                if d.of is Some {
                    "chain"@
                } else {
                    "scopes"@
                },
                JsonView::Array(d.nodes.take(shown).map_values(|n: NodeView| node_json(n))),
            ),
        ),
    )
}

fn node_array(nodes: &Vec<Node>, shown: usize) -> (v: Vec<Json>)
    requires
        shown <= nodes@.len(),
    ensures
        json_views(v@) == node_views(nodes@).take(shown as int).map_values(
            |n: NodeView| node_json(n),
        ),
{
    let ghost nv = node_views(nodes@);
    let mut v: Vec<Json> = Vec::new();
    let mut i: usize = 0;
    while i < shown
        invariant
            i <= shown <= nodes@.len(),
            nv == node_views(nodes@),
            v.len() == i,
            forall|k: int| 0 <= k < i ==> (#[trigger] v@[k])@ == node_json(nv[k]),
        decreases shown - i,
    {
        let n: &Node = &nodes[i];
        assert(nv[i as int] == n@);
        let o: Obj = Obj::new().push("path", Json::str(n.path.as_str())).push(
            "name",
            Json::str(n.name.as_str()),
        ).push("level", count_json(n.level)).push("signals", count_json(n.signals)).push(
            "children",
            count_json(n.children),
        );
        assert(o@ =~= node_json(n@)->Object_0);
        v.push(o.build());
        i += 1;
    }
    assert(json_views(v@) =~= nv.take(shown as int).map_values(|n: NodeView| node_json(n)));
    v
}

/// Render what `tree` found as JSON.
pub fn tree_to_json(d: &TreeData, limit: usize) -> (j: Json)
    ensures
        j@ == tree_json(d@, limit as int),
{
    let ghost dv = d@;
    let total: usize = d.nodes.len();
    assert(dv.nodes.len() == total);
    let (shown, trunc) = clip_len(total, limit);
    let head: Obj = match &d.of {
        Some(sig) => Obj::new().push("mode", Json::str("chain")).push(
            "signal",
            Json::str(sig.as_str()),
        ),
        None => Obj::new().push("mode", Json::str("subtree")).push(
            "roots",
            text_array(&d.roots),
        ).push("depth", count_json(d.depth)).push("root_signals", count_json(d.root_signals)),
    };
    assert(head@ =~= tree_head(dv));
    let key: &str = if d.of.is_some() {
        "chain"
    } else {
        "scopes"
    };
    let mut hints: Hints = Hints::new();
    hints.push_opt(trunc_hint(trunc, shown, total, true, "scopes"));
    let obj: Obj = push_counts(head, shown, total, true, trunc);
    hints.attach(obj).push(key, array(node_array(&d.nodes, shown))).build()
}

/// The `tree` command with JSON output.
pub fn compute_tree<B: WaveformBackend>(wave: &Wave<B>, args: &Args) -> (r: Result<Json, String>)
    requires
        wave.wf(),
    ensures
        match tree_of(wave.table(), args@) {
            Err(e) => r is Err && r->Err_0@ == e,
            Ok(d) => r is Ok && r->Ok_0@ == tree_json(d, limit_view(args@)),
        },
{
    match tree_data(wave, args) {
        Err(e) => Err(e),
        Ok(d) => Ok(tree_to_json(&d, limit_of(args))),
    }
}

/// A node's label: the path of a root or of a link of a chain, the indented
/// name elsewhere.
pub open spec fn node_label(chain: bool, n: NodeView) -> Seq<char> {
    if chain || n.level == 0 {
        n.path
    } else {
        repeated(' ', n.level) + repeated(' ', n.level) + n.name
    }
}

fn label_of(chain: bool, n: &Node) -> (s: String)
    ensures
        s@ == node_label(chain, n@),
{
    if chain || n.level == 0 {
        n.path.clone()
    } else {
        let mut s: String = repeat(' ', n.level);
        s.push_str(repeat(' ', n.level).as_str());
        s.push_str(n.name.as_str());
        s
    }
}

/// The length of the longest of the first `n` labels.
pub open spec fn widest(chain: bool, nodes: Seq<NodeView>, n: int) -> nat
    decreases n,
{
    if n <= 0 {
        0
    } else {
        let rest = widest(chain, nodes, n - 1);
        let own = node_label(chain, nodes[n - 1]).len();
        if own > rest {
            own
        } else {
            rest
        }
    }
}

pub open spec fn node_line(chain: bool, n: NodeView, width: nat) -> Seq<char> {
    "  "@ + left_justified(node_label(chain, n), width) + "  "@ + dec(n.signals) + " signal(s)"@ + (
    if n.children > 0 {
        ", "@ + dec(n.children) + " child scope(s)"@
    } else {
        ""@
    }) + "\n"@
}

pub open spec fn node_lines(chain: bool, nodes: Seq<NodeView>, n: int, width: nat) -> Seq<char>
    decreases n,
{
    if n <= 0 {
        Seq::empty()
    } else {
        node_lines(chain, nodes, n - 1, width) + node_line(chain, nodes[n - 1], width)
    }
}

pub open spec fn tree_title(d: TreeView) -> Seq<char> {
    match d.of {
        Some(sig) => sig + " — ancestors (top-down)\n"@,
        None => (if d.roots.len() == 0 {
            "(nothing)"@
        } else if d.roots.len() == 1 {
            d.roots[0]
        } else {
            dec(d.roots.len()) + " matching scopes"@
        }) + " — "@ + dec(d.nodes.len()) + " scope(s), depth "@ + dec(d.depth) + "\n"@,
    }
}

pub open spec fn empty_tree_note(d: TreeView) -> Seq<char> {
    match d.of {
        Some(_) => "\n  (top-level signal; no enclosing scope)\n"@,
        None => "\n  (no scopes)\n"@ + (if d.root_signals > 0 {
            "  ("@ + dec(d.root_signals) + " signal(s) at the file root)\n"@
        } else {
            ""@
        }),
    }
}

/// What `tree` writes as text.
pub open spec fn tree_text(d: TreeView, limit: int) -> Seq<char> {
    let total = d.nodes.len();
    let shown = shown_count(total as int, limit);
    let chain = d.of is Some;
    tree_title(d) + (if total == 0 {
        empty_tree_note(d)
    } else {
        "\n"@ + node_lines(chain, d.nodes, shown, widest(chain, d.nodes, shown)) + (if d.root_signals
            > 0 && !chain {
            "\n  ("@ + dec(d.root_signals) + " signal(s) at the file root, outside any scope)\n"@
        } else {
            ""@
        }) + opt_line(
            ""@,
            if shown < total {
                Some(trunc_text(shown as nat, total, ""@, "scopes"@))
            } else {
                None
            },
        )
    })
}

fn title_text(d: &TreeData) -> (m: String)
    ensures
        m@ == tree_title(d@),
{
    assert(d@.roots.len() == d.roots@.len());
    assert(d@.nodes.len() == d.nodes@.len());
    match &d.of {
        Some(sig) => {
            let mut m: String = sig.clone();
            m.push_str(" — ancestors (top-down)\n");
            m
        },
        None => {
            let mut m: String = if d.roots.len() == 0 {
                "(nothing)".to_owned()
            } else if d.roots.len() == 1 {
                assert(d@.roots[0] == d.roots@[0]@);
                d.roots[0].clone()
            } else {
                let mut k: String = usize_text(d.roots.len());
                k.push_str(" matching scopes");
                k
            };
            m.push_str(" — ");
            m.push_str(usize_text(d.nodes.len()).as_str());
            m.push_str(" scope(s), depth ");
            m.push_str(usize_text(d.depth).as_str());
            m.push_str("\n");
            m
        },
    }
}

fn empty_note_text(d: &TreeData) -> (m: String)
    ensures
        m@ == empty_tree_note(d@),
{
    if d.of.is_some() {
        return "\n  (top-level signal; no enclosing scope)\n".to_owned();
    }
    let mut extra: String = "".to_owned();
    if d.root_signals > 0 {
        extra = "  (".to_owned();
        extra.push_str(usize_text(d.root_signals).as_str());
        extra.push_str(" signal(s) at the file root)\n");
    }
    let mut m: String = "\n  (no scopes)\n".to_owned();
    m.push_str(extra.as_str());
    m
}

fn widest_label(chain: bool, nodes: &Vec<Node>, shown: usize) -> (w: usize)
    requires
        shown <= nodes@.len(),
    ensures
        w == widest(chain, node_views(nodes@), shown as int),
{
    let ghost nv = node_views(nodes@);
    let mut w: usize = 0;
    let mut i: usize = 0;
    while i < shown
        invariant
            i <= shown <= nodes@.len(),
            nv == node_views(nodes@),
            w == widest(chain, nv, i as int),
        decreases shown - i,
    {
        assert(nv[i as int] == nodes@[i as int]@);
        let label: String = label_of(chain, &nodes[i]);
        let own: usize = label.as_str().unicode_len();
        if own > w {
            w = own;
        }
        i += 1;
    }
    w
}

fn node_text(chain: bool, n: &Node, width: usize) -> (m: String)
    ensures
        m@ == node_line(chain, n@, width as nat),
{
    let mut extra: String = "".to_owned();
    if n.children > 0 {
        extra = ", ".to_owned();
        extra.push_str(usize_text(n.children).as_str());
        extra.push_str(" child scope(s)");
    }
    let mut m: String = "  ".to_owned();
    m.push_str(ljust(label_of(chain, n).as_str(), width).as_str());
    m.push_str("  ");
    m.push_str(usize_text(n.signals).as_str());
    m.push_str(" signal(s)");
    m.push_str(extra.as_str());
    m.push_str("\n");
    m
}

fn push_nodes(out: &mut String, chain: bool, nodes: &Vec<Node>, shown: usize, width: usize)
    requires
        shown <= nodes@.len(),
    ensures
        final(out)@ == old(out)@ + node_lines(
            chain,
            node_views(nodes@),
            shown as int,
            width as nat,
        ),
{
    let ghost nv = node_views(nodes@);
    let ghost o0 = out@;
    let mut i: usize = 0;
    assert(out@ =~= o0 + Seq::<char>::empty());
    while i < shown
        invariant
            i <= shown <= nodes@.len(),
            nv == node_views(nodes@),
            out@ == o0 + node_lines(chain, nv, i as int, width as nat),
        decreases shown - i,
    {
        assert(nv[i as int] == nodes@[i as int]@);
        out.push_str(node_text(chain, &nodes[i], width).as_str());
        assert(out@ =~= o0 + node_lines(chain, nv, i + 1, width as nat));
        i += 1;
    }
}

/// Render what `tree` found as text.
pub fn tree_to_text(d: &TreeData, limit: usize) -> (s: String)
    ensures
        s@ == tree_text(d@, limit as int),
{
    let ghost dv = d@;
    let total: usize = d.nodes.len();
    assert(dv.nodes.len() == total);
    let (shown, trunc) = clip_len(total, limit);
    let chain: bool = d.of.is_some();
    let mut out: String = title_text(d);
    if total == 0 {
        out.push_str(empty_note_text(d).as_str());
        return out;
    }
    let mut rest: String = "\n".to_owned();
    push_nodes(&mut rest, chain, &d.nodes, shown, widest_label(chain, &d.nodes, shown));
    let mut outside: String = "".to_owned();
    if d.root_signals > 0 && !chain {
        outside = "\n  (".to_owned();
        outside.push_str(usize_text(d.root_signals).as_str());
        outside.push_str(" signal(s) at the file root, outside any scope)\n");
    }
    rest.push_str(outside.as_str());
    let notice: Option<String> = if trunc {
        Some(trunc_line(shown, total, "scopes"))
    } else {
        None
    };
    push_opt_line(&mut rest, "", notice);
    out.push_str(rest.as_str());
    out
}

/// The `tree` command with text output.
pub fn text_tree<B: WaveformBackend>(wave: &Wave<B>, args: &Args) -> (r: Result<String, String>)
    requires
        wave.wf(),
    ensures
        match tree_of(wave.table(), args@) {
            Err(e) => r is Err && r->Err_0@ == e,
            Ok(d) => r is Ok && r->Ok_0@ == tree_text(d, limit_view(args@)),
        },
{
    match tree_data(wave, args) {
        Err(e) => Err(e),
        Ok(d) => Ok(tree_to_text(&d, limit_of(args))),
    }
}

} // verus!
