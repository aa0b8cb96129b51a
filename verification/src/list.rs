//! The `list` command: the paths of the selected signals.

use vstd::prelude::*;

use crate::cli::{Args, ArgsView};
use crate::dump::{opt_line, push_opt_line};
use crate::json::{array, json_views, Json, JsonView, Obj};
use crate::number::{dec, u64_text, usize_text};
use crate::order::{arranged, sort_texts, text_order};
use crate::report::{
    choice_of, clip_len, count_json, count_members, count_view, hint_json, limit_of, limit_view,
    push_counts, selection_of, shown_count, trunc_hint, trunc_hint_text, trunc_line, trunc_text,
    with_hint, Hints, NO_SIGNALS, SELECTION_EMPTY,
};
use crate::select::{keeps, selects_all, shows_path, Selection, SelectionView};
use crate::signal::{signal_ok, signal_views, table_ok, SignalInfo, SignalView};
use crate::text::{left_justified, ljust, right_justified, rjust, views};

verus! {

/// A path with its signal.
pub struct ListEntry {
    pub path: String,
    pub sid: usize,
}

pub struct EntryView {
    pub path: Seq<char>,
    pub sid: usize,
}

impl View for ListEntry {
    type V = EntryView;

    open spec fn view(&self) -> EntryView {
        EntryView { path: self.path@, sid: self.sid }
    }
}

pub open spec fn entry_views(v: Seq<ListEntry>) -> Seq<EntryView> {
    v.map_values(|e: ListEntry| e@)
}

/// The first `n` paths of a signal that the choice shows.
pub open spec fn shown_paths(s: SelectionView, sig: SignalView, sid: usize, n: int) -> Seq<EntryView>
    decreases n,
{
    if n <= 0 {
        Seq::empty()
    } else {
        let rest = shown_paths(s, sig, sid, n - 1);
        if shows_path(s, sig.aliases[n - 1], sig.scopes[n - 1]) {
            rest.push(EntryView { path: sig.aliases[n - 1], sid })
        } else {
            rest
        }
    }
}

/// The shown paths of the kept signals, in table order.
pub open spec fn listed_paths(s: SelectionView, table: Seq<SignalView>, n: int) -> Seq<EntryView>
    decreases n,
{
    if n <= 0 {
        Seq::empty()
    } else {
        let rest = listed_paths(s, table, n - 1);
        let sig = table[n - 1];
        if keeps(s, sig) {
            rest + shown_paths(s, sig, (n - 1) as usize, sig.aliases.len() as int)
        } else {
            rest
        }
    }
}

pub open spec fn entry_paths(e: Seq<EntryView>) -> Seq<Seq<char>> {
    e.map_values(|x: EntryView| x.path)
}

/// The entries sorted by path.
pub open spec fn sorted_entries(e: Seq<EntryView>) -> Seq<EntryView> {
    arranged(e, text_order(entry_paths(e)))
}

/// What `list` shows: one row for each path.
pub open spec fn list_of(table: Seq<SignalView>, a: ArgsView) -> Result<Seq<EntryView>, Seq<char>> {
    match choice_of(a) {
        Err(e) => Err(e),
        Ok(s) => Ok(sorted_entries(listed_paths(s, table, table.len() as int))),
    }
}

/// Was there any selection?
pub open spec fn list_selective(a: ArgsView) -> bool {
    match choice_of(a) {
        Err(_) => false,
        Ok(s) => !selects_all(s),
    }
}

pub open spec fn entries_in(e: Seq<EntryView>, n: nat) -> bool {
    forall|i: int| 0 <= i < e.len() ==> (#[trigger] e[i]).sid < n
}

fn collect_entries(table: &Vec<SignalInfo>, sel: &Selection) -> (r: Vec<ListEntry>)
    requires
        table_ok(signal_views(table@)),
    ensures
        entry_views(r@) == listed_paths(sel@, signal_views(table@), table@.len() as int),
        entries_in(entry_views(r@), table@.len()),
{
    let ghost tab = signal_views(table@);
    let mut r: Vec<ListEntry> = Vec::new();
    let mut i: usize = 0;
    assert(entry_views(r@) =~= Seq::empty());
    while i < table.len()
        invariant
            i <= table.len(),
            tab == signal_views(table@),
            table_ok(tab),
            entry_views(r@) == listed_paths(sel@, tab, i as int),
            entries_in(entry_views(r@), table@.len()),
        decreases table.len() - i,
    {
        let info: &SignalInfo = &table[i];
        let ghost sig = info@;
        assert(tab[i as int] == sig);
        assert(signal_ok(sig));
        let ghost r0 = entry_views(r@);
        if sel.keeps_signal(info) {
            let mut j: usize = 0;
            assert(r0 + shown_paths(sel@, sig, i, 0) =~= entry_views(r@));
            while j < info.aliases.len()
                invariant
                    i < table.len(),
                    j <= info.aliases.len(),
                    sig == info@,
                    signal_ok(sig),
                    entry_views(r@) == r0 + shown_paths(sel@, sig, i, j as int),
                    entries_in(entry_views(r@), table@.len()),
                decreases info.aliases.len() - j,
            {
                let path: &str = info.aliases[j].as_str();
                let scope: &str = info.alias_scopes[j].as_str();
                assert(sig.aliases[j as int] == path@ && sig.scopes[j as int] == scope@);
                if sel.displays_alias(path, scope) {
                    let ghost r1 = entry_views(r@);
                    let e = ListEntry { path: path.to_owned(), sid: i };
                    r.push(e);
                    assert(entry_views(r@) =~= r1.push(e@));
                    assert(entry_views(r@) =~= r0 + shown_paths(sel@, sig, i, j + 1));
                }
                j += 1;
            }
        }
        i += 1;
    }
    r
}

fn sort_entries(v: &Vec<ListEntry>) -> (r: Vec<ListEntry>)
    ensures
        entry_views(r@) == sorted_entries(entry_views(v@)),
        forall|n: nat| entries_in(entry_views(v@), n) ==> entries_in(entry_views(r@), n),
{
    let mut keys: Vec<String> = Vec::new();
    let mut i: usize = 0;
    while i < v.len()
        invariant
            i <= v.len(),
            keys.len() == i,
            forall|k: int| 0 <= k < i ==> (#[trigger] keys@[k])@ == v@[k].path@,
        decreases v.len() - i,
    {
        keys.push(v[i].path.clone());
        i += 1;
    }
    assert(views(keys@) =~= entry_paths(entry_views(v@)));
    let order: Vec<usize> = sort_texts(&keys);
    let mut r: Vec<ListEntry> = Vec::new();
    let mut j: usize = 0;
    while j < order.len()
        invariant
            j <= order.len(),
            keys.len() == v.len(),
            crate::order::stable_sorted(crate::order::text_le(), views(keys@), order@),
            r.len() == j,
            forall|k: int| 0 <= k < j ==> (#[trigger] r@[k])@ == v@[order@[k] as int]@,
        decreases order.len() - j,
    {
        let p: usize = order[j];
        assert(order@[j as int] < views(keys@).len());
        r.push(ListEntry { path: v[p].path.clone(), sid: v[p].sid });
        j += 1;
    }
    proof {
        assert(entry_views(r@) =~= sorted_entries(entry_views(v@)));
        assert forall|n: nat| entries_in(entry_views(v@), n) implies entries_in(
            entry_views(r@),
            n,
        ) by {
            assert forall|k: int| 0 <= k < entry_views(r@).len() implies (
            #[trigger] entry_views(r@)[k]).sid < n by {
                assert(order@[k] < views(keys@).len());
                assert(entry_views(r@)[k] == entry_views(v@)[order@[k] as int]);
            }
        }
    }
    r
}

/// Collect what `list` shows, and whether there was a selection.
pub fn list_entries(table: &Vec<SignalInfo>, args: &Args) -> (r: Result<
    (Vec<ListEntry>, bool),
    String,
>)
    requires
        table_ok(signal_views(table@)),
    ensures
        match r {
            Err(e) => list_of(signal_views(table@), args@) == Err::<Seq<EntryView>, Seq<char>>(e@),
            Ok((v, selective)) => list_of(signal_views(table@), args@) == Ok::<
                Seq<EntryView>,
                Seq<char>,
            >(entry_views(v@)) && selective == list_selective(args@) && entries_in(
                entry_views(v@),
                table@.len(),
            ),
        },
{
    match selection_of(args) {
        Err(e) => Err(e),
        Ok(sel) => {
            let found: Vec<ListEntry> = collect_entries(table, &sel);
            Ok((sort_entries(&found), !sel.is_all()))
        },
    }
}

pub open spec fn entry_json(table: Seq<SignalView>, e: EntryView, verbose: bool) -> JsonView {
    let s = table[e.sid as int];
    JsonView::Object(
        seq![
            ("path"@, JsonView::Str(e.path)),
            ("width"@, JsonView::Int(s.width as int)),
            ("type"@, JsonView::Str(s.type_str)),
        ] + (if verbose {
            seq![("id"@, count_view(e.sid as int))]
        } else {
            Seq::empty()
        }),
    )
}

pub open spec fn list_hints(total: nat, limit: int, selective: bool) -> Seq<Seq<char>> {
    let shown = shown_count(total as int, limit);
    let h = with_hint(
        Seq::empty(),
        trunc_hint_text(shown < total, shown as nat, total, true, "signals"@),
    );
    if total == 0 {
        h.push(
            if selective {
                SELECTION_EMPTY@
            } else {
                NO_SIGNALS@
            },
        )
    } else {
        h
    }
}

/// What `list` writes as JSON.
pub open spec fn list_json(
    table: Seq<SignalView>,
    e: Seq<EntryView>,
    selective: bool,
    verbose: bool,
    limit: int,
) -> JsonView {
    let total = e.len();
    let shown = shown_count(total as int, limit);
    JsonView::Object(
        count_members(shown, total as int, true, shown < total).push(
            ("hint"@, hint_json(list_hints(total, limit, selective))),
        ).push(
            (
                "signals"@,
                JsonView::Array(
                    e.take(shown).map_values(|x: EntryView| entry_json(table, x, verbose)),
                ),
            ),
        ),
    )
}

fn entry_array(table: &Vec<SignalInfo>, e: &Vec<ListEntry>, shown: usize, verbose: bool) -> (v: Vec<
    Json,
>)
    requires
        shown <= e.len(),
        entries_in(entry_views(e@), table@.len()),
    ensures
        json_views(v@) == entry_views(e@).take(shown as int).map_values(
            |x: EntryView| entry_json(signal_views(table@), x, verbose),
        ),
{
    let ghost ev = entry_views(e@);
    let ghost tab = signal_views(table@);
    let mut v: Vec<Json> = Vec::new();
    let mut i: usize = 0;
    while i < shown
        invariant
            i <= shown <= e.len(),
            ev == entry_views(e@),
            tab == signal_views(table@),
            entries_in(ev, table@.len()),
            v.len() == i,
            forall|k: int| 0 <= k < i ==> (#[trigger] v@[k])@ == entry_json(tab, ev[k], verbose),
        decreases shown - i,
    {
        let x: &ListEntry = &e[i];
        assert(ev[i as int] == x@);
        let info: &SignalInfo = &table[x.sid];
        assert(tab[x.sid as int] == info@);
        let mut o: Obj = Obj::new().push("path", Json::str(x.path.as_str())).push(
            "width",
            Json::Int(info.width as i64),
        ).push("type", Json::str(info.type_str));
        let ghost base = seq![
            ("path"@, JsonView::Str(x@.path)),
            ("width"@, JsonView::Int(info@.width as int)),
            ("type"@, JsonView::Str(info@.type_str)),
        ];
        assert(o@ =~= base);
        if verbose {
            o = o.push("id", count_json(x.sid));
            assert(o@ =~= base + seq![("id"@, count_view(x.sid as int))]);
        } else {
            assert(base + Seq::<(Seq<char>, JsonView)>::empty() =~= base);
        }
        v.push(o.build());
        i += 1;
    }
    assert(json_views(v@) =~= ev.take(shown as int).map_values(
        |x: EntryView| entry_json(tab, x, verbose),
    ));
    v
}

/// The `list` command with JSON output.
pub fn compute_list(table: &Vec<SignalInfo>, args: &Args) -> (r: Result<Json, String>)
    requires
        table_ok(signal_views(table@)),
    ensures
        match list_of(signal_views(table@), args@) {
            Err(e) => r is Err && r->Err_0@ == e,
            Ok(e) => r is Ok && r->Ok_0@ == list_json(
                signal_views(table@),
                e,
                list_selective(args@),
                args.verbose,
                limit_view(args@),
            ),
        },
{
    match list_entries(table, args) {
        Err(e) => Err(e),
        Ok((entries, selective)) => {
            let total: usize = entries.len();
            assert(entry_views(entries@).len() == total);
            let (shown, trunc) = clip_len(total, limit_of(args));
            let arr: Vec<Json> = entry_array(table, &entries, shown, args.verbose);
            let mut hints: Hints = Hints::new();
            hints.push_opt(trunc_hint(trunc, shown, total, true, "signals"));
            if total == 0 {
                if selective {
                    hints.push(SELECTION_EMPTY.to_owned());
                } else {
                    hints.push(NO_SIGNALS.to_owned());
                }
            }
            let obj: Obj = push_counts(Obj::new(), shown, total, true, trunc);
            assert(obj@ =~= count_members(shown as int, total as int, true, trunc));
            Ok(hints.attach(obj).push("signals", array(arr)).build())
        },
    }
}

pub open spec fn entry_line(table: Seq<SignalView>, e: EntryView) -> Seq<char> {
    let s = table[e.sid as int];
    "  "@ + left_justified(e.path, 60) + " "@ + right_justified(dec(s.width as nat), 5) + "  "@
        + s.type_str + "\n"@
}

pub open spec fn entry_lines(table: Seq<SignalView>, e: Seq<EntryView>, n: int) -> Seq<char>
    decreases n,
{
    if n <= 0 {
        Seq::empty()
    } else {
        entry_lines(table, e, n - 1) + entry_line(table, e[n - 1])
    }
}

/// What `list` writes as text.
pub open spec fn list_text(
    table: Seq<SignalView>,
    e: Seq<EntryView>,
    selective: bool,
    limit: int,
) -> Seq<char> {
    let total = e.len();
    let shown = shown_count(total as int, limit);
    "Matched: "@ + dec(total) + "/"@ + dec(table.len()) + "\n"@ + (if total == 0 {
        (if selective {
            "no match; try a broader filter or run without --filter to browse"@
        } else {
            NO_SIGNALS@
        }) + "\n"@
    } else {
        Seq::empty()
    }) + entry_lines(table, e, shown) + opt_line(
        ""@,
        if shown < total {
            Some(trunc_text(shown as nat, total, ""@, "signals"@))
        } else {
            None
        },
    )
}

fn push_entry_lines(out: &mut String, table: &Vec<SignalInfo>, e: &Vec<ListEntry>, shown: usize)
    requires
        shown <= e.len(),
        entries_in(entry_views(e@), table@.len()),
    ensures
        final(out)@ == old(out)@ + entry_lines(
            signal_views(table@),
            entry_views(e@),
            shown as int,
        ),
{
    let ghost ev = entry_views(e@);
    let ghost tab = signal_views(table@);
    let ghost o0 = out@;
    let mut i: usize = 0;
    assert(out@ =~= o0 + Seq::<char>::empty());
    while i < shown
        invariant
            i <= shown <= e.len(),
            ev == entry_views(e@),
            tab == signal_views(table@),
            entries_in(ev, table@.len()),
            out@ == o0 + entry_lines(tab, ev, i as int),
        decreases shown - i,
    {
        let x: &ListEntry = &e[i];
        assert(ev[i as int] == x@);
        let info: &SignalInfo = &table[x.sid];
        assert(tab[x.sid as int] == info@);
        let mut m: String = "  ".to_owned();
        m.push_str(ljust(x.path.as_str(), 60).as_str());
        m.push_str(" ");
        m.push_str(rjust(u64_text(info.width as u64).as_str(), 5).as_str());
        m.push_str("  ");
        m.push_str(info.type_str);
        m.push_str("\n");
        assert(m@ == entry_line(tab, x@));
        out.push_str(m.as_str());
        assert(out@ =~= o0 + entry_lines(tab, ev, i + 1));
        i += 1;
    }
}

/// The `list` command with text output.
pub fn text_list(table: &Vec<SignalInfo>, args: &Args) -> (r: Result<String, String>)
    requires
        table_ok(signal_views(table@)),
    ensures
        match list_of(signal_views(table@), args@) {
            Err(e) => r is Err && r->Err_0@ == e,
            Ok(e) => r is Ok && r->Ok_0@ == list_text(
                signal_views(table@),
                e,
                list_selective(args@),
                limit_view(args@),
            ),
        },
{
    match list_entries(table, args) {
        Err(e) => Err(e),
        Ok((entries, selective)) => {
            let total: usize = entries.len();
            assert(entry_views(entries@).len() == total);
            let (shown, trunc) = clip_len(total, limit_of(args));
            let mut out: String = "Matched: ".to_owned();
            out.push_str(usize_text(total).as_str());
            out.push_str("/");
            out.push_str(usize_text(table.len()).as_str());
            out.push_str("\n");
            let mut none: String = "".to_owned();
            if total == 0 {
                none = if selective {
                    "no match; try a broader filter or run without --filter to browse".to_owned()
                } else {
                    NO_SIGNALS.to_owned()
                };
                none.push_str("\n");
            }
            proof {
                reveal_strlit("");
                assert(total > 0 ==> none@ =~= Seq::empty());
            }
            out.push_str(none.as_str());
            push_entry_lines(&mut out, table, &entries, shown);
            let notice: Option<String> = if trunc {
                Some(trunc_line(shown, total, "signals"))
            } else {
                None
            };
            push_opt_line(&mut out, "", notice);
            Ok(out)
        },
    }
}

} // verus!
