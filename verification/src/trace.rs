//! The `trace` command: what drives a signal, or what reads it.

use vstd::prelude::*;

use vstd::hash_map::StringHashMap;
use vstd::hash_set::StringHashSet;

use crate::backend::{FileFormat, WaveformBackend};
use crate::cli::{Args, ArgsView};
use crate::design::{
    direction_tag, hop_tag, hop_views, status_tag, Direction, Hop, HopKind, HopView, TraceOutcome,
    TraceStatus,
};
use crate::dump::{compact_value, opt_line, push_opt_line, text_value};
use crate::endpoints::{endpoint_index, endpoint_of};
use crate::hierarchy::{different, leads, place_paths};
use crate::history::{value_at, RawValue, RawView};
use crate::instants::{opt_raws, values_now, values_of};
use crate::json::{array, json_views, Json, JsonView, Obj};
use crate::model::{in_table, Sid, Wave, WaveView};
use crate::number::{dec, u64_text, usize_text};
use crate::path::{extension, find_extension};
use crate::replay::opt_tick;
use crate::report::{
    clip_len, count_json, count_members, count_view, hint_json, path_meant, push_counts, push_time,
    resolve_signal_path, shown_count, time_members, trunc_hint, trunc_hint_text, trunc_line,
    trunc_text, with_hint, Hints,
};
use crate::search::opt_text_json;
use crate::signal::{signal_views, SignalInfo, SignalView};
use crate::text::{
    chars_of, left_justified, ljust, opt_view, repeat, repeated, same, string_of, trim, trimmed,
    views,
};
use crate::time::{parse_time, time_of, Timescale};
use crate::tree::{pick, unless_blank};

verus! {

/// What decides whether `trace` can be answered at all.
#[derive(Debug, Clone, Copy)]
pub struct TraceFacts {
    /// Was the command switched on?
    pub enabled: bool,
    /// Does the reader of the file know the design?
    pub supported: bool,
    /// Does a plugin replace the reader that does?
    pub replaced: bool,
}

/// What is asked of the design.
#[derive(Debug)]
pub struct TraceAsk {
    pub path: String,
    pub dir: Direction,
    pub control: bool,
    /// The tick at which to give values.
    pub at: Option<i64>,
}

pub struct AskView {
    pub path: Seq<char>,
    pub dir: Direction,
    pub control: bool,
    pub at: Option<int>,
}

impl View for TraceAsk {
    type V = AskView;

    open spec fn view(&self) -> AskView {
        AskView {
            path: self.path@,
            dir: self.dir,
            control: self.control,
            at: opt_tick(self.at),
        }
    }
}

pub const TRACE_OFF: &'static str =
    "trace is experimental and off by default; set RWAVE_TRACE_EN=1 to enable it";

pub const TRACE_NEEDS_SIGNAL: &'static str =
    "the following arguments are required: <signal> (rwave trace <file> <signal>)";

pub open spec fn format_tag(f: FileFormat) -> Seq<char> {
    match f {
        FileFormat::Vcd => "vcd"@,
        FileFormat::Fst => "fst"@,
        FileFormat::Ghw => "ghw"@,
        FileFormat::Unknown => "unknown"@,
    }
}

/// What a file is called in messages: its format or, if that is not known, its
/// extension.
pub open spec fn format_named(f: FileFormat, path: Seq<char>) -> Seq<char> {
    if f == FileFormat::Unknown {
        match extension(path) {
            Some(e) => e,
            None => format_tag(f),
        }
    } else {
        format_tag(f)
    }
}

/// The message for a file that has no design.
pub open spec fn unsupported(f: FileFormat, path: Seq<char>, replaced: bool) -> Seq<char> {
    let name = format_named(f, path);
    "trace requires an FSDB opened through the built-in Verdi NPI backend; '"@ + name
        + "' has no design data."@ + (if name == "fsdb"@ && replaced {
        "\nUnset RWAVE_PLUGIN_FSDB, which replaces that backend."@
    } else {
        ""@
    })
}

fn unsupported_message(f: FileFormat, path: &str, replaced: bool) -> (s: String)
    ensures
        s@ == unsupported(f, path@, replaced),
{
    let name: String = if f == FileFormat::Unknown {
        match find_extension(path) {
            Some(e) => e,
            None => f.tag().to_owned(),
        }
    } else {
        f.tag().to_owned()
    };
    let mut m: String =
        "trace requires an FSDB opened through the built-in Verdi NPI backend; '".to_owned();
    m.push_str(name.as_str());
    m.push_str("' has no design data.");
    if same(name.as_str(), "fsdb") && replaced {
        m.push_str("\nUnset RWAVE_PLUGIN_FSDB, which replaces that backend.");
    } else {
        m.push_str("");
    }
    m
}

/// The tick at which to give values, if one is asked for.
pub open spec fn value_tick<T: Timescale>(at: Option<Seq<char>>, ts: &T) -> Result<
    Option<int>,
    Seq<char>,
> {
    match at {
        Some(s) => if trimmed(s).len() == 0 {
            Ok(None)
        } else {
            match time_of(s, ts) {
                Ok(t) => Ok(Some(t)),
                Err(e) => Err(e),
            }
        },
        None => Ok(None),
    }
}

pub open spec fn direction_of(a: ArgsView) -> Direction {
    if a.load {
        Direction::Load
    } else {
        Direction::Driver
    }
}

/// What an invocation asks of the design.
pub open spec fn trace_asked<T: Timescale>(
    w: WaveView,
    a: ArgsView,
    facts: TraceFacts,
    ts: &T,
) -> Result<AskView, Seq<char>> {
    if !facts.enabled {
        Err(TRACE_OFF@)
    } else {
        match unless_blank(a.target) {
            None => Err(TRACE_NEEDS_SIGNAL@),
            Some(target) => match value_tick(a.at, ts) {
                Err(e) => Err(e),
                Ok(at) => if !facts.supported {
                    Err(unsupported(w.meta.format, w.meta.path, facts.replaced))
                } else {
                    match path_meant(w.table, target, "signal"@) {
                        Err(e) => Err(e),
                        Ok((path, _)) => Ok(
                            AskView { path, dir: direction_of(a), control: a.control, at },
                        ),
                    }
                },
            },
        }
    }
}

fn value_tick_of<T: Timescale>(at: &Option<String>, ts: &T) -> (r: Result<Option<i64>, String>)
    ensures
        match r {
            Ok(t) => value_tick(opt_view(*at), ts) == Ok::<Option<int>, Seq<char>>(opt_tick(t)),
            Err(e) => value_tick(opt_view(*at), ts) == Err::<Option<int>, Seq<char>>(e@),
        },
{
    match at {
        Some(s) => {
            if trim(s.as_str()).is_empty() {
                return Ok(None);
            }
            match parse_time(s.as_str(), ts) {
                Ok(t) => Ok(Some(t)),
                Err(e) => Err(e.0),
            }
        },
        None => Ok(None),
    }
}

/// Work out what to ask of the design.
pub fn trace_question<B: WaveformBackend, T: Timescale>(
    wave: &Wave<B>,
    args: &Args,
    facts: TraceFacts,
    ts: &T,
) -> (r: Result<TraceAsk, String>)
    requires
        wave.wf(),
    ensures
        match r {
            Ok(q) => trace_asked(wave.snap(), args@, facts, ts) == Ok::<AskView, Seq<char>>(q@),
            Err(e) => trace_asked(wave.snap(), args@, facts, ts) == Err::<AskView, Seq<char>>(e@),
        },
{
    if !facts.enabled {
        return Err(TRACE_OFF.to_owned());
    }
    let target: String = match pick(&args.target) {
        Some(t) => t,
        None => {
            return Err(TRACE_NEEDS_SIGNAL.to_owned());
        },
    };
    let at: Option<i64> = match value_tick_of(&args.at, ts) {
        Ok(t) => t,
        Err(e) => {
            return Err(e);
        },
    };
    if !facts.supported {
        return Err(unsupported_message(wave.file_format(), wave.path(), facts.replaced));
    }
    proof {
        wave.table_is_ok();
    }
    let dir: Direction = if args.load {
        Direction::Load
    } else {
        Direction::Driver
    };
    match resolve_signal_path(wave.signals(), target.as_str(), "signal") {
        Err(e) => Err(e),
        Ok((path, _scope)) => Ok(TraceAsk { path, dir, control: args.control, at }),
    }
}

/// The names in several lists, one after another.
pub open spec fn names_in(hops: Seq<HopView>) -> Seq<Seq<char>>
    decreases hops.len(),
{
    if hops.len() == 0 {
        Seq::empty()
    } else {
        names_in(hops.drop_last()) + hops.last().signals
    }
}

/// A list without what came before.
pub open spec fn first_times(v: Seq<Seq<char>>) -> Seq<Seq<char>>
    decreases v.len(),
{
    if v.len() == 0 {
        Seq::empty()
    } else {
        let rest = first_times(v.drop_last());
        if rest.contains(v.last()) {
            rest
        } else {
            rest.push(v.last())
        }
    }
}

proof fn lemma_first_times(v: Seq<Seq<char>>)
    ensures
        forall|t: Seq<char>| #[trigger] v.contains(t) ==> first_times(v).contains(t),
        forall|i: int, j: int|
            0 <= i < j < first_times(v).len() ==> #[trigger] first_times(v)[i]
                != #[trigger] first_times(v)[j],
    decreases v.len(),
{
    if v.len() > 0 {
        let less = v.drop_last();
        lemma_first_times(less);
        let rest = first_times(less);
        let all = first_times(v);
        assert forall|t: Seq<char>| #[trigger] v.contains(t) implies all.contains(t) by {
            let i = choose|i: int| 0 <= i < v.len() && v[i] == t;
            if i < less.len() {
                assert(less[i] == t);
                assert(less.contains(t));
                let k = choose|k: int| 0 <= k < rest.len() && rest[k] == t;
                assert(all[k] == t);
            } else if !rest.contains(t) {
                assert(all[rest.len() as int] == t);
            } else {
                let k = choose|k: int| 0 <= k < rest.len() && rest[k] == t;
                assert(all[k] == t);
            }
        }
        assert forall|i: int, j: int| 0 <= i < j < all.len() implies #[trigger] all[i]
            != #[trigger] all[j] by {
            assert(all[i] == rest[i]);
            if j < rest.len() {
                assert(all[j] == rest[j]);
            } else if all[i] == all[j] {
                assert(rest.contains(v.last()));
            }
        }
    }
}

proof fn lemma_name_is_in(hops: Seq<HopView>, i: int, j: int)
    requires
        0 <= i < hops.len(),
        0 <= j < hops[i].signals.len(),
    ensures
        names_in(hops).contains(hops[i].signals[j]),
    decreases hops.len(),
{
    let less = hops.drop_last();
    let a = names_in(less);
    let all = names_in(hops);
    let t = hops[i].signals[j];
    if i < less.len() {
        assert(less[i] == hops[i]);
        lemma_name_is_in(less, i, j);
        let k = choose|k: int| 0 <= k < a.len() && a[k] == t;
        assert(all[k] == t);
    } else {
        assert(all[a.len() + j] == t);
    }
}

/// A signal's number and the value it has, for a name of the design.
pub open spec fn noted(w: WaveView, name: Seq<char>, t: int) -> Option<(usize, RawView)> {
    match endpoint_of(w.table, name) {
        None => None,
        Some(s) => match value_at(w.traces[s as int], t) {
            Some(v) => Some((s, v)),
            None => None,
        },
    }
}

/// How many of the names are not in the waveform.
pub open spec fn unknown_names(table: Seq<SignalView>, names: Seq<Seq<char>>) -> nat
    decreases names.len(),
{
    if names.len() == 0 {
        0
    } else {
        unknown_names(table, names.drop_last()) + (if endpoint_of(table, names.last()) is None {
            1nat
        } else {
            0nat
        })
    }
}

struct Note {
    sid: Sid,
    value: RawValue,
}

spec fn note_view(n: Option<Note>) -> Option<(usize, RawView)> {
    match n {
        Some(x) => Some((x.sid, x.value@)),
        None => None,
    }
}

/// The values of the signals that hops touch.
struct Notes {
    names: Vec<String>,
    places: StringHashMap<usize>,
    notes: Vec<Option<Note>>,
    /// The number of names that are not in the waveform.
    unresolved: usize,
}

impl Notes {
    /// Are these the values of the given names at `t`?
    spec fn of(&self, w: WaveView, names: Seq<Seq<char>>, t: int) -> bool {
        &&& views(self.names@) == names
        &&& leads(self.places@, names)
        &&& self.notes@.len() == names.len()
        &&& forall|i: int|
            0 <= i < names.len() ==> note_view(#[trigger] self.notes@[i]) == noted(w, names[i], t)
        &&& forall|i: int|
            0 <= i < names.len() ==> ((#[trigger] self.notes@[i]) matches Some(n) ==> n.sid
                < w.table.len())
        &&& self.unresolved == unknown_names(w.table, names)
    }

    fn find(
        &self,
        name: &str,
        Ghost(w): Ghost<WaveView>,
        Ghost(names): Ghost<Seq<Seq<char>>>,
        Ghost(t): Ghost<int>,
    ) -> (r: Option<&Note>)
        requires
            self.of(w, names, t),
            names.contains(name@),
        ensures
            match r {
                Some(n) => n.sid < w.table.len() && noted(w, name@, t) == Some((n.sid, n.value@)),
                None => noted(w, name@, t) is None,
            },
    {
        let ghost at = choose|i: int| 0 <= i < names.len() && names[i] == name@;
        assert(self.places@.contains_key(names[at]));
        match self.places.get(name) {
            Some(p) => {
                let i: usize = *p;
                assert(names[i as int] == name@);
                assert(note_view(self.notes@[i as int]) == noted(w, name@, t));
                match &self.notes[i] {
                    Some(n) => Some(n),
                    None => None,
                }
            },
            None => None,
        }
    }
}

fn collect_names(hops: &Vec<Hop>, shown: usize) -> (r: Vec<String>)
    requires
        shown <= hops@.len(),
    ensures
        views(r@) == first_times(names_in(hop_views(hops@).take(shown as int))),
{
    let ghost hv = hop_views(hops@);
    let mut seen: StringHashSet = StringHashSet::new();
    let mut r: Vec<String> = Vec::new();
    let mut i: usize = 0;
    assert(hv.take(0) =~= Seq::empty());
    assert(views(r@) =~= Seq::empty());
    while i < shown
        invariant
            i <= shown <= hops@.len(),
            hv == hop_views(hops@),
            views(r@) == first_times(names_in(hv.take(i as int))),
            forall|t: Seq<char>| #[trigger] seen@.contains(t) == views(r@).contains(t),
        decreases shown - i,
    {
        let h: &Hop = &hops[i];
        let ghost before = names_in(hv.take(i as int));
        let ghost sv = views(h.signals@);
        let mut j: usize = 0;
        proof {
            assert(hv.take(i + 1).drop_last() =~= hv.take(i as int));
            assert(hv.take(i + 1).last() == h@);
            assert(before + sv.take(0) =~= before);
        }
        while j < h.signals.len()
            invariant
                j <= h.signals.len(),
                sv == views(h.signals@),
                views(r@) == first_times(before + sv.take(j as int)),
                forall|t: Seq<char>| #[trigger] seen@.contains(t) == views(r@).contains(t),
            decreases h.signals.len() - j,
        {
            let name: &String = &h.signals[j];
            proof {
                assert((before + sv.take(j + 1)).drop_last() =~= before + sv.take(j as int));
                assert((before + sv.take(j + 1)).last() == name@);
            }
            if !seen.contains(name.as_str()) {
                let ghost r0 = views(r@);
                let ghost s0 = seen@;
                r.push(name.clone());
                let _x: bool = seen.insert(name.clone());
                proof {
                    assert(views(r@) =~= r0.push(name@));
                    assert forall|t: Seq<char>| #[trigger] seen@.contains(t) == views(
                        r@,
                    ).contains(t) by {
                        let r1 = views(r@);
                        if r0.contains(t) {
                            let k = choose|k: int| 0 <= k < r0.len() && r0[k] == t;
                            assert(r1[k] == t);
                        }
                        if r1.contains(t) && t != name@ {
                            let k = choose|k: int| 0 <= k < r1.len() && r1[k] == t;
                            assert(r0[k] == t);
                        }
                        assert(r1[r0.len() as int] == name@);
                        assert(s0.contains(t) == r0.contains(t));
                    }
                }
            }
            j += 1;
        }
        assert(before + sv.take(j as int) =~= names_in(hv.take(i + 1)));
        i += 1;
    }
    r
}

/// The values aligned with the names: those found, in order, are `vals`.
fn align(
    names: &Vec<String>,
    found: &Vec<Option<Sid>>,
    sids: &Vec<Sid>,
    vals: Vec<Option<RawValue>>,
    Ghost(w): Ghost<WaveView>,
    Ghost(t): Ghost<int>,
) -> (r: Vec<Option<Note>>)
    requires
        found@.len() == names@.len(),
        forall|i: int|
            0 <= i < names@.len() ==> #[trigger] found@[i] == endpoint_of(w.table, names@[i]@),
        forall|i: int|
            0 <= i < names@.len() ==> (#[trigger] found@[i] matches Some(s) ==> s < w.table.len()),
        sids@ == present(found@),
        vals@.len() == sids@.len(),
        opt_raws(vals@) == values_of(w, sids@, t),
    ensures
        r@.len() == names@.len(),
        forall|i: int|
            0 <= i < names@.len() ==> note_view(#[trigger] r@[i]) == noted(w, names@[i]@, t),
        forall|i: int|
            0 <= i < names@.len() ==> ((#[trigger] r@[i]) matches Some(n) ==> n.sid < w.table.len()),
{
    let mut r: Vec<Option<Note>> = Vec::new();
    let mut at: usize = 0;
    let mut i: usize = 0;
    assert(found@.take(0) =~= Seq::empty());
    while i < names.len()
        invariant
            i <= names.len(),
            found@.len() == names@.len(),
            forall|k: int|
                0 <= k < names@.len() ==> #[trigger] found@[k] == endpoint_of(
                    w.table,
                    names@[k]@,
                ),
            forall|k: int|
                0 <= k < names@.len() ==> (#[trigger] found@[k] matches Some(s) ==> s
                    < w.table.len()),
            sids@ == present(found@),
            vals@.len() == sids@.len(),
            opt_raws(vals@) == values_of(w, sids@, t),
            at == present(found@.take(i as int)).len(),
            at <= i,
            r@.len() == i,
            forall|k: int|
                0 <= k < i ==> note_view(#[trigger] r@[k]) == noted(w, names@[k]@, t),
            forall|k: int|
                0 <= k < i ==> ((#[trigger] r@[k]) matches Some(n) ==> n.sid < w.table.len()),
        decreases names.len() - i,
    {
        proof {
            assert(found@.take(i + 1).drop_last() =~= found@.take(i as int));
            assert(found@.take(i + 1).last() == found@[i as int]);
            lemma_present_prefix(found@, i + 1);
        }
        match found[i] {
            Some(s) => {
                proof {
                    let b = present(found@.take(i + 1));
                    assert(b[at as int] == s);
                    assert(b.len() <= sids@.len());
                    assert(sids@.take(b.len() as int)[at as int] == sids@[at as int]);
                    assert(opt_raws(vals@)[at as int] == values_of(w, sids@, t)[at as int]);
                }
                match &vals[at] {
                    Some(v) => {
                        r.push(Some(Note { sid: s, value: v.clone() }));
                    },
                    None => {
                        r.push(None);
                    },
                }
                at += 1;
            },
            None => {
                r.push(None);
            },
        }
        i += 1;
    }
    r
}

/// The signals that were found.
spec fn present(found: Seq<Option<Sid>>) -> Seq<usize>
    decreases found.len(),
{
    if found.len() == 0 {
        Seq::empty()
    } else {
        match found.last() {
            Some(s) => present(found.drop_last()).push(s),
            None => present(found.drop_last()),
        }
    }
}

proof fn lemma_present_prefix(found: Seq<Option<Sid>>, n: int)
    requires
        0 <= n <= found.len(),
    ensures
        present(found.take(n)).len() <= present(found).len(),
        present(found.take(n)) =~= present(found).take(present(found.take(n)).len() as int),
    decreases found.len() - n,
{
    if n < found.len() {
        lemma_present_prefix(found, n + 1);
        assert(found.take(n + 1).drop_last() =~= found.take(n));
        let a = present(found.take(n));
        let b = present(found.take(n + 1));
        assert(a =~= b.take(a.len() as int));
    } else {
        assert(found.take(n) =~= found);
    }
}

fn found_sids(found: &Vec<Option<Sid>>, count: usize) -> (r: Vec<Sid>)
    requires
        forall|i: int| 0 <= i < found@.len() ==> (#[trigger] found@[i] matches Some(s) ==> s < count),
    ensures
        r@ == present(found@),
        in_table(r@, count as nat),
{
    let mut r: Vec<Sid> = Vec::new();
    let mut i: usize = 0;
    assert(found@.take(0) =~= Seq::empty());
    while i < found.len()
        invariant
            i <= found.len(),
            forall|k: int|
                0 <= k < found@.len() ==> (#[trigger] found@[k] matches Some(s) ==> s < count),
            r@ == present(found@.take(i as int)),
            in_table(r@, count as nat),
        decreases found.len() - i,
    {
        proof {
            assert(found@.take(i + 1).drop_last() =~= found@.take(i as int));
            assert(found@.take(i + 1).last() == found@[i as int]);
        }
        match found[i] {
            Some(s) => {
                r.push(s);
            },
            None => {},
        }
        i += 1;
    }
    assert(found@.take(i as int) =~= found@);
    r
}

fn count_unknown(names: &Vec<String>, found: &Vec<Option<Sid>>, Ghost(table): Ghost<Seq<SignalView>>) -> (n:
    usize)
    requires
        found@.len() == names@.len(),
        forall|i: int|
            0 <= i < names@.len() ==> #[trigger] found@[i] == endpoint_of(table, names@[i]@),
    ensures
        n == unknown_names(table, views(names@)),
{
    let ghost nv = views(names@);
    let mut n: usize = 0;
    let mut i: usize = 0;
    assert(nv.take(0) =~= Seq::empty());
    while i < names.len()
        invariant
            i <= names.len(),
            n <= i,
            nv == views(names@),
            found@.len() == names@.len(),
            forall|k: int|
                0 <= k < names@.len() ==> #[trigger] found@[k] == endpoint_of(table, names@[k]@),
            n == unknown_names(table, nv.take(i as int)),
        decreases names.len() - i,
    {
        proof {
            assert(nv.take(i + 1).drop_last() =~= nv.take(i as int));
            assert(nv.take(i + 1).last() == names@[i as int]@);
        }
        if found[i].is_none() {
            n += 1;
        }
        i += 1;
    }
    assert(nv.take(i as int) =~= nv);
    n
}

/// Find the values of the signals that the first hops touch.
fn annotate<B: WaveformBackend>(wave: &mut Wave<B>, hops: &Vec<Hop>, shown: usize, t: i64) -> (r:
    Notes)
    requires
        old(wave).wf(),
        shown <= hops@.len(),
    ensures
        final(wave).wf(),
        final(wave).same_wave(old(wave)),
        r.of(
            old(wave).snap(),
            first_times(names_in(hop_views(hops@).take(shown as int))),
            t as int,
        ),
{
    let ghost w = old(wave).snap();
    let ghost wanted = first_times(names_in(hop_views(hops@).take(shown as int)));
    let names: Vec<String> = collect_names(hops, shown);
    let found: Vec<Option<Sid>> = endpoint_index(wave.signals(), &names);
    let count: usize = wave.signals().len();
    assert(w.table.len() == count);
    let unresolved: usize = count_unknown(&names, &found, Ghost(w.table));
    let sids: Vec<Sid> = found_sids(&found, count);
    let vals: Vec<Option<RawValue>> = values_now(wave, &sids, t);
    let notes: Vec<Option<Note>> = align(&names, &found, &sids, vals, Ghost(w), Ghost(t as int));
    proof {
        lemma_first_times(names_in(hop_views(hops@).take(shown as int)));
        assert(different(views(names@)));
    }
    let places: StringHashMap<usize> = place_paths(&names);
    let r = Notes { names, places, notes, unresolved };
    assert forall|i: int| 0 <= i < wanted.len() implies note_view(#[trigger] r.notes@[i]) == noted(
        w,
        wanted[i],
        t as int,
    ) by {
        assert(wanted[i] == r.names@[i]@);
    }
    r
}

/// What a query of the design gave.
pub struct TraceData {
    pub ask: TraceAsk,
    /// The database that was asked.
    pub kdb: String,
    pub status: TraceStatus,
    pub hops: Vec<Hop>,
}

pub struct TraceView {
    pub ask: AskView,
    pub kdb: Seq<char>,
    pub status: TraceStatus,
    pub hops: Seq<HopView>,
}

impl View for TraceData {
    type V = TraceView;

    open spec fn view(&self) -> TraceView {
        TraceView {
            ask: self.ask@,
            kdb: self.kdb@,
            status: self.status,
            hops: hop_views(self.hops@),
        }
    }
}

/// What was asked together with the answer.
pub fn trace_data(ask: TraceAsk, kdb: String, outcome: TraceOutcome) -> (d: TraceData)
    ensures
        d@ == (TraceView {
            ask: ask@,
            kdb: kdb@,
            status: outcome.status,
            hops: hop_views(outcome.hops@),
        }),
{
    TraceData { ask, kdb, status: outcome.status, hops: outcome.hops }
}

/// The names that are looked up: those of the hops shown.
pub open spec fn looked_up(d: TraceView, shown: int) -> Seq<Seq<char>> {
    first_times(names_in(d.hops.take(shown)))
}

pub open spec fn noted_json(w: WaveView, n: Option<(usize, RawView)>) -> JsonView {
    match n {
        Some((s, v)) => JsonView::Str(compact_value(v, w.table[s as int])),
        None => JsonView::Null,
    }
}

/// A signal of a hop, with its value if values are asked for.
pub open spec fn endpoint_json(w: WaveView, name: Seq<char>, at: Option<int>) -> JsonView {
    JsonView::Object(
        match at {
            Some(t) => seq![
                ("path"@, JsonView::Str(name)),
                ("value"@, noted_json(w, noted(w, name, t))),
            ],
            None => seq![("path"@, JsonView::Str(name))],
        },
    )
}

pub open spec fn opt_line_json(n: Option<int>) -> JsonView {
    match n {
        Some(v) => JsonView::Int(v),
        None => JsonView::Null,
    }
}

pub open spec fn hop_json(w: WaveView, h: HopView, at: Option<int>) -> JsonView {
    JsonView::Object(
        seq![
            ("group"@, count_view(h.group as int)),
            ("kind"@, JsonView::Str(hop_tag(h.kind))),
            ("npi_type"@, JsonView::Str(h.npi_type)),
            ("statement"@, JsonView::Str(h.statement)),
            ("scope"@, JsonView::Str(h.scope)),
            ("file"@, opt_text_json(h.file)),
            ("line"@, opt_line_json(h.line)),
            ("boundary"@, JsonView::Bool(h.boundary)),
            (
                "signals"@,
                JsonView::Array(
                    h.signals.map_values(|s: Seq<char>| endpoint_json(w, s, at)),
                ),
            ),
        ],
    )
}

pub open spec fn hops_noun(d: Direction) -> Seq<char> {
    match d {
        Direction::Driver => "drivers"@,
        Direction::Load => "loads"@,
    }
}

fn noun_of(d: Direction) -> (s: &'static str)
    ensures
        s@ == hops_noun(d),
{
    match d {
        Direction::Driver => "drivers",
        Direction::Load => "loads",
    }
}

/// The time of the values and the number of names that are not in the
/// waveform.
pub open spec fn at_members<T: Timescale>(w: WaveView, d: TraceView, shown: int, ts: &T) -> Seq<
    (Seq<char>, JsonView),
> {
    match d.ask.at {
        Some(t) => time_members("at"@, Some(t), ts).push(
            (
                "unresolved_in_wave"@,
                count_view(unknown_names(w.table, looked_up(d, shown)) as int),
            ),
        ),
        None => Seq::empty(),
    }
}

/// What `trace` writes as JSON.
pub open spec fn trace_json<T: Timescale>(w: WaveView, d: TraceView, limit: int, ts: &T) -> JsonView {
    let total = d.hops.len();
    let shown = shown_count(total as int, limit);
    let noun = hops_noun(d.ask.dir);
    let hints = with_hint(
        Seq::empty(),
        trunc_hint_text(shown < total, shown as nat, total, true, noun),
    );
    JsonView::Object(
        (seq![
            ("signal"@, JsonView::Str(d.ask.path)),
            ("dir"@, JsonView::Str(direction_tag(d.ask.dir))),
            ("mode"@, JsonView::Str("static"@)),
            ("kdb"@, JsonView::Str(d.kdb)),
            ("status"@, JsonView::Str(status_tag(d.status))),
        ] + at_members(w, d, shown, ts) + count_members(shown, total as int, true, shown < total)).push(
            ("hint"@, hint_json(hints)),
        ).push(
            (
                noun,
                JsonView::Array(
                    d.hops.take(shown).map_values(|h: HopView| hop_json(w, h, d.ask.at)),
                ),
            ),
        ),
    )
}

/// Are these the values for what is shown? (There are none if none were asked
/// for.)
spec fn notes_fit(n: Option<Notes>, w: WaveView, d: TraceView, shown: int) -> bool {
    match d.ask.at {
        Some(t) => n is Some && n->0.of(w, looked_up(d, shown), t),
        None => n is None,
    }
}

fn endpoint_object(
    table: &Vec<SignalInfo>,
    name: &str,
    notes: &Option<Notes>,
    Ghost(w): Ghost<WaveView>,
    Ghost(d): Ghost<TraceView>,
    Ghost(shown): Ghost<int>,
) -> (j: Json)
    requires
        w.table == signal_views(table@),
        notes_fit(*notes, w, d, shown),
        looked_up(d, shown).contains(name@),
    ensures
        j@ == endpoint_json(w, name@, d.ask.at),
{
    let o: Obj = Obj::new().push("path", Json::str(name));
    match notes {
        None => {
            assert(o@ =~= endpoint_json(w, name@, d.ask.at)->Object_0);
            o.build()
        },
        Some(n) => {
            let ghost t = d.ask.at->0;
            let value: Json = match n.find(name, Ghost(w), Ghost(looked_up(d, shown)), Ghost(t)) {
                Some(x) => {
                    let info: &SignalInfo = &table[x.sid];
                    assert(w.table[x.sid as int] == info@);
                    Json::str(x.value.fmt_value_compact(info.kind, info.width).as_str())
                },
                None => Json::Null,
            };
            let o: Obj = o.push("value", value);
            assert(o@ =~= endpoint_json(w, name@, d.ask.at)->Object_0);
            o.build()
        },
    }
}

fn endpoint_array(
    table: &Vec<SignalInfo>,
    h: &Hop,
    notes: &Option<Notes>,
    Ghost(w): Ghost<WaveView>,
    Ghost(d): Ghost<TraceView>,
    Ghost(shown): Ghost<int>,
) -> (v: Vec<Json>)
    requires
        w.table == signal_views(table@),
        notes_fit(*notes, w, d, shown),
        forall|j: int|
            0 <= j < h@.signals.len() ==> looked_up(d, shown).contains(#[trigger] h@.signals[j]),
    ensures
        json_views(v@) == h@.signals.map_values(|s: Seq<char>| endpoint_json(w, s, d.ask.at)),
{
    let ghost sv = h@.signals;
    let mut v: Vec<Json> = Vec::new();
    let mut i: usize = 0;
    while i < h.signals.len()
        invariant
            i <= h.signals.len(),
            sv == views(h.signals@),
            w.table == signal_views(table@),
            notes_fit(*notes, w, d, shown),
            forall|j: int| 0 <= j < sv.len() ==> looked_up(d, shown).contains(#[trigger] sv[j]),
            v.len() == i,
            forall|k: int| 0 <= k < i ==> (#[trigger] v@[k])@ == endpoint_json(w, sv[k], d.ask.at),
        decreases h.signals.len() - i,
    {
        assert(sv[i as int] == h.signals@[i as int]@);
        v.push(
            endpoint_object(table, h.signals[i].as_str(), notes, Ghost(w), Ghost(d), Ghost(shown)),
        );
        i += 1;
    }
    assert(json_views(v@) =~= sv.map_values(|s: Seq<char>| endpoint_json(w, s, d.ask.at)));
    v
}

fn hop_object(
    table: &Vec<SignalInfo>,
    h: &Hop,
    notes: &Option<Notes>,
    Ghost(w): Ghost<WaveView>,
    Ghost(d): Ghost<TraceView>,
    Ghost(shown): Ghost<int>,
) -> (j: Json)
    requires
        w.table == signal_views(table@),
        notes_fit(*notes, w, d, shown),
        forall|j: int|
            0 <= j < h@.signals.len() ==> looked_up(d, shown).contains(#[trigger] h@.signals[j]),
    ensures
        j@ == hop_json(w, h@, d.ask.at),
{
    let file: Json = match &h.file {
        Some(f) => Json::str(f.as_str()),
        None => Json::Null,
    };
    let line: Json = match h.line {
        Some(n) => Json::Int(n as i64),
        None => Json::Null,
    };
    let o: Obj = Obj::new().push("group", count_json(h.group)).push(
        "kind",
        Json::str(h.kind.tag()),
    ).push("npi_type", Json::str(h.npi_type.as_str())).push(
        "statement",
        Json::str(h.statement.as_str()),
    ).push("scope", Json::str(h.scope.as_str())).push("file", file).push("line", line).push(
        "boundary",
        Json::Bool(h.boundary),
    ).push(
        "signals",
        array(endpoint_array(table, h, notes, Ghost(w), Ghost(d), Ghost(shown))),
    );
    assert(o@ =~= hop_json(w, h@, d.ask.at)->Object_0);
    o.build()
}

proof fn lemma_looked_up(d: TraceView, shown: int, i: int, j: int)
    requires
        0 <= i < shown <= d.hops.len(),
        0 <= j < d.hops[i].signals.len(),
    ensures
        looked_up(d, shown).contains(d.hops[i].signals[j]),
{
    let part = d.hops.take(shown);
    assert(part[i] == d.hops[i]);
    lemma_name_is_in(part, i, j);
    lemma_first_times(names_in(part));
}

fn hop_array(
    table: &Vec<SignalInfo>,
    d: &TraceData,
    notes: &Option<Notes>,
    shown: usize,
    Ghost(w): Ghost<WaveView>,
) -> (v: Vec<Json>)
    requires
        w.table == signal_views(table@),
        shown <= d.hops@.len(),
        notes_fit(*notes, w, d@, shown as int),
    ensures
        json_views(v@) == d@.hops.take(shown as int).map_values(
            |h: HopView| hop_json(w, h, d@.ask.at),
        ),
{
    let ghost dv = d@;
    let mut v: Vec<Json> = Vec::new();
    let mut i: usize = 0;
    while i < shown
        invariant
            i <= shown <= d.hops@.len(),
            dv == d@,
            w.table == signal_views(table@),
            notes_fit(*notes, w, dv, shown as int),
            v.len() == i,
            forall|k: int|
                0 <= k < i ==> (#[trigger] v@[k])@ == hop_json(w, dv.hops[k], dv.ask.at),
        decreases shown - i,
    {
        let h: &Hop = &d.hops[i];
        assert(dv.hops[i as int] == h@);
        assert forall|j: int| 0 <= j < h@.signals.len() implies looked_up(
            dv,
            shown as int,
        ).contains(#[trigger] h@.signals[j]) by {
            lemma_looked_up(dv, shown as int, i as int, j);
        }
        v.push(hop_object(table, h, notes, Ghost(w), Ghost(dv), Ghost(shown as int)));
        i += 1;
    }
    assert(json_views(v@) =~= dv.hops.take(shown as int).map_values(
        |h: HopView| hop_json(w, h, dv.ask.at),
    ));
    v
}

fn notes_of<B: WaveformBackend>(wave: &mut Wave<B>, d: &TraceData, shown: usize) -> (r: Option<Notes>)
    requires
        old(wave).wf(),
        shown <= d.hops@.len(),
    ensures
        final(wave).wf(),
        final(wave).same_wave(old(wave)),
        notes_fit(r, old(wave).snap(), d@, shown as int),
        r matches Some(n) ==> n.unresolved == unknown_names(
            old(wave).table(),
            looked_up(d@, shown as int),
        ),
{
    match d.ask.at {
        Some(t) => Some(annotate(wave, &d.hops, shown, t)),
        None => None,
    }
}

/// Render the answer of the design as JSON.
pub fn trace_to_json<B: WaveformBackend, T: Timescale>(
    wave: &mut Wave<B>,
    d: &TraceData,
    limit: usize,
    ts: &T,
) -> (j: Json)
    requires
        old(wave).wf(),
    ensures
        final(wave).wf(),
        final(wave).same_wave(old(wave)),
        j@ == trace_json(old(wave).snap(), d@, limit as int, ts),
{
    let ghost w = old(wave).snap();
    let ghost dv = d@;
    let total: usize = d.hops.len();
    assert(dv.hops.len() == total);
    let (shown, trunc) = clip_len(total, limit);
    let notes: Option<Notes> = notes_of(wave, d, shown);
    let obj: Obj = Obj::new().push("signal", Json::str(d.ask.path.as_str())).push(
        "dir",
        Json::str(d.ask.dir.tag()),
    ).push("mode", Json::str("static")).push("kdb", Json::str(d.kdb.as_str())).push(
        "status",
        Json::str(d.status.tag()),
    );
    let ghost base = seq![
        ("signal"@, JsonView::Str(dv.ask.path)),
        ("dir"@, JsonView::Str(direction_tag(dv.ask.dir))),
        ("mode"@, JsonView::Str("static"@)),
        ("kdb"@, JsonView::Str(dv.kdb)),
        ("status"@, JsonView::Str(status_tag(dv.status))),
    ];
    assert(obj@ =~= base);
    let obj: Obj = match d.ask.at {
        Some(t) => {
            let n: usize = match &notes {
                Some(x) => x.unresolved,
                None => 0,
            };
            let o: Obj = push_time(obj, "at", t, ts).push("unresolved_in_wave", count_json(n));
            assert(o@ =~= base + at_members(w, dv, shown as int, ts));
            o
        },
        None => {
            assert(base + at_members(w, dv, shown as int, ts) =~= base);
            obj
        },
    };
    let noun: &str = noun_of(d.ask.dir);
    let rows: Vec<Json> = hop_array(wave.signals(), d, &notes, shown, Ghost(w));
    let mut hints: Hints = Hints::new();
    hints.push_opt(trunc_hint(trunc, shown, total, true, noun));
    let obj: Obj = push_counts(obj, shown, total, true, trunc);
    hints.attach(obj).push(noun, array(rows)).build()
}

/// The part of a path after its last slash of either sort.
pub open spec fn base_name(s: Seq<char>) -> Seq<char>
    decreases s.len(),
{
    if s.len() == 0 || s.last() == '/' || s.last() == '\\' {
        Seq::empty()
    } else {
        base_name(s.drop_last()).push(s.last())
    }
}

/// The file and line of a hop, if both are known.
pub open spec fn location(h: HopView) -> Seq<char> {
    match h.file {
        Some(f) => match h.line {
            Some(l) => base_name(f) + ":"@ + dec(l as nat),
            None => ""@,
        },
        None => ""@,
    }
}

proof fn lemma_base_name(s: Seq<char>, k: int)
    requires
        0 <= k <= s.len(),
        forall|i: int| k <= i < s.len() ==> #[trigger] s[i] != '/' && s[i] != '\\',
        k > 0 ==> s[k - 1] == '/' || s[k - 1] == '\\',
    ensures
        base_name(s) == s.skip(k),
    decreases s.len(),
{
    if s.len() > k {
        let less = s.drop_last();
        assert forall|i: int| k <= i < less.len() implies #[trigger] less[i] != '/' && less[i]
            != '\\' by {
            assert(less[i] == s[i]);
        }
        lemma_base_name(less, k);
        assert(less.skip(k).push(s.last()) =~= s.skip(k));
    } else {
        assert(s.skip(k) =~= Seq::empty());
    }
}

fn base_of(path: &str) -> (r: String)
    ensures
        r@ == base_name(path@),
{
    let v: Vec<char> = chars_of(path);
    let n: usize = v.len();
    let mut k: usize = n;
    while k > 0 && v[k - 1] != '/' && v[k - 1] != '\\'
        invariant
            k <= n == v@.len(),
            forall|i: int| k <= i < n ==> #[trigger] v@[i] != '/' && v@[i] != '\\',
        decreases k,
    {
        k -= 1;
    }
    proof {
        lemma_base_name(path@, k as int);
    }
    let r: String = string_of(&v, k, n);
    assert(r@ =~= path@.skip(k as int));
    r
}

fn loc_of(h: &Hop) -> (r: String)
    ensures
        r@ == location(h@),
{
    match &h.file {
        Some(f) => match h.line {
            Some(l) => {
                let mut r: String = base_of(f.as_str());
                r.push_str(":");
                r.push_str(u64_text(l as u64).as_str());
                r
            },
            None => "".to_owned(),
        },
        None => "".to_owned(),
    }
}

/// The greater of two lengths.
pub open spec fn longer(a: nat, b: nat) -> nat {
    if b > a {
        b
    } else {
        a
    }
}

/// The widths of the first two columns over the first `n` hops.
pub open spec fn kind_width(hops: Seq<HopView>, n: int) -> nat
    decreases n,
{
    if n <= 0 {
        0
    } else {
        longer(kind_width(hops, n - 1), hop_tag(hops[n - 1].kind).len())
    }
}

pub open spec fn location_width(hops: Seq<HopView>, n: int) -> nat
    decreases n,
{
    if n <= 0 {
        0
    } else {
        longer(location_width(hops, n - 1), location(hops[n - 1]).len())
    }
}

/// Are the signals of each hop listed below it?
pub open spec fn in_detail(d: TraceView, verbose: bool) -> bool {
    d.ask.dir == Direction::Driver || d.ask.at is Some || verbose
}

/// What a hop is shown as: its statement or, for a port in a short listing,
/// the net on its other side.
pub open spec fn hop_content(h: HopView, detail: bool) -> Seq<char> {
    if !detail && h.kind == HopKind::Port && h.signals.len() > 0 {
        "-> "@ + h.signals[0]
    } else {
        h.statement
    }
}

pub open spec fn noted_text(w: WaveView, name: Seq<char>, at: Option<int>) -> Seq<char> {
    match at {
        Some(t) => match noted(w, name, t) {
            Some((s, v)) => " = "@ + text_value(v, w.table[s as int]),
            None => ""@,
        },
        None => ""@,
    }
}

pub open spec fn relation(d: Direction) -> Seq<char> {
    match d {
        Direction::Driver => "from"@,
        Direction::Load => "to"@,
    }
}

pub open spec fn endpoint_line(w: WaveView, d: TraceView, name: Seq<char>, kw: nat, lw: nat) -> Seq<char> {
    "  "@ + repeated(' ', kw) + repeated(' ', lw) + "    "@ + relation(d.ask.dir) + ": "@ + name
        + noted_text(w, name, d.ask.at) + "\n"@
}

pub open spec fn endpoint_lines(
    w: WaveView,
    d: TraceView,
    names: Seq<Seq<char>>,
    n: int,
    kw: nat,
    lw: nat,
) -> Seq<char>
    decreases n,
{
    if n <= 0 {
        Seq::empty()
    } else {
        endpoint_lines(w, d, names, n - 1, kw, lw) + endpoint_line(w, d, names[n - 1], kw, lw)
    }
}

pub open spec fn hop_text(w: WaveView, d: TraceView, h: HopView, detail: bool, kw: nat, lw: nat) -> Seq<
    char,
> {
    "  "@ + left_justified(hop_tag(h.kind), kw) + "  "@ + left_justified(location(h), lw) + "  "@
        + hop_content(h, detail) + "\n"@ + (if detail {
        endpoint_lines(w, d, h.signals, h.signals.len() as int, kw, lw)
    } else {
        Seq::empty()
    })
}

pub open spec fn hop_texts(
    w: WaveView,
    d: TraceView,
    n: int,
    detail: bool,
    kw: nat,
    lw: nat,
) -> Seq<char>
    decreases n,
{
    if n <= 0 {
        Seq::empty()
    } else {
        hop_texts(w, d, n - 1, detail, kw, lw) + hop_text(w, d, d.hops[n - 1], detail, kw, lw)
    }
}

pub open spec fn trace_title(d: TraceView) -> Seq<char> {
    let n = d.hops.len();
    d.ask.path + " — "@ + (if n == 1 {
        "1 "@ + direction_tag(d.ask.dir)
    } else {
        dec(n) + " "@ + hops_noun(d.ask.dir)
    }) + "\n"@
}

pub open spec fn kdb_note(d: TraceView, verbose: bool) -> Seq<char> {
    if verbose {
        "\nkdb: "@ + d.kdb + "\n"@
    } else {
        ""@
    }
}

pub open spec fn status_note(s: TraceStatus) -> Seq<char> {
    match s {
        TraceStatus::Resolved => ""@,
        TraceStatus::NotFound => "\n"@,
        TraceStatus::BoundaryOnly => "\ndriver is outside the traced hierarchy\n"@,
    }
}

pub open spec fn undumped_note(w: WaveView, d: TraceView, shown: int) -> Seq<char> {
    let n = unknown_names(w.table, looked_up(d, shown));
    if d.ask.at is Some && n > 0 {
        "\n"@ + dec(n) + " endpoint(s) not dumped in this waveform\n"@
    } else {
        ""@
    }
}

/// What `trace` writes as text.
pub open spec fn trace_text(w: WaveView, d: TraceView, verbose: bool, limit: int) -> Seq<char> {
    let total = d.hops.len();
    let shown = shown_count(total as int, limit);
    if total == 0 {
        trace_title(d) + kdb_note(d, verbose)
    } else {
        trace_title(d) + "\n"@ + hop_texts(
            w,
            d,
            shown,
            in_detail(d, verbose),
            kind_width(d.hops, shown),
            location_width(d.hops, shown),
        ) + status_note(d.status) + undumped_note(w, d, shown) + kdb_note(d, verbose) + opt_line(
            ""@,
            if shown < total {
                Some(trunc_text(shown as nat, total, ""@, hops_noun(d.ask.dir)))
            } else {
                None
            },
        )
    }
}

fn column_widths(hops: &Vec<Hop>, shown: usize) -> (r: (usize, usize))
    requires
        shown <= hops@.len(),
    ensures
        r.0 == kind_width(hop_views(hops@), shown as int),
        r.1 == location_width(hop_views(hops@), shown as int),
{
    let ghost hv = hop_views(hops@);
    let mut a: usize = 0;
    let mut b: usize = 0;
    let mut i: usize = 0;
    while i < shown
        invariant
            i <= shown <= hops@.len(),
            hv == hop_views(hops@),
            a == kind_width(hv, i as int),
            b == location_width(hv, i as int),
        decreases shown - i,
    {
        let h: &Hop = &hops[i];
        assert(hv[i as int] == h@);
        let k: usize = h.kind.tag().unicode_len();
        let loc: String = loc_of(h);
        let l: usize = loc.as_str().unicode_len();
        if k > a {
            a = k;
        }
        if l > b {
            b = l;
        }
        i += 1;
    }
    (a, b)
}

fn endpoint_text(
    table: &Vec<SignalInfo>,
    dir: Direction,
    name: &str,
    notes: &Option<Notes>,
    kw: usize,
    lw: usize,
    Ghost(w): Ghost<WaveView>,
    Ghost(d): Ghost<TraceView>,
    Ghost(shown): Ghost<int>,
) -> (m: String)
    requires
        w.table == signal_views(table@),
        dir == d.ask.dir,
        notes_fit(*notes, w, d, shown),
        looked_up(d, shown).contains(name@),
    ensures
        m@ == endpoint_line(w, d, name@, kw as nat, lw as nat),
{
    let mut value: String = "".to_owned();
    match notes {
        None => {},
        Some(n) => {
            let ghost t = d.ask.at->0;
            match n.find(name, Ghost(w), Ghost(looked_up(d, shown)), Ghost(t)) {
                Some(x) => {
                    let info: &SignalInfo = &table[x.sid];
                    assert(w.table[x.sid as int] == info@);
                    value = " = ".to_owned();
                    value.push_str(x.value.fmt_value(info.kind, info.width).as_str());
                },
                None => {},
            }
        },
    }
    assert(value@ == noted_text(w, name@, d.ask.at));
    let rel: &str = match dir {
        Direction::Driver => "from",
        Direction::Load => "to",
    };
    let mut m: String = "  ".to_owned();
    m.push_str(repeat(' ', kw).as_str());
    m.push_str(repeat(' ', lw).as_str());
    m.push_str("    ");
    m.push_str(rel);
    m.push_str(": ");
    m.push_str(name);
    m.push_str(value.as_str());
    m.push_str("\n");
    m
}

fn push_endpoints(
    out: &mut String,
    table: &Vec<SignalInfo>,
    dir: Direction,
    h: &Hop,
    notes: &Option<Notes>,
    kw: usize,
    lw: usize,
    Ghost(w): Ghost<WaveView>,
    Ghost(d): Ghost<TraceView>,
    Ghost(shown): Ghost<int>,
)
    requires
        w.table == signal_views(table@),
        dir == d.ask.dir,
        notes_fit(*notes, w, d, shown),
        forall|j: int|
            0 <= j < h@.signals.len() ==> looked_up(d, shown).contains(#[trigger] h@.signals[j]),
    ensures
        final(out)@ == old(out)@ + endpoint_lines(
            w,
            d,
            h@.signals,
            h@.signals.len() as int,
            kw as nat,
            lw as nat,
        ),
{
    let ghost sv = h@.signals;
    let ghost o0 = out@;
    let mut i: usize = 0;
    assert(out@ =~= o0 + Seq::<char>::empty());
    while i < h.signals.len()
        invariant
            i <= h.signals.len(),
            sv == views(h.signals@),
            w.table == signal_views(table@),
            dir == d.ask.dir,
            notes_fit(*notes, w, d, shown),
            forall|j: int| 0 <= j < sv.len() ==> looked_up(d, shown).contains(#[trigger] sv[j]),
            out@ == o0 + endpoint_lines(w, d, sv, i as int, kw as nat, lw as nat),
        decreases h.signals.len() - i,
    {
        assert(sv[i as int] == h.signals@[i as int]@);
        let line: String = endpoint_text(
            table,
            dir,
            h.signals[i].as_str(),
            notes,
            kw,
            lw,
            Ghost(w),
            Ghost(d),
            Ghost(shown),
        );
        out.push_str(line.as_str());
        assert(out@ =~= o0 + endpoint_lines(w, d, sv, i + 1, kw as nat, lw as nat));
        i += 1;
    }
}

fn content_of(h: &Hop, detail: bool) -> (s: String)
    ensures
        s@ == hop_content(h@, detail),
{
    if !detail && h.kind == HopKind::Port && h.signals.len() > 0 {
        let mut m: String = "-> ".to_owned();
        m.push_str(h.signals[0].as_str());
        assert(h@.signals[0] == h.signals@[0]@);
        m
    } else {
        h.statement.clone()
    }
}

fn push_hop(
    out: &mut String,
    table: &Vec<SignalInfo>,
    d: &TraceData,
    i: usize,
    notes: &Option<Notes>,
    detail: bool,
    kw: usize,
    lw: usize,
    Ghost(w): Ghost<WaveView>,
    Ghost(shown): Ghost<int>,
)
    requires
        w.table == signal_views(table@),
        i < shown <= d.hops@.len(),
        notes_fit(*notes, w, d@, shown),
    ensures
        final(out)@ == old(out)@ + hop_text(
            w,
            d@,
            d@.hops[i as int],
            detail,
            kw as nat,
            lw as nat,
        ),
{
    let ghost dv = d@;
    let ghost o0 = out@;
    let h: &Hop = &d.hops[i];
    assert(dv.hops[i as int] == h@);
    let mut m: String = "  ".to_owned();
    m.push_str(ljust(h.kind.tag(), kw).as_str());
    m.push_str("  ");
    m.push_str(ljust(loc_of(h).as_str(), lw).as_str());
    m.push_str("  ");
    m.push_str(content_of(h, detail).as_str());
    m.push_str("\n");
    let ghost head = m@;
    if detail {
        assert forall|j: int| 0 <= j < h@.signals.len() implies looked_up(dv, shown).contains(
            #[trigger] h@.signals[j],
        ) by {
            lemma_looked_up(dv, shown, i as int, j);
        }
        push_endpoints(
            &mut m,
            table,
            d.ask.dir,
            h,
            notes,
            kw,
            lw,
            Ghost(w),
            Ghost(dv),
            Ghost(shown),
        );
    }
    assert(m@ =~= hop_text(w, dv, h@, detail, kw as nat, lw as nat));
    out.push_str(m.as_str());
}

fn title_text(d: &TraceData) -> (m: String)
    ensures
        m@ == trace_title(d@),
{
    assert(d@.hops.len() == d.hops@.len());
    let n: usize = d.hops.len();
    let mut head: String = "1 ".to_owned();
    if n == 1 {
        head.push_str(d.ask.dir.tag());
    } else {
        head = usize_text(n);
        head.push_str(" ");
        head.push_str(noun_of(d.ask.dir));
    }
    let mut m: String = d.ask.path.clone();
    m.push_str(" — ");
    m.push_str(head.as_str());
    m.push_str("\n");
    m
}

fn kdb_text(d: &TraceData, verbose: bool) -> (m: String)
    ensures
        m@ == kdb_note(d@, verbose),
{
    if verbose {
        let mut m: String = "\nkdb: ".to_owned();
        m.push_str(d.kdb.as_str());
        m.push_str("\n");
        m
    } else {
        "".to_owned()
    }
}

fn status_text(s: TraceStatus) -> (m: &'static str)
    ensures
        m@ == status_note(s),
{
    match s {
        TraceStatus::Resolved => "",
        TraceStatus::NotFound => "\n",
        TraceStatus::BoundaryOnly => "\ndriver is outside the traced hierarchy\n",
    }
}

fn undumped_text(notes: &Option<Notes>, Ghost(w): Ghost<WaveView>, Ghost(d): Ghost<TraceView>, Ghost(
    shown,
): Ghost<int>) -> (m: String)
    requires
        notes_fit(*notes, w, d, shown),
    ensures
        m@ == undumped_note(w, d, shown),
{
    match notes {
        Some(n) => {
            if n.unresolved > 0 {
                let mut m: String = "\n".to_owned();
                m.push_str(usize_text(n.unresolved).as_str());
                m.push_str(" endpoint(s) not dumped in this waveform\n");
                m
            } else {
                "".to_owned()
            }
        },
        None => "".to_owned(),
    }
}

fn push_hops(
    out: &mut String,
    table: &Vec<SignalInfo>,
    d: &TraceData,
    notes: &Option<Notes>,
    shown: usize,
    detail: bool,
    Ghost(w): Ghost<WaveView>,
)
    requires
        w.table == signal_views(table@),
        shown <= d.hops@.len(),
        notes_fit(*notes, w, d@, shown as int),
    ensures
        final(out)@ == old(out)@ + hop_texts(
            w,
            d@,
            shown as int,
            detail,
            kind_width(d@.hops, shown as int),
            location_width(d@.hops, shown as int),
        ),
{
    let ghost dv = d@;
    let ghost o0 = out@;
    let (kw, lw) = column_widths(&d.hops, shown);
    let mut i: usize = 0;
    assert(out@ =~= o0 + Seq::<char>::empty());
    while i < shown
        invariant
            i <= shown <= d.hops@.len(),
            dv == d@,
            w.table == signal_views(table@),
            notes_fit(*notes, w, dv, shown as int),
            out@ == o0 + hop_texts(w, dv, i as int, detail, kw as nat, lw as nat),
        decreases shown - i,
    {
        push_hop(out, table, d, i, notes, detail, kw, lw, Ghost(w), Ghost(shown as int));
        assert(out@ =~= o0 + hop_texts(w, dv, i + 1, detail, kw as nat, lw as nat));
        i += 1;
    }
}

/// Render the answer of the design as text.
pub fn trace_to_text<B: WaveformBackend>(
    wave: &mut Wave<B>,
    d: &TraceData,
    verbose: bool,
    limit: usize,
) -> (s: String)
    requires
        old(wave).wf(),
    ensures
        final(wave).wf(),
        final(wave).same_wave(old(wave)),
        s@ == trace_text(old(wave).snap(), d@, verbose, limit as int),
{
    let ghost w = old(wave).snap();
    let ghost dv = d@;
    let total: usize = d.hops.len();
    assert(dv.hops.len() == total);
    let (shown, trunc) = clip_len(total, limit);
    let mut out: String = title_text(d);
    if total == 0 {
        out.push_str(kdb_text(d, verbose).as_str());
        return out;
    }
    out.push_str("\n");
    let notes: Option<Notes> = notes_of(wave, d, shown);
    let detail: bool = d.ask.dir == Direction::Driver || d.ask.at.is_some() || verbose;
    push_hops(&mut out, wave.signals(), d, &notes, shown, detail, Ghost(w));
    out.push_str(status_text(d.status));
    out.push_str(undumped_text(&notes, Ghost(w), Ghost(dv), Ghost(shown as int)).as_str());
    out.push_str(kdb_text(d, verbose).as_str());
    let notice: Option<String> = if trunc {
        Some(trunc_line(shown, total, noun_of(d.ask.dir)))
    } else {
        None
    };
    push_opt_line(&mut out, "", notice);
    out
}

} // verus!
