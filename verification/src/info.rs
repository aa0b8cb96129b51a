//! The `info` command: what is known about the file as a whole.

use vstd::prelude::*;

use crate::backend::WaveformBackend;
use crate::json::{array, json_views, member_views, object, Json, JsonView, Obj};
use crate::model::{scopes_in, Wave, WaveView};
use crate::number::{dec, u64_text, usize_text};
use crate::order::sorted_set;
use crate::report::{count_json, count_view, push_opt_time, time_members};
use crate::replay::opt_tick;
use crate::signal::{named_counts, type_counts_of};
use crate::text::{chars_of, join, joined, string_of, views};
use crate::time::Timescale;

verus! {

/// Digits with a comma before every third one, counted from the end.
pub open spec fn grouped(s: Seq<char>) -> Seq<char>
    decreases s.len(),
{
    if s.len() <= 3 {
        s
    } else {
        grouped(s.take(s.len() - 3)) + ","@ + s.skip(s.len() - 3)
    }
}

/// A number with its digits grouped by thousands.
pub open spec fn thousands_text(n: int) -> Seq<char> {
    if n < 0 {
        "-"@ + grouped(dec((-n) as nat))
    } else {
        grouped(dec(n as nat))
    }
}

/// A number with its digits grouped by thousands.
pub fn thousands(n: i64) -> (s: String)
    ensures
        s@ == thousands_text(n as int),
{
    let size: u64 = if n == i64::MIN {
        9223372036854775808
    } else if n < 0 {
        (-n) as u64
    } else {
        n as u64
    };
    let text: String = u64_text(size);
    let digits: Vec<char> = chars_of(text.as_str());
    let ghost ds = digits@;
    let len: usize = digits.len();
    let mut at: usize = len;
    if len > 3 {
        at = len % 3;
        if at == 0 {
            at = 3;
        }
    }
    let mut out: String = string_of(&digits, 0, at);
    assert(out@ =~= ds.take(at as int));
    while at < len
        invariant
            at <= len == digits@.len(),
            ds == digits@,
            (len - at) % 3 == 0,
            at > 0 || at == len,
            out@ == grouped(ds.take(at as int)),
        decreases len - at,
    {
        let ghost o0 = out@;
        assert(at + 3 <= len);
        out.push_str(",");
        out.push_str(string_of(&digits, at, at + 3).as_str());
        proof {
            let t = ds.take(at + 3);
            assert(t.take(t.len() - 3) =~= ds.take(at as int));
            assert(t.skip(t.len() - 3) =~= ds.subrange(at as int, at + 3));
            assert(out@ =~= grouped(t));
        }
        at += 3;
    }
    assert(ds.take(at as int) =~= ds);
    if n < 0 {
        let mut neg: String = "-".to_owned();
        neg.push_str(out.as_str());
        neg
    } else {
        out
    }
}

/// The time from `a` to `b`, modulo 2^64.
pub open spec fn time_span(a: i64, b: i64) -> i64 {
    b.wrapping_sub(a)
}

pub open spec fn first_time(w: WaveView) -> Option<int> {
    match w.meta.time_range {
        Some((a, _)) => Some(a as int),
        None => None,
    }
}

pub open spec fn last_time(w: WaveView) -> Option<int> {
    match w.meta.time_range {
        Some((_, b)) => Some(b as int),
        None => None,
    }
}

pub open spec fn duration(w: WaveView) -> Option<int> {
    match w.meta.time_range {
        Some((a, b)) => Some(time_span(a, b) as int),
        None => None,
    }
}

fn range_parts(r: Option<(i64, i64)>) -> (p: (Option<i64>, Option<i64>, Option<i64>))
    ensures
        match r {
            Some((a, b)) => p == (Some(a), Some(b), Some(time_span(a, b))),
            None => p == (None::<i64>, None::<i64>, None::<i64>),
        },
{
    match r {
        Some((a, b)) => (Some(a), Some(b), Some(b.wrapping_sub(a))),
        None => (None, None, None),
    }
}

pub open spec fn texts_json(v: Seq<Seq<char>>) -> JsonView {
    JsonView::Array(v.map_values(|s: Seq<char>| JsonView::Str(s)))
}

/// Texts as a JSON array.
pub fn text_array(v: &Vec<String>) -> (j: Json)
    ensures
        j@ == texts_json(views(v@)),
{
    let mut out: Vec<Json> = Vec::new();
    let mut i: usize = 0;
    while i < v.len()
        invariant
            i <= v.len(),
            out.len() == i,
            forall|k: int| 0 <= k < i ==> (#[trigger] out@[k])@ == JsonView::Str(v@[k]@),
        decreases v.len() - i,
    {
        out.push(Json::str(v[i].as_str()));
        i += 1;
    }
    assert(json_views(out@) =~= views(v@).map_values(|s: Seq<char>| JsonView::Str(s)));
    array(out)
}

pub open spec fn types_json(c: Seq<(Seq<char>, nat)>) -> JsonView {
    JsonView::Object(c.map_values(|p: (Seq<char>, nat)| (p.0, count_view(p.1 as int))))
}

fn type_object(v: &Vec<(String, usize)>) -> (j: Json)
    ensures
        j@ == types_json(named_counts(v@)),
{
    let mut out: Vec<(String, Json)> = Vec::new();
    let mut i: usize = 0;
    while i < v.len()
        invariant
            i <= v.len(),
            out.len() == i,
            forall|k: int|
                0 <= k < i ==> (#[trigger] out@[k]).0@ == v@[k].0@ && out@[k].1@ == count_view(
                    v@[k].1 as int,
                ),
        decreases v.len() - i,
    {
        out.push((v[i].0.clone(), count_json(v[i].1)));
        i += 1;
    }
    assert(member_views(out@) =~= named_counts(v@).map_values(
        |p: (Seq<char>, nat)| (p.0, count_view(p.1 as int)),
    ));
    object(out)
}

/// What `info` writes as JSON, for a file of `size` bytes.
pub open spec fn info_json<T: Timescale>(w: WaveView, size: int, ts: &T) -> JsonView {
    JsonView::Object(
        (seq![
            ("file"@, JsonView::Str(w.meta.path)),
            ("size_bytes"@, JsonView::Int(size)),
            ("timescale"@, JsonView::Str(w.meta.timescale)),
            ("date"@, JsonView::Str(w.meta.date)),
            ("version"@, JsonView::Str(w.meta.version)),
            ("comments"@, texts_json(w.meta.comments)),
            ("signal_count"@, count_view(w.table.len() as int)),
            ("reference_count"@, count_view(w.meta.decls.len() as int)),
            ("synthesized_buses"@, JsonView::Int(0)),
            ("var_types"@, types_json(type_counts_of(w.meta.decls))),
        ] + time_members("time_min"@, first_time(w), ts) + time_members(
            "time_max"@,
            last_time(w),
            ts,
        ) + time_members("duration"@, duration(w), ts)).push(
            ("scopes"@, texts_json(sorted_set(scopes_in(w.table)))),
        ),
    )
}

/// The `info` command with JSON output.
pub fn compute_info<B: WaveformBackend, T: Timescale>(wave: &Wave<B>, size_bytes: i64, ts: &T) -> (j:
    Json)
    requires
        wave.wf(),
    ensures
        j@ == info_json(wave.snap(), size_bytes as int, ts),
{
    let ghost w = wave.snap();
    let (first, last, span) = range_parts(wave.time_range());
    let obj: Obj = Obj::new().push("file", Json::str(wave.path())).push(
        "size_bytes",
        Json::Int(size_bytes),
    ).push("timescale", Json::str(wave.timescale_str().as_str())).push(
        "date",
        Json::str(wave.date()),
    ).push("version", Json::str(wave.version())).push("comments", text_array(&wave.comments()));
    let obj: Obj = obj.push("signal_count", count_json(wave.signal_count())).push(
        "reference_count",
        count_json(wave.raw_var_count()),
    ).push("synthesized_buses", Json::Int(0)).push(
        "var_types",
        type_object(wave.type_counts_sorted()),
    );
    assert(obj@ =~= seq![
        ("file"@, JsonView::Str(w.meta.path)),
        ("size_bytes"@, JsonView::Int(size_bytes as int)),
        ("timescale"@, JsonView::Str(w.meta.timescale)),
        ("date"@, JsonView::Str(w.meta.date)),
        ("version"@, JsonView::Str(w.meta.version)),
        ("comments"@, texts_json(w.meta.comments)),
        ("signal_count"@, count_view(w.table.len() as int)),
        ("reference_count"@, count_view(w.meta.decls.len() as int)),
        ("synthesized_buses"@, JsonView::Int(0)),
        ("var_types"@, types_json(type_counts_of(w.meta.decls))),
    ]);
    let obj: Obj = push_opt_time(obj, "time_min", first, ts);
    let obj: Obj = push_opt_time(obj, "time_max", last, ts);
    let obj: Obj = push_opt_time(obj, "duration", span, ts);
    assert(opt_tick(first) == first_time(w));
    obj.push("scopes", text_array(&wave.scopes())).build()
}

/// A line that is left out when there is nothing to say.
pub open spec fn line_unless_empty(label: Seq<char>, s: Seq<char>) -> Seq<char> {
    if s.len() == 0 {
        Seq::empty()
    } else {
        label + s + "\n"@
    }
}

fn push_unless_empty(out: &mut String, label: &str, s: &str)
    ensures
        final(out)@ == old(out)@ + line_unless_empty(label@, s@),
{
    let ghost o0 = out@;
    if s.is_empty() {
        assert(out@ =~= o0 + Seq::<char>::empty());
    } else {
        out.push_str(label);
        out.push_str(s);
        out.push_str("\n");
        assert(out@ =~= o0 + (label@ + s@ + "\n"@));
    }
}

pub open spec fn signals_line(signals: nat, references: nat) -> Seq<char> {
    if signals == references {
        "Signals   : "@ + dec(signals) + "\n"@
    } else {
        "Signals   : "@ + dec(signals) + " unique ("@ + dec(references) + " $var refs via aliases)\n"@
    }
}

fn signals_text(signals: usize, references: usize) -> (s: String)
    ensures
        s@ == signals_line(signals as nat, references as nat),
{
    let mut m: String = "Signals   : ".to_owned();
    m.push_str(usize_text(signals).as_str());
    if signals == references {
        m.push_str("\n");
    } else {
        m.push_str(" unique (");
        m.push_str(usize_text(references).as_str());
        m.push_str(" $var refs via aliases)\n");
    }
    m
}

pub open spec fn type_label(p: (Seq<char>, nat)) -> Seq<char> {
    p.0 + "="@ + dec(p.1)
}

pub open spec fn types_line(c: Seq<(Seq<char>, nat)>) -> Seq<char> {
    "Types     : "@ + joined(c.map_values(|p: (Seq<char>, nat)| type_label(p)), ", "@) + "\n"@
}

fn types_text(v: &Vec<(String, usize)>) -> (s: String)
    ensures
        s@ == types_line(named_counts(v@)),
{
    let mut labels: Vec<String> = Vec::new();
    let mut i: usize = 0;
    while i < v.len()
        invariant
            i <= v.len(),
            labels.len() == i,
            forall|k: int|
                0 <= k < i ==> (#[trigger] labels@[k])@ == type_label((v@[k].0@, v@[k].1 as nat)),
        decreases v.len() - i,
    {
        let mut one: String = v[i].0.clone();
        one.push_str("=");
        one.push_str(usize_text(v[i].1).as_str());
        labels.push(one);
        i += 1;
    }
    assert(views(labels@) =~= named_counts(v@).map_values(
        |p: (Seq<char>, nat)| type_label(p),
    ));
    let mut m: String = "Types     : ".to_owned();
    m.push_str(join(&labels, ", ").as_str());
    m.push_str("\n");
    m
}

pub open spec fn shown_or_none<T: Timescale>(t: Option<int>, ts: &T) -> Seq<char> {
    match t {
        Some(v) => ts.shown(v),
        None => "None"@,
    }
}

fn shown_text<T: Timescale>(t: Option<i64>, ts: &T) -> (s: String)
    ensures
        s@ == shown_or_none(opt_tick(t), ts),
{
    match t {
        Some(v) => ts.fmt_time(v),
        None => "None".to_owned(),
    }
}

pub open spec fn time_line<T: Timescale>(w: WaveView, ts: &T) -> Seq<char> {
    "Time      : "@ + shown_or_none(first_time(w), ts) + " ~ "@ + shown_or_none(last_time(w), ts)
        + " ("@ + shown_or_none(duration(w), ts) + ")\n"@
}

/// One line for each of the first `n` texts.
pub open spec fn item_lines(label: Seq<char>, v: Seq<Seq<char>>, n: int) -> Seq<char>
    decreases n,
{
    if n <= 0 {
        Seq::empty()
    } else {
        item_lines(label, v, n - 1) + (label + v[n - 1] + "\n"@)
    }
}

fn push_items(out: &mut String, label: &str, v: &Vec<String>)
    ensures
        final(out)@ == old(out)@ + item_lines(label@, views(v@), v@.len() as int),
{
    let ghost o0 = out@;
    let ghost vs = views(v@);
    let mut i: usize = 0;
    assert(out@ =~= o0 + Seq::<char>::empty());
    while i < v.len()
        invariant
            i <= v.len(),
            vs == views(v@),
            out@ == o0 + item_lines(label@, vs, i as int),
        decreases v.len() - i,
    {
        let mut m: String = label.to_owned();
        m.push_str(v[i].as_str());
        m.push_str("\n");
        assert(vs[i as int] == v@[i as int]@);
        out.push_str(m.as_str());
        assert(out@ =~= o0 + item_lines(label@, vs, i + 1));
        i += 1;
    }
}

/// What `info` writes as text, for a file of `size` bytes.
pub open spec fn info_text<T: Timescale>(w: WaveView, size: int, verbose: bool, ts: &T) -> Seq<char> {
    let scopes = sorted_set(scopes_in(w.table));
    "File      : "@ + w.meta.path + "\n"@ + ("Size      : "@ + thousands_text(size) + " bytes\n"@)
        + line_unless_empty("Date      : "@, w.meta.date) + line_unless_empty(
        "Tool      : "@,
        w.meta.version,
    ) + ("Timescale : "@ + w.meta.timescale + "\n"@) + signals_line(
        w.table.len(),
        w.meta.decls.len(),
    ) + types_line(type_counts_of(w.meta.decls)) + time_line(w, ts) + item_lines(
        "  scope: "@,
        scopes,
        scopes.len() as int,
    ) + (if w.meta.comments.len() > 0 && verbose {
        "Comments  :\n"@ + item_lines("  - "@, w.meta.comments, w.meta.comments.len() as int)
    } else {
        Seq::empty()
    })
}

/// The `info` command with text output.
pub fn text_info<B: WaveformBackend, T: Timescale>(
    wave: &Wave<B>,
    size_bytes: i64,
    verbose: bool,
    ts: &T,
) -> (s: String)
    requires
        wave.wf(),
    ensures
        s@ == info_text(wave.snap(), size_bytes as int, verbose, ts),
{
    let ghost w = wave.snap();
    let mut out: String = "File      : ".to_owned();
    out.push_str(wave.path());
    out.push_str("\n");
    let mut size: String = "Size      : ".to_owned();
    size.push_str(thousands(size_bytes).as_str());
    size.push_str(" bytes\n");
    out.push_str(size.as_str());
    push_unless_empty(&mut out, "Date      : ", wave.date());
    push_unless_empty(&mut out, "Tool      : ", wave.version());
    let mut scale: String = "Timescale : ".to_owned();
    scale.push_str(wave.timescale_str().as_str());
    scale.push_str("\n");
    out.push_str(scale.as_str());
    out.push_str(signals_text(wave.signal_count(), wave.raw_var_count()).as_str());
    out.push_str(types_text(wave.type_counts_sorted()).as_str());
    let (first, last, span) = range_parts(wave.time_range());
    let mut times: String = "Time      : ".to_owned();
    times.push_str(shown_text(first, ts).as_str());
    times.push_str(" ~ ");
    times.push_str(shown_text(last, ts).as_str());
    times.push_str(" (");
    times.push_str(shown_text(span, ts).as_str());
    times.push_str(")\n");
    assert(times@ == time_line(w, ts));
    out.push_str(times.as_str());
    let scopes: Vec<String> = wave.scopes();
    assert(views(scopes@).len() == scopes@.len());
    push_items(&mut out, "  scope: ", &scopes);
    let comments: Vec<String> = wave.comments();
    assert(views(comments@).len() == comments@.len());
    let mut extra: String = "".to_owned();
    if comments.len() > 0 && verbose {
        extra = "Comments  :\n".to_owned();
        push_items(&mut extra, "  - ", &comments);
    }
    proof {
        reveal_strlit("");
        assert(!(comments@.len() > 0 && verbose) ==> extra@ =~= Seq::empty());
    }
    out.push_str(extra.as_str());
    out
}

} // verus!
