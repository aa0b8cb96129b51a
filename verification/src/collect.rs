//! Reducing the raw changes of one signal to a time window.
//!
//! A seek by time yields the changes of a file section, in two passes: the
//! first over the window and the head of its first section, the second, only
//! where the first found no trustworthy value entering the window, over what
//! lies before. The reduction keeps the entering change and the changes of the
//! window, without repetitions.

use vstd::prelude::*;

use crate::backend::{slice_is_window, window_of, window_slice};
use crate::bitstr::{ascii_or_x, BitStr};
use crate::history::{
    in_time_order, same_value, upto, upto_is_unique, upto_splits, ChangeView, RawValue, RawView,
    SignalTrace,
};
use crate::replay::opt_tick;

verus! {

/// How to read the raw payload of a signal.
#[derive(Debug, Clone, Copy, PartialEq, Eq, Structural)]
pub enum WinKind {
    Bits,
    Real,
    Str,
    Event,
}

/// A raw payload: bytes, or a real number by bit pattern and text.
#[derive(Debug)]
pub enum Payload {
    Bytes(Vec<u8>),
    Number { bits: u64, text: String },
}

/// The character that a byte of a logic value stands for. The upper-case
/// states fold to lower case, everything else is kept.
pub open spec fn canonical(b: u8) -> char {
    if b == 88 {
        'x'
    } else if b == 90 {
        'z'
    } else if b == 72 {
        'h'
    } else if b == 85 {
        'u'
    } else if b == 87 {
        'w'
    } else if b == 76 {
        'l'
    } else {
        b as char
    }
}

fn canonical_char(b: u8) -> (c: char)
    ensures
        c == canonical(b),
{
    if b == 88 {
        'x'
    } else if b == 90 {
        'z'
    } else if b == 72 {
        'h'
    } else if b == 85 {
        'u'
    } else if b == 87 {
        'w'
    } else if b == 76 {
        'l'
    } else {
        b as char
    }
}

/// The characters of a logic value, as a [`BitStr`] holds them.
pub open spec fn logic_chars(bytes: Seq<u8>) -> Seq<char> {
    if bytes.len() > 23 {
        bytes.map_values(|b: u8| canonical(b))
    } else {
        bytes.map_values(|b: u8| ascii_or_x(canonical(b)))
    }
}

/// The value of a payload, if it is one of the kind. Text is one character for
/// each byte.
pub open spec fn decoded(kind: WinKind, value: Payload) -> Option<RawView> {
    match (kind, value) {
        (WinKind::Event, _) => Some(RawView::Event),
        (WinKind::Real, Payload::Number { bits, text }) => Some(RawView::Real { bits, text: text@ }),
        (WinKind::Str, Payload::Bytes(b)) => Some(RawView::Str(b@.map_values(|x: u8| x as char))),
        (WinKind::Bits, Payload::Bytes(b)) => Some(RawView::Bits(logic_chars(b@))),
        _ => None,
    }
}

/// Decode a payload. One that contradicts the declared kind has no value.
pub fn decode(kind: WinKind, value: &Payload) -> (r: Option<RawValue>)
    ensures
        match r {
            Some(v) => decoded(kind, *value) == Some(v@),
            None => decoded(kind, *value) is None,
        },
{
    match value {
        Payload::Number { bits, text } => match kind {
            WinKind::Event => Some(RawValue::Event),
            WinKind::Real => Some(RawValue::from_real(*bits, text.as_str())),
            _ => None,
        },
        Payload::Bytes(bytes) => match kind {
            WinKind::Event => Some(RawValue::Event),
            WinKind::Str => Some(RawValue::Str(latin_text(bytes))),
            WinKind::Bits => Some(RawValue::Bits(logic_value(bytes))),
            WinKind::Real => None,
        },
    }
}

fn latin_text(bytes: &Vec<u8>) -> (s: String)
    ensures
        s@ == bytes@.map_values(|x: u8| x as char),
{
    let mut s: String = String::new();
    let mut i: usize = 0;
    while i < bytes.len()
        invariant
            i <= bytes.len(),
            s@ == bytes@.take(i as int).map_values(|x: u8| x as char),
        decreases bytes.len() - i,
    {
        s.push(bytes[i] as char);
        i += 1;
        assert(s@ =~= bytes@.take(i as int).map_values(|x: u8| x as char));
    }
    assert(bytes@.take(i as int) =~= bytes@);
    s
}

fn logic_value(bytes: &Vec<u8>) -> (r: BitStr)
    ensures
        r@ == logic_chars(bytes@),
{
    let mut chars: Vec<char> = Vec::new();
    let mut i: usize = 0;
    while i < bytes.len()
        invariant
            i <= bytes.len(),
            chars@ == bytes@.take(i as int).map_values(|b: u8| canonical(b)),
        decreases bytes.len() - i,
    {
        chars.push(canonical_char(bytes[i]));
        i += 1;
        assert(chars@ =~= bytes@.take(i as int).map_values(|b: u8| canonical(b)));
    }
    assert(bytes@.take(i as int) =~= bytes@);
    let r: BitStr = BitStr::from_ascii_iter(bytes.len(), &chars);
    assert(r@ =~= logic_chars(bytes@));
    r
}

/// A tick with the value taken there.
pub open spec fn change_of(p: (i64, RawValue)) -> ChangeView {
    ChangeView { tick: p.0 as int, value: p.1@ }
}

pub open spec fn opt_change(p: Option<(i64, RawValue)>) -> Option<ChangeView> {
    match p {
        Some(c) => Some(change_of(c)),
        None => None,
    }
}

/// Collects the changes of one signal for a window.
#[derive(Debug)]
pub struct Collector {
    pub kind: WinKind,
    /// The last change of the first pass at or before the window's start.
    pub seed: Option<(i64, RawValue)>,
    /// Is that one perhaps no change, but an echo of a section's opening
    /// snapshot?
    pub seed_suspect: bool,
    /// The changes of the window, without repetitions.
    pub win: Vec<(i64, RawValue)>,
    /// Was the signal handed to the second pass?
    pub demoted: bool,
    /// The last change of the second pass.
    pub seed2: Option<(i64, RawValue)>,
}

#[verifier::ext_equal]
pub struct CollectorView {
    pub kind: WinKind,
    pub seed: Option<ChangeView>,
    pub suspect: bool,
    pub win: Seq<ChangeView>,
    pub demoted: bool,
    pub late: Option<ChangeView>,
}

impl View for Collector {
    type V = CollectorView;

    open spec fn view(&self) -> CollectorView {
        CollectorView {
            kind: self.kind,
            seed: opt_change(self.seed),
            suspect: self.seed_suspect,
            win: self.win@.map_values(|p: (i64, RawValue)| change_of(p)),
            demoted: self.demoted,
            late: opt_change(self.seed2),
        }
    }
}

/// A collector without changes.
pub open spec fn fresh(kind: WinKind) -> CollectorView {
    CollectorView {
        kind,
        seed: None,
        suspect: false,
        win: Seq::empty(),
        demoted: false,
        late: None,
    }
}

/// The change entering the window, as far as the first pass can tell.
pub open spec fn trusted_seed(c: CollectorView) -> Option<ChangeView> {
    if c.suspect {
        None
    } else {
        c.seed
    }
}

pub open spec fn value_of(c: Option<ChangeView>) -> Option<RawView> {
    match c {
        Some(e) => Some(e.value),
        None => None,
    }
}

/// Does a value only repeat the one in force? An event never does.
pub open spec fn repeats(kind: WinKind, base: Option<RawView>, v: RawView) -> bool {
    !(kind is Event) && (base matches Some(b) && same_value(b, v))
}

/// The value in force behind the collected changes.
pub open spec fn baseline(c: CollectorView) -> Option<RawView> {
    if c.win.len() > 0 {
        Some(c.win.last().value)
    } else {
        value_of(trusted_seed(c))
    }
}

/// A collector after one more change of the first pass.
pub open spec fn first_pass(
    c: CollectorView,
    e: ChangeView,
    from: int,
    to: Option<int>,
    suspect: bool,
) -> CollectorView {
    if e.tick <= from {
        CollectorView { seed: Some(e), suspect, ..c }
    } else if suspect || (to matches Some(t) && e.tick > t) || repeats(
        c.kind,
        baseline(c),
        e.value,
    ) {
        c
    } else {
        CollectorView { win: c.win.push(e), ..c }
    }
}

/// Does the entering change have to be looked for in the second pass?
pub open spec fn seedless(c: CollectorView) -> bool {
    c.seed is None || c.suspect
}

/// The history that a collector stands for.
pub open spec fn finished(c: CollectorView) -> Seq<ChangeView> {
    let seed = if c.demoted {
        c.late
    } else {
        trusted_seed(c)
    };
    let win = if c.demoted && c.win.len() > 0 && repeats(c.kind, value_of(seed), c.win[0].value) {
        c.win.skip(1)
    } else {
        c.win
    };
    match seed {
        Some(s) => seq![s] + win,
        None => win,
    }
}

impl Collector {
    pub fn new(kind: WinKind) -> (c: Collector)
        ensures
            c@ == fresh(kind),
    {
        let c: Collector = Collector {
            kind,
            seed: None,
            seed_suspect: false,
            win: Vec::new(),
            demoted: false,
            seed2: None,
        };
        assert(c@ =~= fresh(kind));
        c
    }

    /// Would `rv` only repeat the value in force behind the collected changes?
    fn repeated(&self, rv: &RawValue) -> (r: bool)
        ensures
            r == repeats(self.kind, baseline(self@), rv@),
    {
        if self.kind == WinKind::Event {
            return false;
        }
        let n: usize = self.win.len();
        if n > 0 {
            assert(self@.win.last() == change_of(self.win@.last()));
            return self.win[n - 1].1.values_equal(rv);
        }
        if self.seed_suspect {
            return false;
        }
        match &self.seed {
            Some(s) => s.1.values_equal(rv),
            None => false,
        }
    }

    /// Take in a change of the first pass. `suspect` marks an echo of a
    /// section's opening snapshot.
    pub fn on_phase1(&mut self, t: i64, rv: RawValue, from: i64, to: Option<i64>, suspect: bool)
        ensures
            final(self)@ == first_pass(
                old(self)@,
                ChangeView { tick: t as int, value: rv@ },
                from as int,
                opt_tick(to),
                suspect,
            ),
    {
        if t <= from {
            self.seed = Some((t, rv));
            self.seed_suspect = suspect;
            assert(self@ =~= first_pass(
                old(self)@,
                ChangeView { tick: t as int, value: rv@ },
                from as int,
                opt_tick(to),
                suspect,
            ));
            return;
        }
        if suspect {
            return;
        }
        if let Some(hi) = to {
            if t > hi {
                return;
            }
        }
        if self.repeated(&rv) {
            return;
        }
        self.win.push((t, rv));
        assert(self@.win =~= old(self)@.win.push(ChangeView { tick: t as int, value: rv@ }));
    }

    /// Is the signal one for the second pass?
    pub fn needs_phase2(&self) -> (r: bool)
        ensures
            r == seedless(self@),
    {
        self.seed.is_none() || self.seed_suspect
    }

    /// Hand the signal to the second pass.
    pub fn demote(&mut self)
        ensures
            final(self)@ == (CollectorView { demoted: true, ..old(self)@ }),
    {
        self.demoted = true;
    }

    /// Take in a change of the second pass: the last one counts.
    pub fn on_phase2(&mut self, t: i64, rv: RawValue)
        ensures
            final(self)@ == (CollectorView {
                late: Some(ChangeView { tick: t as int, value: rv@ }),
                ..old(self)@
            }),
    {
        self.seed2 = Some((t, rv));
        assert(self@ =~= (CollectorView {
            late: Some(ChangeView { tick: t as int, value: rv@ }),
            ..old(self)@
        }));
    }

    /// The collected history.
    pub fn finish(self) -> (r: SignalTrace)
        ensures
            r@ == finished(self@),
            r.times@.len() == r.values@.len(),
    {
        let seed: Option<(i64, RawValue)> = if self.demoted {
            self.seed2
        } else if self.seed_suspect {
            None
        } else {
            self.seed
        };
        let mut first: usize = 0;
        if self.demoted && self.kind != WinKind::Event && self.win.len() > 0 {
            if let Some(s) = &seed {
                if s.1.values_equal(&self.win[0].1) {
                    first = 1;
                }
            }
        }
        let ghost all = self@.win;
        let ghost head = match opt_change(seed) {
            Some(s) => seq![s],
            None => Seq::empty(),
        };
        let mut out: SignalTrace = SignalTrace::new();
        if let Some(s) = seed {
            out.push(s.0, s.1);
        }
        assert(out@ =~= head);
        let mut i: usize = first;
        assert(out@ =~= head + all.subrange(first as int, i as int));
        while i < self.win.len()
            invariant
                first <= i <= self.win.len(),
                all == self@.win,
                out.times@.len() == out.values@.len(),
                out@ == head + all.subrange(first as int, i as int),
            decreases self.win.len() - i,
        {
            assert(all[i as int] == change_of(self.win@[i as int]));
            out.push(self.win[i].0, self.win[i].1.clone());
            i += 1;
            assert(out@ =~= head + all.subrange(first as int, i as int));
        }
        assert(out@ =~= finished(self@));
        out
    }
}

/// A history without the changes that only repeat the value before them;
/// `base` is the value in force at its start.
pub open spec fn kept(kind: WinKind, base: Option<RawView>, es: Seq<ChangeView>) -> Seq<ChangeView>
    decreases es.len(),
{
    if es.len() == 0 {
        Seq::empty()
    } else {
        let p = kept(kind, base, es.drop_last());
        if repeats(kind, value_behind(base, p), es.last().value) {
            p
        } else {
            p.push(es.last())
        }
    }
}

/// The value in force behind a history.
pub open spec fn value_behind(base: Option<RawView>, h: Seq<ChangeView>) -> Option<RawView> {
    if h.len() > 0 {
        Some(h.last().value)
    } else {
        base
    }
}

/// The first pass over a number of changes, none of them an echo.
pub open spec fn first_pass_all(
    c: CollectorView,
    es: Seq<ChangeView>,
    from: int,
    to: Option<int>,
) -> CollectorView
    decreases es.len(),
{
    if es.len() == 0 {
        c
    } else {
        first_pass(first_pass_all(c, es.drop_last(), from, to), es.last(), from, to, false)
    }
}

/// A collector after the second pass, which found the last change at or before
/// the window's start.
pub open spec fn second_pass(c: CollectorView, late: Option<ChangeView>) -> CollectorView {
    if seedless(c) {
        CollectorView { demoted: true, late, ..c }
    } else {
        c
    }
}

/// The last change at or before `t`.
pub open spec fn last_upto(es: Seq<ChangeView>, t: int) -> Option<ChangeView> {
    if upto(es, t) > 0 {
        Some(es[upto(es, t) - 1])
    } else {
        None
    }
}

/// Does every change of a history bring a new value?
pub open spec fn no_repeats(kind: WinKind, es: Seq<ChangeView>) -> bool {
    forall|i: int, j: int|
        0 <= i && j == i + 1 && j < es.len() ==> !repeats(
            kind,
            Some((#[trigger] es[i]).value),
            (#[trigger] es[j]).value,
        )
}

/// The part of a history at or before `to`.
spec fn limited(es: Seq<ChangeView>, to: Option<int>) -> Seq<ChangeView> {
    match to {
        Some(t) => es.take(upto(es, t)),
        None => es,
    }
}

proof fn lemma_ordered_part(es: Seq<ChangeView>, a: int, b: int)
    requires
        in_time_order(es),
        0 <= a <= b <= es.len(),
    ensures
        in_time_order(es.subrange(a, b)),
{
    let p = es.subrange(a, b);
    assert forall|i: int, j: int| 0 <= i <= j < p.len() implies (#[trigger] p[i]).tick <= (
    #[trigger] p[j]).tick by {
        assert(es[a + i].tick <= es[a + j].tick);
    }
}

proof fn lemma_kept_splits(kind: WinKind, base: Option<RawView>, a: Seq<ChangeView>, b: Seq<ChangeView>)
    ensures
        kept(kind, base, a + b) == kept(kind, base, a) + kept(
            kind,
            value_behind(base, kept(kind, base, a)),
            b,
        ),
    decreases b.len(),
{
    let ka = kept(kind, base, a);
    let mid = value_behind(base, ka);
    if b.len() == 0 {
        assert(a + b =~= a);
        assert(ka + kept(kind, mid, b) =~= ka);
    } else {
        let less = b.drop_last();
        lemma_kept_splits(kind, base, a, less);
        assert((a + b).drop_last() =~= a + less);
        assert((a + b).last() == b.last());
        let kb = kept(kind, mid, less);
        assert(value_behind(base, ka + kb) == value_behind(mid, kb));
        assert((ka + kb).push(b.last()) =~= ka + kb.push(b.last()));
    }
}

proof fn lemma_kept_whole(kind: WinKind, es: Seq<ChangeView>)
    requires
        no_repeats(kind, es),
    ensures
        kept(kind, None, es) == es,
    decreases es.len(),
{
    if es.len() > 0 {
        let less = es.drop_last();
        assert forall|i: int, j: int|
            0 <= i && j == i + 1 && j < less.len() implies !repeats(
            kind,
            Some((#[trigger] less[i]).value),
            (#[trigger] less[j]).value,
        ) by {
            assert(less[i] == es[i] && less[j] == es[j]);
        }
        lemma_kept_whole(kind, less);
        if less.len() > 0 {
            let k = less.len() - 1;
            assert(!repeats(kind, Some(es[k].value), es[k + 1].value));
        }
        assert(kept(kind, None, es) =~= es);
    } else {
        assert(kept(kind, None, es) =~= es);
    }
}

/// Bases that are the same value keep the same changes.
proof fn lemma_kept_base(kind: WinKind, x: RawView, y: RawView, es: Seq<ChangeView>)
    requires
        same_value(x, y),
    ensures
        kept(kind, Some(x), es) == kept(kind, Some(y), es),
    decreases es.len(),
{
    if es.len() > 0 {
        lemma_kept_base(kind, x, y, es.drop_last());
    }
}

/// Without a base the first change is kept; with one it may go.
proof fn lemma_kept_seeded(kind: WinKind, v: RawView, es: Seq<ChangeView>)
    ensures
        ({
            let free = kept(kind, None, es);
            kept(kind, Some(v), es) == (if free.len() > 0 && repeats(kind, Some(v), free[0].value) {
                free.skip(1)
            } else {
                free
            })
        }),
{
    let free = kept(kind, None, es);
    if es.len() > 0 {
        let head = es.take(1);
        let tail = es.skip(1);
        assert(es =~= head + tail);
        assert(head.drop_last() =~= Seq::empty());
        assert(head.last() == es[0]);
        lemma_kept_splits(kind, None, head, tail);
        lemma_kept_splits(kind, Some(v), head, tail);
        let start = Seq::<ChangeView>::empty();
        assert(kept(kind, None, start) =~= start);
        assert(kept(kind, Some(v), start) =~= start);
        assert(kept(kind, None, head) =~= seq![es[0]]);
        assert(free[0] == es[0]);
        if repeats(kind, Some(v), es[0].value) {
            assert(kept(kind, Some(v), head) =~= start);
            lemma_kept_base(kind, v, es[0].value, tail);
            assert(free.skip(1) =~= kept(kind, Some(es[0].value), tail));
            assert(kept(kind, Some(v), es) =~= kept(kind, Some(v), tail));
        } else {
            assert(kept(kind, Some(v), head) =~= seq![es[0]]);
        }
    }
}

/// What is kept of a history in time order is in time order, within the same
/// bounds.
proof fn lemma_kept_ordered(kind: WinKind, base: Option<RawView>, es: Seq<ChangeView>)
    requires
        in_time_order(es),
    ensures
        in_time_order(kept(kind, base, es)),
        forall|i: int|
            0 <= i < kept(kind, base, es).len() ==> es.len() > 0 && es[0].tick <= (#[trigger] kept(
                kind,
                base,
                es,
            )[i]).tick <= es.last().tick,
    decreases es.len(),
{
    if es.len() > 0 {
        let less = es.drop_last();
        assert(less =~= es.subrange(0, es.len() - 1));
        lemma_ordered_part(es, 0, es.len() - 1);
        lemma_kept_ordered(kind, base, less);
        let p = kept(kind, base, less);
        let r = kept(kind, base, es);
        if less.len() > 0 {
            assert(less.last() == es[es.len() - 2]);
            assert(es[es.len() - 2].tick <= es[es.len() - 1].tick);
            assert(less[0] == es[0]);
        }
        assert(es[0].tick <= es[es.len() - 1].tick);
        assert forall|i: int| 0 <= i < r.len() implies es[0].tick <= (#[trigger] r[i]).tick
            <= es.last().tick by {
            if i < p.len() {
                assert(r[i] == p[i]);
            }
        }
        assert forall|i: int, j: int| 0 <= i <= j < r.len() implies (#[trigger] r[i]).tick <= (
        #[trigger] r[j]).tick by {
            if j < p.len() {
                assert(r[i] == p[i] && r[j] == p[j]);
            } else if i < p.len() {
                assert(r[i] == p[i]);
            }
        }
    }
}

proof fn lemma_pass_splits(
    c: CollectorView,
    a: Seq<ChangeView>,
    b: Seq<ChangeView>,
    from: int,
    to: Option<int>,
)
    ensures
        first_pass_all(c, a + b, from, to) == first_pass_all(
            first_pass_all(c, a, from, to),
            b,
            from,
            to,
        ),
    decreases b.len(),
{
    if b.len() == 0 {
        assert(a + b =~= a);
    } else {
        lemma_pass_splits(c, a, b.drop_last(), from, to);
        assert((a + b).drop_last() =~= a + b.drop_last());
    }
}

/// Of the changes up to the window's start, the last is the seed.
proof fn lemma_pass_before(c: CollectorView, es: Seq<ChangeView>, from: int, to: Option<int>)
    requires
        forall|i: int| 0 <= i < es.len() ==> (#[trigger] es[i]).tick <= from,
    ensures
        first_pass_all(c, es, from, to) == (if es.len() == 0 {
            c
        } else {
            CollectorView { seed: Some(es.last()), suspect: false, ..c }
        }),
    decreases es.len(),
{
    if es.len() > 0 {
        let less = es.drop_last();
        assert forall|i: int| 0 <= i < less.len() implies (#[trigger] less[i]).tick <= from by {
            assert(less[i] == es[i]);
        }
        lemma_pass_before(c, less, from, to);
        assert(es.last() == es[es.len() - 1]);
    }
}

/// Of the changes behind the window's start, those of the window are kept that
/// bring a new value.
proof fn lemma_pass_within(c: CollectorView, es: Seq<ChangeView>, from: int, to: Option<int>)
    requires
        in_time_order(es),
        c.win.len() == 0,
        forall|i: int| 0 <= i < es.len() ==> (#[trigger] es[i]).tick > from,
    ensures
        first_pass_all(c, es, from, to) == (CollectorView {
            win: kept(c.kind, value_of(trusted_seed(c)), limited(es, to)),
            ..c
        }),
    decreases es.len(),
{
    let base = value_of(trusted_seed(c));
    if es.len() == 0 {
        assert(limited(es, to) =~= es);
        assert(kept(c.kind, base, es) =~= c.win);
    } else {
        let less = es.drop_last();
        assert(less =~= es.subrange(0, es.len() - 1));
        lemma_ordered_part(es, 0, es.len() - 1);
        assert forall|i: int| 0 <= i < less.len() implies (#[trigger] less[i]).tick > from by {
            assert(less[i] == es[i]);
        }
        lemma_pass_within(c, less, from, to);
        assert(es.last() == es[es.len() - 1]);
        let late = to matches Some(t) && es.last().tick > t;
        if late {
            upto_splits(less, to->0);
            assert(limited(es, to) =~= limited(less, to));
        } else {
            match to {
                Some(t) => {
                    assert forall|i: int| 0 <= i < less.len() implies (#[trigger] less[i]).tick
                        <= t by {
                        assert(es[i].tick <= es[es.len() - 1].tick);
                    }
                    upto_is_unique(less, t, less.len() as int);
                },
                None => {},
            }
            assert(limited(es, to) =~= es);
            assert(limited(less, to) =~= less);
        }
    }
}

/// The reduction is the window of the full history. Let `es` be all the changes
/// of a signal, in time order, of which none up to the window's start repeats
/// the one before it. Let the first pass see an echo of the opening snapshot,
/// or not, and the changes from the `k`th up to the `m`th, where only changes
/// up to the window's start are left out before and only changes behind its
/// end after. And let the second pass, where there is one, find the last change
/// up to the window's start. Then the collected history is the window of the
/// full history without repetitions.
pub proof fn collected_is_window(
    kind: WinKind,
    es: Seq<ChangeView>,
    echo: Option<ChangeView>,
    k: int,
    m: int,
    from: int,
    to: Option<int>,
)
    requires
        in_time_order(es),
        no_repeats(kind, es.take(upto(es, from))),
        0 <= k <= upto(es, from) <= m <= es.len(),
        to matches Some(t) ==> upto(es, t) <= m,
        to is None ==> m == es.len(),
    ensures
        ({
            let start = match echo {
                Some(e) => first_pass(fresh(kind), e, from, to, true),
                None => fresh(kind),
            };
            let c = first_pass_all(start, es.subrange(k, m), from, to);
            let r = finished(second_pass(c, last_upto(es, from)));
            let full = kept(kind, None, es);
            &&& r == window_slice(full, from, to)
            &&& window_of(r, full, from, to)
        }),
{
    let start = match echo {
        Some(e) => first_pass(fresh(kind), e, from, to, true),
        None => fresh(kind),
    };
    let a = upto(es, from);
    upto_splits(es, from);
    let before = es.subrange(k, a);
    let after = es.subrange(a, m);
    assert(es.subrange(k, m) =~= before + after);
    lemma_pass_splits(start, before, after, from, to);
    assert forall|i: int| 0 <= i < before.len() implies (#[trigger] before[i]).tick <= from by {
        assert(before[i] == es[k + i]);
    }
    lemma_pass_before(start, before, from, to);
    let c1 = first_pass_all(start, before, from, to);
    lemma_ordered_part(es, a, m);
    assert forall|i: int| 0 <= i < after.len() implies (#[trigger] after[i]).tick > from by {
        assert(after[i] == es[a + i]);
    }
    lemma_pass_within(c1, after, from, to);
    let c = first_pass_all(start, es.subrange(k, m), from, to);
    let part = limited(after, to);
    let late = last_upto(es, from);
    let base = value_of(late);
    if before.len() > 0 {
        assert(before.last() == es[a - 1]);
    } else {
        assert(trusted_seed(c1) is None);
        if a > 0 {
            lemma_kept_seeded(kind, es[a - 1].value, part);
        }
    }
    let r = finished(second_pass(c, late));
    let win = kept(kind, base, part);
    let head = if a > 0 {
        seq![es[a - 1]]
    } else {
        Seq::empty()
    };
    assert(r =~= head + win);
    lemma_full(kind, es, from, to, m);
    lemma_kept_ordered(kind, None, es);
    slice_is_window(kept(kind, None, es), from, to);
}

/// A history without repetitions up to `a`, and then in two parts.
proof fn lemma_full_parts(kind: WinKind, es: Seq<ChangeView>, a: int, n: int)
    requires
        0 <= a <= a + n <= es.len(),
        no_repeats(kind, es.take(a)),
    ensures
        ({
            let base = value_behind(None, es.take(a));
            let k1 = kept(kind, base, es.subrange(a, a + n));
            kept(kind, None, es) == es.take(a) + k1 + kept(
                kind,
                value_behind(base, k1),
                es.subrange(a + n, es.len() as int),
            )
        }),
{
    let past = es.take(a);
    let part = es.subrange(a, a + n);
    let rest = es.subrange(a + n, es.len() as int);
    assert(es =~= past + (part + rest));
    let base = value_behind(None, past);
    lemma_kept_whole(kind, past);
    lemma_kept_splits(kind, None, past, part + rest);
    lemma_kept_splits(kind, base, part, rest);
    let k1 = kept(kind, base, part);
    let k2 = kept(kind, value_behind(base, k1), rest);
    assert(past + (k1 + k2) =~= past + k1 + k2);
}

/// The window of the full history without repetitions.
#[verifier::spinoff_prover]
proof fn lemma_full(kind: WinKind, es: Seq<ChangeView>, from: int, to: Option<int>, m: int)
    requires
        in_time_order(es),
        no_repeats(kind, es.take(upto(es, from))),
        0 <= upto(es, from) <= m <= es.len(),
        to matches Some(t) ==> upto(es, t) <= m,
        to is None ==> m == es.len(),
    ensures
        ({
            let a = upto(es, from);
            let part = limited(es.subrange(a, m), to);
            let head = if a > 0 {
                seq![es[a - 1]]
            } else {
                Seq::empty()
            };
            window_slice(kept(kind, None, es), from, to) == head + kept(
                kind,
                value_of(last_upto(es, from)),
                part,
            )
        }),
{
    let full = kept(kind, None, es);
    let a = upto(es, from);
    upto_splits(es, from);
    let past = es.take(a);
    let after = es.subrange(a, m);
    lemma_ordered_part(es, a, m);
    let part = limited(after, to);
    let n = part.len() as int;
    match to {
        Some(t) => {
            upto_splits(after, t);
        },
        None => {},
    }
    let rest = es.subrange(a + n, es.len() as int);
    assert(part =~= es.subrange(a, a + n));
    let base = value_of(last_upto(es, from));
    lemma_full_parts(kind, es, a, n);
    assert(value_behind(None, past) == base);
    let k1 = kept(kind, base, part);
    let k2 = kept(kind, value_behind(base, k1), rest);
    lemma_ordered_part(es, a, a + n);
    lemma_ordered_part(es, a + n, es.len() as int);
    lemma_kept_ordered(kind, base, part);
    lemma_kept_ordered(kind, value_behind(base, k1), rest);
    lemma_kept_ordered(kind, None, es);
    if n > 0 {
        assert(part[0] == es[a]);
        assert(part.last() == after[n - 1]);
    }
    if rest.len() > 0 {
        assert(rest[0] == es[a + n]);
        if a + n < m {
            assert(rest[0] == after[n]);
        }
    }
    match to {
        Some(t) => {
            upto_splits(es, t);
        },
        None => {},
    }
    lemma_slice_parts(past, k1, k2, from, to);
    assert(a > 0 ==> past.last() == es[a - 1]);
}

/// The window of a history in three parts: up to the start, within, and behind.
proof fn lemma_slice_parts(
    past: Seq<ChangeView>,
    k1: Seq<ChangeView>,
    k2: Seq<ChangeView>,
    from: int,
    to: Option<int>,
)
    requires
        in_time_order(past + k1 + k2),
        forall|i: int| 0 <= i < past.len() ==> (#[trigger] past[i]).tick <= from,
        forall|i: int| 0 <= i < k1.len() ==> (#[trigger] k1[i]).tick > from,
        forall|i: int| 0 <= i < k2.len() ==> (#[trigger] k2[i]).tick > from,
        to matches Some(t) ==> forall|i: int| 0 <= i < k1.len() ==> (#[trigger] k1[i]).tick <= t,
        to matches Some(t) ==> forall|i: int| 0 <= i < k2.len() ==> (#[trigger] k2[i]).tick > t,
        to is None ==> k2.len() == 0,
    ensures
        window_slice(past + k1 + k2, from, to) == (if past.len() > 0 {
            seq![past.last()]
        } else {
            Seq::empty()
        }) + k1,
{
    let full = past + k1 + k2;
    let a = past.len() as int;
    let b = a + k1.len();
    assert forall|i: int| 0 <= i < a implies (#[trigger] full[i]).tick <= from by {
        assert(full[i] == past[i]);
    }
    assert forall|i: int| a <= i < full.len() implies (#[trigger] full[i]).tick > from by {
        if i < b {
            assert(full[i] == k1[i - a]);
        } else {
            assert(full[i] == k2[i - b]);
        }
    }
    upto_is_unique(full, from, a);
    match to {
        Some(t) => {
            if k1.len() > 0 {
                assert(k1[0].tick <= t);
            }
            if t >= from {
                assert forall|i: int| 0 <= i < b implies (#[trigger] full[i]).tick <= t by {
                    if i >= a {
                        assert(full[i] == k1[i - a]);
                    }
                }
                assert forall|i: int| b <= i < full.len() implies (#[trigger] full[i]).tick
                    > t by {
                    assert(full[i] == k2[i - b]);
                }
                upto_is_unique(full, t, b);
            } else {
                upto_splits(full, t);
                if upto(full, t) > a {
                    assert(full[a].tick <= t);
                }
            }
        },
        None => {},
    }
    let head = if a > 0 {
        seq![past.last()]
    } else {
        Seq::empty()
    };
    assert(window_slice(full, from, to) =~= head + k1);
}

} // verus!
