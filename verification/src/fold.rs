//! Folding the changes that a vendor reader reports into change histories.
//!
//! Vendor readers report transport granularity: a wide vector may arrive one
//! word at a time, and a glitch may come and go within one tick. Folding keeps
//! the net value of each tick.

use vstd::prelude::*;

use crate::bitstr::{ascii_or_x, BitStr};
use crate::format::ValueKind;
use crate::handles::HandleMap;
use crate::history::{
    in_time_order, same_value, upto, upto_is_unique, upto_splits, value_at, ChangeView, RawValue,
    RawView, SignalTrace,
};
use crate::signal::{decl_views, BackendSid, DeclView, VarDecl};
use crate::text::{byte_len, bytes_in, chars_of, same};

verus! {

/// A history after one more reported change. Events are always appended. Of
/// other values the last report of a tick wins, and a report that repeats the
/// value before it is no change.
pub open spec fn folded(h: Seq<ChangeView>, kind: ValueKind, e: ChangeView) -> Seq<ChangeView> {
    let n = h.len();
    if kind is Event || n == 0 {
        h.push(e)
    } else if h.last().tick == e.tick {
        if n >= 2 && same_value(e.value, h[n - 2].value) {
            h.drop_last()
        } else {
            h.drop_last().push(e)
        }
    } else if same_value(h.last().value, e.value) {
        h
    } else {
        h.push(e)
    }
}

/// A history built from reported changes.
pub open spec fn folded_all(kind: ValueKind, es: Seq<ChangeView>) -> Seq<ChangeView>
    decreases es.len(),
{
    if es.len() == 0 {
        Seq::empty()
    } else {
        folded(folded_all(kind, es.drop_last()), kind, es.last())
    }
}

/// Are the ticks strictly increasing, and does every change bring a new value?
pub open spec fn is_minimal(h: Seq<ChangeView>) -> bool {
    &&& forall|i: int, j: int|
        0 <= i < j < h.len() ==> (#[trigger] h[i]).tick < (#[trigger] h[j]).tick
    &&& forall|i: int, j: int|
        0 <= i && j == i + 1 && j < h.len() ==> !same_value(
            (#[trigger] h[i]).value,
            (#[trigger] h[j]).value,
        )
}

proof fn lemma_order_of_prefix(es: Seq<ChangeView>)
    requires
        in_time_order(es),
        es.len() > 0,
    ensures
        in_time_order(es.drop_last()),
{
    let less = es.drop_last();
    assert forall|i: int, j: int| 0 <= i <= j < less.len() implies (#[trigger] less[i]).tick <= (
    #[trigger] less[j]).tick by {
        assert(es[i].tick <= es[j].tick);
    }
}

proof fn lemma_same_symmetric(a: RawView, b: RawView)
    ensures
        same_value(a, b) == same_value(b, a),
{
}

/// Reports in time order fold into a history whose ticks strictly increase and
/// in which every change brings a new value. (Events excepted: each occurrence
/// stays.)
pub proof fn folding_is_minimal(kind: ValueKind, es: Seq<ChangeView>)
    requires
        !(kind is Event),
        in_time_order(es),
    ensures
        is_minimal(folded_all(kind, es)),
        folded_all(kind, es).len() > 0 ==> folded_all(kind, es).last().tick <= es.last().tick,
        es.len() == 0 ==> folded_all(kind, es).len() == 0,
    decreases es.len(),
{
    if es.len() > 0 {
        let less = es.drop_last();
        lemma_order_of_prefix(es);
        folding_is_minimal(kind, less);
        let h = folded_all(kind, less);
        let e = es.last();
        let r = folded(h, kind, e);
        if h.len() > 0 {
            assert(es[less.len() - 1].tick <= es[es.len() - 1].tick);
            lemma_same_symmetric(h.last().value, e.value);
            if h.len() >= 2 {
                lemma_same_symmetric(h[h.len() - 2].value, e.value);
                assert(h[h.len() - 2].tick < h[h.len() - 1].tick);
            }
        }
        assert forall|i: int, j: int| 0 <= i < j < r.len() implies (#[trigger] r[i]).tick < (
        #[trigger] r[j]).tick by {
            assert(r[i] == h[i]);
            if j < h.len() {
                assert(h[i].tick < h[j].tick);
            } else {
                assert(h[i].tick <= h[h.len() - 1].tick);
            }
        }
    }
}

/// At every tick, the folded history has the value that was reported last at
/// or before it.
pub proof fn folding_keeps_values(kind: ValueKind, es: Seq<ChangeView>, t: int)
    requires
        !(kind is Event),
        in_time_order(es),
    ensures
        match value_at(es, t) {
            Some(v) => value_at(folded_all(kind, es), t) matches Some(w) && same_value(w, v),
            None => value_at(folded_all(kind, es), t) is None,
        },
    decreases es.len(),
{
    folding_is_minimal(kind, es);
    let r = folded_all(kind, es);
    assert(in_time_order(r));
    if es.len() > 0 {
        let less = es.drop_last();
        let e = es.last();
        lemma_order_of_prefix(es);
        folding_is_minimal(kind, less);
        let h = folded_all(kind, less);
        assert(in_time_order(h));
        upto_splits(r, t);
        if e.tick <= t {
            assert(upto(es, t) == es.len());
            lemma_same_symmetric(r.last().value, e.value);
            if r.len() > 0 {
                assert(r.last().tick <= t);
                assert(upto(r, t) == r.len());
            }
        } else {
            folding_keeps_values(kind, less, t);
            assert(upto(es, t) == upto(less, t));
            upto_splits(less, t);
            assert(value_at(es, t) == value_at(less, t));
            upto_splits(h, t);
            let n = upto(h, t);
            if h.len() > 0 && h.last().tick == e.tick {
                if n == h.len() {
                    assert(h[n - 1].tick <= t);
                }
            }
            assert forall|i: int| 0 <= i < n implies (#[trigger] r[i]).tick <= t by {
                assert(r[i] == h[i]);
            }
            assert forall|i: int| n <= i < r.len() implies (#[trigger] r[i]).tick > t by {
                if i < h.len() && r[i] == h[i] {
                } else {
                    assert(r[i] == e);
                }
            }
            upto_is_unique(r, t, n);
            if n > 0 {
                assert(r[n - 1] == h[n - 1]);
            }
        }
    }
}

/// Fold one reported change into a history.
pub fn fold_change(trace: &mut SignalTrace, kind: ValueKind, tick: i64, raw: RawValue)
    requires
        old(trace).times@.len() == old(trace).values@.len(),
    ensures
        final(trace)@ == folded(
            old(trace)@,
            kind,
            ChangeView { tick: tick as int, value: raw@ },
        ),
        final(trace).times@.len() == final(trace).values@.len(),
{
    let ghost h = trace@;
    let ghost e = ChangeView { tick: tick as int, value: raw@ };
    let n: usize = trace.times.len();
    if kind == ValueKind::Event || n == 0 {
        trace.push(tick, raw);
        return;
    }
    assert(h[n - 1] == ChangeView { tick: trace.times@[n - 1] as int, value: trace.values@[n - 1]@ });
    if trace.times[n - 1] == tick {
        if n >= 2 {
            assert(h[n - 2].value == trace.values@[n - 2]@);
            if raw.values_equal(&trace.values[n - 2]) {
                trace.times.pop();
                trace.values.pop();
                assert(trace@ =~= h.drop_last());
                return;
            }
        }
        trace.times.pop();
        trace.values.pop();
        assert(trace@ =~= h.drop_last());
        trace.push(tick, raw);
    } else if !trace.values[n - 1].values_equal(&raw) {
        trace.push(tick, raw);
    }
}

/// The characters of a reported logic value, as a [`BitStr`] holds them.
pub open spec fn logic_text(text: Seq<char>) -> Seq<char> {
    if byte_len(text) > 23 {
        text
    } else {
        text.take(
            if text.len() < 23 {
                text.len() as int
            } else {
                23
            },
        ).map_values(|c: char| ascii_or_x(c))
    }
}

/// The value that a report of a signal of the given kind stands for. A real
/// number comes decoded.
pub open spec fn reported_value(kind: ValueKind, text: Seq<char>, bits: u64, shown: Seq<char>) -> RawView {
    match kind {
        ValueKind::Bits => RawView::Bits(logic_text(text)),
        ValueKind::Real => RawView::Real { bits, text: shown },
        ValueKind::Str => RawView::Str(text),
        ValueKind::Event => RawView::Event,
    }
}

/// The value of a report. `bits` and `shown` are the bit pattern and the text
/// of the real number that `text` spells, for a signal of that kind.
pub fn decode_report(kind: ValueKind, text: &str, bits: u64, shown: &str) -> (v: RawValue)
    ensures
        v@ == reported_value(kind, text@, bits, shown@),
{
    match kind {
        ValueKind::Bits => {
            let chars: Vec<char> = chars_of(text);
            RawValue::Bits(BitStr::from_ascii_iter(bytes_in(text), &chars))
        },
        ValueKind::Real => RawValue::from_real(bits, shown),
        ValueKind::Str => RawValue::Str(text.to_owned()),
        ValueKind::Event => RawValue::Event,
    }
}

/// The last position at which a handle was asked for.
pub open spec fn slot_of(sids: Seq<BackendSid>, handle: usize) -> Option<int>
    decreases sids.len(),
{
    if sids.len() == 0 {
        None
    } else if sids.last().0 == handle {
        Some(sids.len() - 1)
    } else {
        slot_of(sids.drop_last(), handle)
    }
}

/// The kind that a handle was declared with last; logic if it was not.
pub open spec fn declared_kind(decls: Seq<DeclView>, handle: usize) -> ValueKind
    decreases decls.len(),
{
    if decls.len() == 0 {
        ValueKind::Bits
    } else if decls.last().handle == handle {
        decls.last().kind
    } else {
        declared_kind(decls.drop_last(), handle)
    }
}

/// Collects the reports about a number of signals.
pub struct TraceSink {
    slots: HandleMap,
    kinds: Vec<ValueKind>,
    traces: Vec<SignalTrace>,
}

impl TraceSink {
    /// Where the reports about a handle go, and what kind its values are of.
    pub closed spec fn slot(&self, handle: usize) -> Option<(int, ValueKind)> {
        if self.slots@.contains_key(handle) {
            Some((self.slots@[handle] as int, self.kinds@[self.slots@[handle] as int]))
        } else {
            None
        }
    }

    /// The histories collected so far.
    pub closed spec fn histories(&self) -> Seq<Seq<ChangeView>> {
        self.traces@.map_values(|t: SignalTrace| t@)
    }

    /// A history for every slot, and a slot for every handle.
    pub closed spec fn wf(&self) -> bool {
        &&& self.kinds@.len() == self.traces@.len()
        &&& forall|i: int|
            0 <= i < self.traces@.len() ==> (#[trigger] self.traces@[i]).times@.len()
                == self.traces@[i].values@.len()
        &&& forall|h: usize| #[trigger]
            self.slots@.contains_key(h) ==> self.slots@[h] < self.traces@.len()
    }

    /// A sink for the given signals, without reports.
    pub fn new(sids: &Vec<BackendSid>, decls: &Vec<VarDecl>) -> (s: TraceSink)
        ensures
            s.wf(),
            s.histories() == Seq::new(sids@.len(), |i: int| Seq::<ChangeView>::empty()),
            forall|h: usize| #[trigger]
                s.slot(h) == match slot_of(sids@, h) {
                    Some(i) => Some((i, declared_kind(decl_views(decls@), h))),
                    None => None,
                },
    {
        let known: HandleMap = last_decls(decls);
        let mut slots: HandleMap = HandleMap::new();
        let mut kinds: Vec<ValueKind> = Vec::new();
        let mut traces: Vec<SignalTrace> = Vec::new();
        let mut i: usize = 0;
        let ghost d = decl_views(decls@);
        assert(sids@.take(0) =~= Seq::empty());
        while i < sids.len()
            invariant
                i <= sids.len(),
                d == decl_views(decls@),
                kinds@.len() == i,
                traces@.len() == i,
                forall|h: usize|
                    #![trigger known@.contains_key(h)]
                    known@.contains_key(h) ==> known@[h] < decls@.len() && decls@[known@[h] as int].kind
                        == declared_kind(d, h),
                forall|h: usize| !known@.contains_key(h) ==> #[trigger] declared_kind(d, h) is Bits,
                forall|k: int| 0 <= k < i ==> (#[trigger] traces@[k])@.len() == 0 && traces@[k].wf(),
                forall|k: int| 0 <= k < i ==> #[trigger] kinds@[k] == declared_kind(d, sids@[k].0),
                forall|h: usize|
                    #![trigger slots@.contains_key(h)]
                    slots@.contains_key(h) ==> slots@[h] < i && sids@[slots@[h] as int].0 == h,
                forall|h: usize| #[trigger]
                    slot_of(sids@.take(i as int), h) == (if slots@.contains_key(h) {
                        Some(slots@[h] as int)
                    } else {
                        None
                    }),
            decreases sids.len() - i,
        {
            let handle: usize = sids[i].0;
            let kind: ValueKind = match known.get(handle) {
                Some(k) => decls[k].kind,
                None => ValueKind::Bits,
            };
            slots.insert(handle, i);
            kinds.push(kind);
            traces.push(SignalTrace::new());
            i += 1;
            assert(sids@.take(i as int).drop_last() =~= sids@.take(i - 1));
            assert forall|h: usize| #[trigger]
                slot_of(sids@.take(i as int), h) == (if slots@.contains_key(h) {
                    Some(slots@[h] as int)
                } else {
                    None
                }) by {
                let earlier = slot_of(sids@.take(i - 1), h);
            }
        }
        assert(sids@.take(i as int) =~= sids@);
        let s: TraceSink = TraceSink { slots, kinds, traces };
        proof {
            assert forall|k: int| 0 <= k < sids@.len() implies (#[trigger] s.histories()[k])
                == Seq::<ChangeView>::empty() by {
                assert(traces@[k]@ =~= Seq::empty());
            }
            assert(s.histories() =~= Seq::new(sids@.len(), |i: int| Seq::<ChangeView>::empty()));
        }
        s
    }

    /// Take in a report: fold it into the history of the signal, if the signal
    /// was asked for.
    pub fn emit(&mut self, handle: usize, tick: i64, text: &str, bits: u64, shown: &str)
        requires
            old(self).wf(),
        ensures
            final(self).wf(),
            forall|h: usize| #[trigger] final(self).slot(h) == old(self).slot(h),
            final(self).histories() == match old(self).slot(handle) {
                Some((i, kind)) => old(self).histories().update(
                    i,
                    folded(
                        old(self).histories()[i],
                        kind,
                        ChangeView {
                            tick: tick as int,
                            value: reported_value(kind, text@, bits, shown@),
                        },
                    ),
                ),
                None => old(self).histories(),
            },
    {
        let found: Option<usize> = self.slots.get(handle);
        if let Some(i) = found {
            let kind: ValueKind = self.kinds[i];
            let value: RawValue = decode_report(kind, text, bits, shown);
            let ghost before = self.histories();
            fold_change(&mut self.traces[i], kind, tick, value);
            assert(self.histories() =~= before.update(i as int, self.traces@[i as int]@));
        }
    }

    /// The collected histories, one for each signal asked for.
    pub fn finish(self) -> (r: Vec<SignalTrace>)
        requires
            self.wf(),
        ensures
            r@.map_values(|t: SignalTrace| t@) == self.histories(),
            forall|i: int|
                0 <= i < r@.len() ==> (#[trigger] r@[i]).times@.len() == r@[i].values@.len(),
    {
        self.traces
    }
}

/// The position of each handle's last declaration.
fn last_decls(decls: &Vec<VarDecl>) -> (m: HandleMap)
    ensures
        forall|h: usize|
            #![trigger m@.contains_key(h)]
            m@.contains_key(h) ==> m@[h] < decls@.len() && decls@[m@[h] as int].kind
                == declared_kind(decl_views(decls@), h),
        forall|h: usize|
            !m@.contains_key(h) ==> #[trigger] declared_kind(decl_views(decls@), h) is Bits,
{
    let mut m: HandleMap = HandleMap::new();
    let ghost d = decl_views(decls@);
    let mut i: usize = 0;
    assert(d.take(0) =~= Seq::empty());
    while i < decls.len()
        invariant
            i <= decls.len(),
            d == decl_views(decls@),
            forall|h: usize|
                #![trigger m@.contains_key(h)]
                m@.contains_key(h) ==> m@[h] < i && decls@[m@[h] as int].kind == declared_kind(
                    d.take(i as int),
                    h,
                ),
            forall|h: usize|
                !m@.contains_key(h) ==> #[trigger] declared_kind(d.take(i as int), h) is Bits,
        decreases decls.len() - i,
    {
        m.insert(decls[i].backend_sid.0, i);
        i += 1;
        assert(d.take(i as int).drop_last() =~= d.take(i - 1));
        assert(d.take(i as int).last() == decls@[i - 1]@);
        assert forall|h: usize| !m@.contains_key(h) implies #[trigger] declared_kind(
            d.take(i as int),
            h,
        ) is Bits by {
            let earlier = declared_kind(d.take(i - 1), h);
        }
    }
    assert(d.take(i as int) =~= d);
    m
}

/// The type name a vendor reader reports, if it is a known one, and `wire`
/// otherwise.
pub fn map_type_str(s: &str) -> (r: &'static str)
    ensures
        r@ == (if is_type_name(s@) {
            s@
        } else {
            "wire"@
        }),
{
    if same(s, "reg") {
        "reg"
    } else if same(s, "real") {
        "real"
    } else if same(s, "realtime") {
        "realtime"
    } else if same(s, "event") {
        "event"
    } else if same(s, "integer") {
        "integer"
    } else if same(s, "time") {
        "time"
    } else if same(s, "parameter") {
        "parameter"
    } else if same(s, "logic") {
        "logic"
    } else if same(s, "bit") {
        "bit"
    } else if same(s, "string") {
        "string"
    } else {
        "wire"
    }
}

/// Is this one of the known type names of vendor readers?
pub open spec fn is_type_name(s: Seq<char>) -> bool {
    ||| s == "wire"@
    ||| s == "reg"@
    ||| s == "real"@
    ||| s == "realtime"@
    ||| s == "event"@
    ||| s == "integer"@
    ||| s == "time"@
    ||| s == "parameter"@
    ||| s == "logic"@
    ||| s == "bit"@
    ||| s == "string"@
}

} // verus!
