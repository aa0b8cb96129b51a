//! Decoded values and change histories.

use vstd::prelude::*;

use crate::bitstr::BitStr;
use crate::format::{fmt_val, fmt_val_compact, value_compact, value_text, ValueKind};
use crate::text::same;

verus! {

/// A real number: its bit pattern and its shortest decimal text.
#[derive(Debug)]
pub struct RealNumber {
    pub bits: u64,
    pub text: String,
}

/// A decoded value. Logic vectors are bit strings, highest bit first; reals and
/// strings carry their payload; events carry none.
#[derive(Debug)]
pub enum RawValue {
    Bits(BitStr),
    Real(Box<RealNumber>),
    Str(String),
    Event,
}

pub enum RawView {
    Bits(Seq<char>),
    Real { bits: u64, text: Seq<char> },
    Str(Seq<char>),
    Event,
}

impl View for RawValue {
    type V = RawView;

    open spec fn view(&self) -> RawView {
        match self {
            RawValue::Bits(b) => RawView::Bits(b@),
            RawValue::Real(r) => RawView::Real { bits: r.bits, text: r.text@ },
            RawValue::Str(s) => RawView::Str(s@),
            RawValue::Event => RawView::Event,
        }
    }
}

/// The text of a value that comparisons look at.
pub open spec fn raw_text(v: RawView) -> Seq<char> {
    match v {
        RawView::Bits(s) => s,
        RawView::Real { bits, text } => text,
        RawView::Str(s) => s,
        RawView::Event => Seq::empty(),
    }
}

/// Are two values the same as far as duplicate changes go? Reals compare by
/// bit pattern, everything else by content.
pub open spec fn same_value(a: RawView, b: RawView) -> bool {
    match (a, b) {
        (RawView::Bits(x), RawView::Bits(y)) => x == y,
        (RawView::Real { bits: x, text: _ }, RawView::Real { bits: y, text: _ }) => x == y,
        (RawView::Str(x), RawView::Str(y)) => x == y,
        (RawView::Event, RawView::Event) => true,
        _ => false,
    }
}

/// The kind that a decoded value is shown as: its own, except that a logic
/// value follows the signal's declared kind.
pub open spec fn shown_kind(v: RawView, kind: ValueKind) -> ValueKind {
    match v {
        RawView::Event => ValueKind::Event,
        RawView::Real { bits: _, text: _ } => ValueKind::Real,
        RawView::Str(_) => ValueKind::Str,
        RawView::Bits(_) => kind,
    }
}

impl RawValue {
    /// A real number from its bit pattern and its text.
    pub fn from_real(bits: u64, text: &str) -> (v: RawValue)
        ensures
            v@ == (RawView::Real { bits, text: text@ }),
    {
        RawValue::Real(Box::new(RealNumber { bits, text: text.to_owned() }))
    }

    /// The text of the value, empty for an event.
    pub fn raw_str(&self) -> (s: String)
        ensures
            s@ == raw_text(self@),
    {
        match self {
            RawValue::Bits(b) => b.as_str().to_owned(),
            RawValue::Real(r) => r.text.clone(),
            RawValue::Str(s) => s.clone(),
            RawValue::Event => String::new(),
        }
    }

    fn shown_as(&self, kind: ValueKind) -> (k: ValueKind)
        ensures
            k == shown_kind(self@, kind),
    {
        match self {
            RawValue::Event => ValueKind::Event,
            RawValue::Real(_) => ValueKind::Real,
            RawValue::Str(_) => ValueKind::Str,
            RawValue::Bits(_) => kind,
        }
    }

    /// The value formatted for text output.
    pub fn fmt_value(&self, kind: ValueKind, width: u32) -> (s: String)
        ensures
            s@ == value_text(raw_text(self@), shown_kind(self@, kind), width),
    {
        fmt_val(self.raw_str().as_str(), self.shown_as(kind), width)
    }

    /// The value formatted for structured output.
    pub fn fmt_value_compact(&self, kind: ValueKind, width: u32) -> (s: String)
        ensures
            s@ == value_compact(raw_text(self@), shown_kind(self@, kind), width),
    {
        fmt_val_compact(self.raw_str().as_str(), self.shown_as(kind), width)
    }

    /// Is this change a repetition of `other`?
    pub fn values_equal(&self, other: &RawValue) -> (r: bool)
        ensures
            r == same_value(self@, other@),
    {
        match self {
            RawValue::Bits(a) => match other {
                RawValue::Bits(b) => same(a.as_str(), b.as_str()),
                _ => false,
            },
            RawValue::Real(a) => match other {
                RawValue::Real(b) => a.bits == b.bits,
                _ => false,
            },
            RawValue::Str(a) => match other {
                RawValue::Str(b) => same(a.as_str(), b.as_str()),
                _ => false,
            },
            RawValue::Event => match other {
                RawValue::Event => true,
                _ => false,
            },
        }
    }
}

impl PartialEq for RawValue {
    fn eq(&self, other: &RawValue) -> (r: bool) {
        self.values_equal(other)
    }
}

impl vstd::std_specs::cmp::PartialEqSpecImpl for RawValue {
    open spec fn obeys_eq_spec() -> bool {
        true
    }

    open spec fn eq_spec(&self, other: &RawValue) -> bool {
        same_value(self@, other@)
    }
}

impl Clone for RawValue {
    fn clone(&self) -> (r: RawValue)
        ensures
            r@ == self@,
    {
        match self {
            RawValue::Bits(b) => RawValue::Bits(b.clone()),
            RawValue::Real(r) => RawValue::from_real(r.bits, r.text.as_str()),
            RawValue::Str(s) => RawValue::Str(s.clone()),
            RawValue::Event => RawValue::Event,
        }
    }
}

/// One change of a signal.
pub struct ChangeView {
    pub tick: int,
    pub value: RawView,
}

/// One signal's change history in time order: at `times[i]` the signal takes
/// the value `values[i]`.
#[derive(Debug)]
pub struct SignalTrace {
    pub times: Vec<i64>,
    pub values: Vec<RawValue>,
}

impl View for SignalTrace {
    type V = Seq<ChangeView>;

    open spec fn view(&self) -> Seq<ChangeView> {
        Seq::new(
            self.times@.len(),
            |i: int| ChangeView { tick: self.times@[i] as int, value: self.values@[i]@ },
        )
    }
}

/// Are the changes in time order?
pub open spec fn in_time_order(h: Seq<ChangeView>) -> bool {
    forall|i: int, j: int| 0 <= i <= j < h.len() ==> (#[trigger] h[i]).tick <= (#[trigger] h[j]).tick
}

/// The number of changes at or before `t` (of a history in time order).
pub open spec fn upto(h: Seq<ChangeView>, t: int) -> int
    decreases h.len(),
{
    if h.len() == 0 {
        0
    } else if h.last().tick <= t {
        h.len() as int
    } else {
        upto(h.drop_last(), t)
    }
}

/// The changes from `lo` to `hi`, both ends taken in.
pub open spec fn changes_in(h: Seq<ChangeView>, lo: int, hi: Option<int>) -> Seq<ChangeView> {
    let a = upto(h, lo - 1);
    let b = match hi {
        Some(t) => upto(h, t),
        None => h.len() as int,
    };
    if a <= b {
        h.subrange(a, b)
    } else {
        Seq::empty()
    }
}

/// The value in force at `t`: that of the last change at or before it.
pub open spec fn value_at(h: Seq<ChangeView>, t: int) -> Option<RawView> {
    let n = upto(h, t);
    if n == 0 {
        None
    } else {
        Some(h[n - 1].value)
    }
}

/// `upto` splits a history: everything before it is at or before `t`, and in a
/// history in time order everything from it on is later.
pub proof fn upto_splits(h: Seq<ChangeView>, t: int)
    requires
        in_time_order(h),
    ensures
        0 <= upto(h, t) <= h.len(),
        forall|i: int| 0 <= i < upto(h, t) ==> (#[trigger] h[i]).tick <= t,
        forall|i: int| upto(h, t) <= i < h.len() ==> (#[trigger] h[i]).tick > t,
    decreases h.len(),
{
    if h.len() > 0 {
        let less = h.drop_last();
        if h.last().tick <= t {
            assert forall|i: int| 0 <= i < h.len() implies (#[trigger] h[i]).tick <= t by {
                assert(h[i].tick <= h[h.len() - 1].tick);
            }
        } else {
            assert forall|i: int, j: int| 0 <= i <= j < less.len() implies (
            #[trigger] less[i]).tick <= (#[trigger] less[j]).tick by {
                assert(h[i].tick <= h[j].tick);
            }
            upto_splits(less, t);
            assert forall|i: int| 0 <= i < upto(h, t) implies (#[trigger] h[i]).tick <= t by {
                assert(h[i] == less[i]);
            }
            assert forall|i: int| upto(h, t) <= i < h.len() implies (#[trigger] h[i]).tick > t by {
                if i < less.len() {
                    assert(h[i] == less[i]);
                }
            }
        }
    }
}

/// The split point is the only one.
pub proof fn upto_is_unique(h: Seq<ChangeView>, t: int, n: int)
    requires
        in_time_order(h),
        0 <= n <= h.len(),
        forall|i: int| 0 <= i < n ==> (#[trigger] h[i]).tick <= t,
        forall|i: int| n <= i < h.len() ==> (#[trigger] h[i]).tick > t,
    ensures
        upto(h, t) == n,
{
    upto_splits(h, t);
    let m = upto(h, t);
    if m < n {
        assert(h[m].tick <= t);
        assert(h[m].tick > t);
    } else if n < m {
        assert(h[n].tick > t);
        assert(h[n].tick <= t);
    }
}

impl SignalTrace {
    /// As many values as times, in time order.
    pub open spec fn wf(&self) -> bool {
        self.times@.len() == self.values@.len() && in_time_order(self@)
    }

    pub fn new() -> (t: SignalTrace)
        ensures
            t.wf(),
            t@ == Seq::<ChangeView>::empty(),
    {
        let t: SignalTrace = SignalTrace { times: Vec::new(), values: Vec::new() };
        assert(t@ =~= Seq::empty());
        t
    }

    pub fn len(&self) -> (n: usize)
        ensures
            n == self@.len(),
    {
        self.times.len()
    }

    pub fn is_empty(&self) -> (r: bool)
        ensures
            r == (self@.len() == 0),
    {
        self.times.len() == 0
    }

    /// Append a change.
    pub fn push(&mut self, tick: i64, value: RawValue)
        requires
            old(self).times@.len() == old(self).values@.len(),
        ensures
            final(self)@ == old(self)@.push(ChangeView { tick: tick as int, value: value@ }),
            final(self).times@.len() == final(self).values@.len(),
    {
        self.times.push(tick);
        self.values.push(value);
        assert(self@ =~= old(self)@.push(ChangeView { tick: tick as int, value: value@ }));
    }

    pub fn duplicate(&self) -> (t: SignalTrace)
        requires
            self.wf(),
        ensures
            t.wf(),
            t@ == self@,
    {
        let mut t: SignalTrace = SignalTrace::new();
        let mut i: usize = 0;
        assert(t@ =~= self@.take(0));
        while i < self.times.len()
            invariant
                i <= self.times.len(),
                self.wf(),
                t.times@.len() == t.values@.len(),
                t@ == self@.take(i as int),
            decreases self.times.len() - i,
        {
            t.push(self.times[i], self.values[i].clone());
            i += 1;
            assert(t@ =~= self@.take(i as int));
        }
        assert(t@ =~= self@);
        t
    }

    /// The number of changes at or before `t`, found by bisection.
    pub fn count_upto(&self, t: i64) -> (n: usize)
        requires
            self.wf(),
        ensures
            n == upto(self@, t as int),
            n <= self.times@.len(),
    {
        let mut lo: usize = 0;
        let mut hi: usize = self.times.len();
        while lo < hi
            invariant
                lo <= hi <= self.times.len(),
                self.wf(),
                forall|i: int| 0 <= i < lo ==> (#[trigger] self@[i]).tick <= t,
                forall|i: int| hi <= i < self@.len() ==> (#[trigger] self@[i]).tick > t,
            decreases hi - lo,
        {
            let mid: usize = lo + (hi - lo) / 2;
            assert(self@[mid as int].tick == self.times@[mid as int]);
            if self.times[mid] <= t {
                assert forall|i: int| 0 <= i < mid + 1 implies (#[trigger] self@[i]).tick <= t by {
                    assert(self@[i].tick <= self@[mid as int].tick);
                }
                lo = mid + 1;
            } else {
                assert forall|i: int| mid <= i < self@.len() implies (#[trigger] self@[i]).tick
                    > t by {
                    assert(self@[mid as int].tick <= self@[i].tick);
                }
                hi = mid;
            }
        }
        proof {
            upto_is_unique(self@, t as int, lo as int);
        }
        lo
    }

    /// The index of the last change at or before `t`.
    pub fn last_at_or_before(&self, t: i64) -> (r: Option<usize>)
        requires
            self.wf(),
        ensures
            match r {
                Some(p) => p + 1 == upto(self@, t as int) && p < self.times@.len(),
                None => upto(self@, t as int) == 0,
            },
    {
        let n: usize = self.count_upto(t);
        if n == 0 {
            None
        } else {
            Some(n - 1)
        }
    }

    /// The index of the first change at or after `t`.
    pub fn lower_bound(&self, t: i64) -> (n: usize)
        requires
            self.wf(),
        ensures
            n == upto(self@, t - 1),
            n <= self.times@.len(),
    {
        if t == i64::MIN {
            proof {
                assert forall|i: int| 0 <= i < self@.len() implies (#[trigger] self@[i]).tick > t
                    - 1 by {
                    assert(self@[i].tick == self.times@[i]);
                }
                upto_is_unique(self@, t - 1, 0);
            }
            return 0;
        }
        self.count_upto(t - 1)
    }

    /// The number of changes at or before `hi`, or all of them.
    pub fn upper_bound(&self, hi: Option<i64>) -> (n: usize)
        requires
            self.wf(),
        ensures
            n == match hi {
                Some(t) => upto(self@, t as int),
                None => self@.len() as int,
            },
            n <= self.times@.len(),
    {
        match hi {
            Some(t) => self.count_upto(t),
            None => self.times.len(),
        }
    }

    /// The value in force at `t`.
    pub fn value_at(&self, t: i64) -> (r: Option<RawValue>)
        requires
            self.wf(),
        ensures
            match r {
                Some(v) => value_at(self@, t as int) == Some(v@),
                None => value_at(self@, t as int) is None,
            },
    {
        let pos: Option<usize> = self.last_at_or_before(t);
        match pos {
            Some(p) => {
                assert(self@[p as int].value == self.values@[p as int]@);
                Some(self.values[p].clone())
            },
            None => None,
        }
    }
}

} // verus!
