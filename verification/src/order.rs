//! Sorting: an order on keys and a stable merge sort that returns the order
//! of the positions.

use vstd::prelude::*;

use crate::text::views;

verus! {

/// A key with a total order.
pub trait SortKey {
    /// Does `self` come no later than `other`?
    spec fn at_most(&self, other: &Self) -> bool;

    proof fn at_most_total(&self, other: &Self)
        ensures
            self.at_most(other) || other.at_most(self),
    ;

    proof fn at_most_transitive(&self, mid: &Self, other: &Self)
        requires
            self.at_most(mid),
            mid.at_most(other),
        ensures
            self.at_most(other),
    ;

    fn no_later(&self, other: &Self) -> (r: bool)
        ensures
            r == self.at_most(other),
    ;
}

/// Lexicographic order on byte sequences: a proper prefix comes first.
pub open spec fn bytes_at_most(a: Seq<u8>, b: Seq<u8>) -> bool
    decreases a.len(),
{
    if a.len() == 0 {
        true
    } else if b.len() == 0 {
        false
    } else if a[0] != b[0] {
        a[0] < b[0]
    } else {
        bytes_at_most(a.drop_first(), b.drop_first())
    }
}

/// Strings are ordered by their UTF-8 bytes.
pub open spec fn text_at_most(a: Seq<char>, b: Seq<char>) -> bool {
    bytes_at_most(vstd::utf8::encode_utf8(a), vstd::utf8::encode_utf8(b))
}

pub proof fn bytes_total(a: Seq<u8>, b: Seq<u8>)
    ensures
        bytes_at_most(a, b) || bytes_at_most(b, a),
        bytes_at_most(a, b) && bytes_at_most(b, a) ==> a == b,
    decreases a.len(),
{
    if a.len() > 0 && b.len() > 0 {
        if a[0] == b[0] {
            bytes_total(a.drop_first(), b.drop_first());
            if bytes_at_most(a, b) && bytes_at_most(b, a) {
                assert(a =~= seq![a[0]] + a.drop_first());
                assert(b =~= seq![b[0]] + b.drop_first());
            }
        }
    } else if a.len() == 0 && b.len() == 0 {
        assert(a =~= b);
    }
}

pub proof fn bytes_transitive(a: Seq<u8>, b: Seq<u8>, c: Seq<u8>)
    requires
        bytes_at_most(a, b),
        bytes_at_most(b, c),
    ensures
        bytes_at_most(a, c),
    decreases a.len(),
{
    if a.len() > 0 && b.len() > 0 && c.len() > 0 {
        if a[0] == b[0] && b[0] == c[0] {
            bytes_transitive(a.drop_first(), b.drop_first(), c.drop_first());
        }
    }
}

proof fn lemma_bytes_skip(a: Seq<u8>, b: Seq<u8>, n: int)
    requires
        0 <= n <= a.len(),
        n <= b.len(),
        forall|k: int| 0 <= k < n ==> a[k] == b[k],
    ensures
        bytes_at_most(a, b) == bytes_at_most(a.skip(n), b.skip(n)),
    decreases n,
{
    if n > 0 {
        assert forall|k: int| 0 <= k < n - 1 implies a.drop_first()[k] == b.drop_first()[k] by {
            assert(a[k + 1] == b[k + 1]);
        }
        lemma_bytes_skip(a.drop_first(), b.drop_first(), n - 1);
        assert(a.drop_first().skip(n - 1) =~= a.skip(n));
        assert(b.drop_first().skip(n - 1) =~= b.skip(n));
    } else {
        assert(a.skip(0) =~= a);
        assert(b.skip(0) =~= b);
    }
}

/// Is `a` no later than `b` in string order?
pub fn str_no_later(a: &str, b: &str) -> (r: bool)
    ensures
        r == text_at_most(a@, b@),
{
    let x: &[u8] = a.as_bytes();
    let y: &[u8] = b.as_bytes();
    let n: usize = if x.len() < y.len() {
        x.len()
    } else {
        y.len()
    };
    let mut i: usize = 0;
    while i < n
        invariant
            i <= n <= x.len(),
            n <= y.len(),
            forall|k: int| 0 <= k < i ==> x@[k] == y@[k],
            x@ == vstd::utf8::encode_utf8(a@),
            y@ == vstd::utf8::encode_utf8(b@),
        decreases n - i,
    {
        if x[i] != y[i] {
            proof {
                lemma_bytes_skip(x@, y@, i as int);
            }
            return x[i] < y[i];
        }
        i += 1;
    }
    proof {
        lemma_bytes_skip(x@, y@, n as int);
    }
    x.len() <= y.len()
}

impl SortKey for String {
    open spec fn at_most(&self, other: &Self) -> bool {
        text_at_most(self@, other@)
    }

    proof fn at_most_total(&self, other: &Self) {
        bytes_total(vstd::utf8::encode_utf8(self@), vstd::utf8::encode_utf8(other@));
    }

    proof fn at_most_transitive(&self, mid: &Self, other: &Self) {
        bytes_transitive(
            vstd::utf8::encode_utf8(self@),
            vstd::utf8::encode_utf8(mid@),
            vstd::utf8::encode_utf8(other@),
        );
    }

    fn no_later(&self, other: &Self) -> (r: bool) {
        str_no_later(self.as_str(), other.as_str())
    }
}

/// Does position `a` come before position `b` when `keys` is sorted stably?
spec fn sorts_before<K: SortKey>(keys: Seq<K>, a: int, b: int) -> bool {
    keys[a].at_most(&keys[b]) && (!keys[b].at_most(&keys[a]) || a < b)
}

/// Is `p` one of the positions in `order`?
pub open spec fn lists(order: Seq<usize>, p: int) -> bool {
    exists|i: int| 0 <= i < order.len() && order[i] == p
}

/// Later entries of `order` sort after earlier ones.
spec fn in_order<K: SortKey>(keys: Seq<K>, order: Seq<usize>) -> bool {
    forall|i: int, j: int|
        0 <= i < j < order.len() ==> sorts_before(
            keys,
            #[trigger] order[i] as int,
            #[trigger] order[j] as int,
        )
}

/// `order` lists the positions `lo..hi` of `keys`, each once, in sorted order;
/// positions with equal keys keep their relative order.
spec fn sorted_range<K: SortKey>(
    keys: Seq<K>,
    order: Seq<usize>,
    lo: int,
    hi: int,
) -> bool {
    &&& order.len() == hi - lo
    &&& forall|i: int| 0 <= i < order.len() ==> lo <= #[trigger] order[i] < hi
    &&& in_order(keys, order)
    &&& forall|p: int| lo <= p < hi ==> #[trigger] lists(order, p)
}

proof fn lemma_before_transitive<K: SortKey>(keys: Seq<K>, a: int, b: int, c: int)
    requires
        sorts_before(keys, a, b),
        sorts_before(keys, b, c),
    ensures
        sorts_before(keys, a, c),
{
    keys[a].at_most_transitive(&keys[b], &keys[c]);
    if keys[c].at_most(&keys[a]) {
        keys[c].at_most_transitive(&keys[a], &keys[b]);
        keys[b].at_most_transitive(&keys[c], &keys[a]);
    }
}

/// All of `out` sorts before `list[from..]`.
spec fn precedes_rest<K: SortKey>(
    keys: Seq<K>,
    out: Seq<usize>,
    list: Seq<usize>,
    from: int,
) -> bool {
    forall|p: int, q: int|
        0 <= p < out.len() && from <= q < list.len() ==> sorts_before(
            keys,
            #[trigger] out[p] as int,
            #[trigger] list[q] as int,
        )
}

proof fn lemma_take<K: SortKey>(
    keys: Seq<K>,
    out: Seq<usize>,
    list: Seq<usize>,
    at: int,
    other: Seq<usize>,
    from: int,
)
    requires
        in_order(keys, out),
        in_order(keys, list),
        in_order(keys, other),
        0 <= at < list.len(),
        0 <= from <= other.len(),
        precedes_rest(keys, out, list, at),
        precedes_rest(keys, out, other, from),
        from < other.len() ==> sorts_before(keys, list[at] as int, other[from] as int),
    ensures
        in_order(keys, out.push(list[at])),
        precedes_rest(keys, out.push(list[at]), list, at + 1),
        precedes_rest(keys, out.push(list[at]), other, from),
{
    let x = list[at];
    let now = out.push(x);
    assert forall|i: int, j: int| 0 <= i < j < now.len() implies sorts_before(
        keys,
        #[trigger] now[i] as int,
        #[trigger] now[j] as int,
    ) by {
        assert(now[i] == out[i]);
        if j < out.len() {
            assert(now[j] == out[j]);
        } else {
            assert(now[j] == list[at]);
        }
    }
    assert forall|p: int, q: int|
        0 <= p < now.len() && at + 1 <= q < list.len() implies sorts_before(
        keys,
        #[trigger] now[p] as int,
        #[trigger] list[q] as int,
    ) by {
        if p < out.len() {
            assert(now[p] == out[p]);
        } else {
            assert(now[p] == list[at]);
        }
    }
    assert forall|p: int, q: int|
        0 <= p < now.len() && from <= q < other.len() implies sorts_before(
        keys,
        #[trigger] now[p] as int,
        #[trigger] other[q] as int,
    ) by {
        if p < out.len() {
            assert(now[p] == out[p]);
        } else if q > from {
            assert(sorts_before(keys, other[from] as int, other[q] as int));
            lemma_before_transitive(keys, x as int, other[from] as int, other[q] as int);
        }
    }
}

proof fn lemma_lists_push(order: Seq<usize>, x: usize)
    ensures
        lists(order.push(x), x as int),
        forall|p: int| lists(order, p) ==> #[trigger] lists(order.push(x), p),
{
    let now = order.push(x);
    assert(now[order.len() as int] == x);
    assert forall|p: int| lists(order, p) implies #[trigger] lists(now, p) by {
        let i = choose|i: int| 0 <= i < order.len() && order[i] == p;
        assert(now[i] == p);
    }
}

fn merge<K: SortKey>(
    keys: &Vec<K>,
    a: &Vec<usize>,
    b: &Vec<usize>,
    Ghost(lo): Ghost<int>,
    Ghost(mid): Ghost<int>,
    Ghost(hi): Ghost<int>,
) -> (out: Vec<usize>)
    requires
        0 <= lo <= mid <= hi <= keys.len(),
        sorted_range(keys@, a@, lo, mid),
        sorted_range(keys@, b@, mid, hi),
    ensures
        sorted_range(keys@, out@, lo, hi),
{
    let mut out: Vec<usize> = Vec::new();
    let mut i: usize = 0;
    let mut j: usize = 0;
    while i < a.len() || j < b.len()
        invariant
            0 <= lo <= mid <= hi <= keys.len(),
            sorted_range(keys@, a@, lo, mid),
            sorted_range(keys@, b@, mid, hi),
            i <= a.len(),
            j <= b.len(),
            out.len() == i + j,
            forall|k: int| 0 <= k < out.len() ==> lo <= #[trigger] out@[k] < hi,
            in_order(keys@, out@),
            precedes_rest(keys@, out@, a@, i as int),
            precedes_rest(keys@, out@, b@, j as int),
            forall|k: int| 0 <= k < i ==> lists(out@, #[trigger] a@[k] as int),
            forall|k: int| 0 <= k < j ==> lists(out@, #[trigger] b@[k] as int),
        decreases a.len() + b.len() - i - j,
    {
        let left: bool = if i >= a.len() {
            false
        } else if j >= b.len() {
            true
        } else {
            assert(lo <= a@[i as int] < mid);
            assert(mid <= b@[j as int] < hi);
            let first: bool = keys[a[i]].no_later(&keys[b[j]]);
            proof {
                keys@[a@[i as int] as int].at_most_total(&keys@[b@[j as int] as int]);
            }
            first
        };
        if left {
            proof {
                lemma_take(keys@, out@, a@, i as int, b@, j as int);
                lemma_lists_push(out@, a@[i as int]);
            }
            out.push(a[i]);
            i += 1;
        } else {
            proof {
                lemma_take(keys@, out@, b@, j as int, a@, i as int);
                lemma_lists_push(out@, b@[j as int]);
            }
            out.push(b[j]);
            j += 1;
        }
    }
    proof {
        assert forall|p: int| lo <= p < hi implies #[trigger] lists(out@, p) by {
            if p < mid {
                assert(lists(a@, p));
                let k = choose|k: int| 0 <= k < a@.len() && a@[k] == p;
                assert(lists(out@, a@[k] as int));
            } else {
                assert(lists(b@, p));
                let k = choose|k: int| 0 <= k < b@.len() && b@[k] == p;
                assert(lists(out@, b@[k] as int));
            }
        }
    }
    out
}

fn sort_range<K: SortKey>(keys: &Vec<K>, lo: usize, hi: usize) -> (out: Vec<usize>)
    requires
        lo <= hi <= keys.len(),
    ensures
        sorted_range(keys@, out@, lo as int, hi as int),
    decreases hi - lo,
{
    if hi - lo <= 1 {
        let mut out: Vec<usize> = Vec::new();
        if lo < hi {
            out.push(lo);
            proof {
                lemma_lists_push(Seq::empty(), lo);
                assert(Seq::<usize>::empty().push(lo) =~= out@);
            }
        }
        return out;
    }
    let mid: usize = lo + (hi - lo) / 2;
    let a: Vec<usize> = sort_range(keys, lo, mid);
    let b: Vec<usize> = sort_range(keys, mid, hi);
    merge(keys, &a, &b, Ghost(lo as int), Ghost(mid as int), Ghost(hi as int))
}

/// Does position `a` come before position `b` when `keys` is sorted by `le`,
/// equal keys keeping their places?
pub open spec fn stable_before<A>(
    le: spec_fn(A, A) -> bool,
    keys: Seq<A>,
    a: int,
    b: int,
) -> bool {
    le(keys[a], keys[b]) && (!le(keys[b], keys[a]) || a < b)
}

/// `order` lists every position of `keys` once, sorted by `le`, and positions
/// with equal keys keep their relative order.
pub open spec fn stable_sorted<A>(
    le: spec_fn(A, A) -> bool,
    keys: Seq<A>,
    order: Seq<usize>,
) -> bool {
    &&& order.len() == keys.len()
    &&& forall|i: int| 0 <= i < order.len() ==> 0 <= #[trigger] order[i] < keys.len()
    &&& forall|i: int, j: int|
        0 <= i < j < order.len() ==> stable_before(
            le,
            keys,
            #[trigger] order[i] as int,
            #[trigger] order[j] as int,
        )
    &&& forall|p: int| 0 <= p < keys.len() ==> #[trigger] lists(order, p)
}

/// `le` is a total preorder.
pub open spec fn total_preorder<A>(le: spec_fn(A, A) -> bool) -> bool {
    &&& forall|a: A, b: A| #[trigger] le(a, b) || le(b, a)
    &&& forall|a: A, b: A, c: A| #[trigger] le(a, b) && #[trigger] le(b, c) ==> le(a, c)
}

/// Two stable sorted orders of the same keys are the same.
pub proof fn stable_order_is_unique<A>(
    le: spec_fn(A, A) -> bool,
    keys: Seq<A>,
    a: Seq<usize>,
    b: Seq<usize>,
)
    requires
        stable_sorted(le, keys, a),
        stable_sorted(le, keys, b),
    ensures
        a == b,
{
    lemma_same_prefix(le, keys, a, b, a.len() as int);
    assert(a =~= b);
}

proof fn lemma_same_prefix<A>(
    le: spec_fn(A, A) -> bool,
    keys: Seq<A>,
    a: Seq<usize>,
    b: Seq<usize>,
    n: int,
)
    requires
        stable_sorted(le, keys, a),
        stable_sorted(le, keys, b),
        0 <= n <= a.len(),
    ensures
        forall|i: int| 0 <= i < n ==> a[i] == b[i],
    decreases n,
{
    if n > 0 {
        lemma_same_prefix(le, keys, a, b, n - 1);
        let m = n - 1;
        if a[m] != b[m] {
            // Each list names the other's entry further on, which puts the two
            // entries before one another.
            assert(lists(b, a[m] as int));
            let p = choose|i: int| 0 <= i < b.len() && b[i] == a[m];
            assert(lists(a, b[m] as int));
            let q = choose|i: int| 0 <= i < a.len() && a[i] == b[m];
            if p < m {
                assert(a[p] == b[p]);
                assert(stable_before(le, keys, a[p] as int, a[m] as int));
            } else if q < m {
                assert(a[q] == b[q]);
                assert(stable_before(le, keys, b[q] as int, b[m] as int));
            } else {
                assert(stable_before(le, keys, b[m] as int, b[p] as int));
                assert(stable_before(le, keys, a[m] as int, a[q] as int));
            }
            assert(false);
        }
    }
}

/// The order of a key type.
pub open spec fn key_le<K: SortKey>() -> spec_fn(K, K) -> bool {
    |a: K, b: K| a.at_most(&b)
}

/// The positions of `keys` in stable sorted order.
pub fn sort_order<K: SortKey>(keys: &Vec<K>) -> (order: Vec<usize>)
    ensures
        stable_sorted(key_le::<K>(), keys@, order@),
{
    let order: Vec<usize> = sort_range(keys, 0, keys.len());
    proof {
        let le = key_le::<K>();
        assert forall|i: int, j: int| 0 <= i < j < order@.len() implies stable_before(
            le,
            keys@,
            #[trigger] order@[i] as int,
            #[trigger] order@[j] as int,
        ) by {
            assert(sorts_before(keys@, order@[i] as int, order@[j] as int));
        }
    }
    order
}

/// The order of strings.
pub open spec fn text_le() -> spec_fn(Seq<char>, Seq<char>) -> bool {
    |a: Seq<char>, b: Seq<char>| text_at_most(a, b)
}

/// The stable sorted order of `keys`, built by inserting one position after
/// another.
pub open spec fn stable_order<A>(le: spec_fn(A, A) -> bool, keys: Seq<A>) -> Seq<usize>
    decreases keys.len(),
{
    if keys.len() == 0 {
        Seq::empty()
    } else {
        insert_position(le, keys, stable_order(le, keys.drop_last()), (keys.len() - 1) as usize)
    }
}

/// `order` with `x` put in behind the last entry whose key is no later than
/// that of `x`.
pub open spec fn insert_position<A>(
    le: spec_fn(A, A) -> bool,
    keys: Seq<A>,
    order: Seq<usize>,
    x: usize,
) -> Seq<usize>
    decreases order.len(),
{
    if order.len() == 0 {
        seq![x]
    } else if le(keys[order.last() as int], keys[x as int]) {
        order.push(x)
    } else {
        insert_position(le, keys, order.drop_last(), x).push(order.last())
    }
}

/// The entries of `order` are sorted, and each is below `x`.
spec fn ordered_below<A>(
    le: spec_fn(A, A) -> bool,
    keys: Seq<A>,
    order: Seq<usize>,
    x: usize,
) -> bool {
    &&& forall|i: int| 0 <= i < order.len() ==> 0 <= #[trigger] order[i] < x
    &&& forall|i: int, j: int|
        0 <= i < j < order.len() ==> stable_before(
            le,
            keys,
            #[trigger] order[i] as int,
            #[trigger] order[j] as int,
        )
}

proof fn lemma_insert<A>(
    le: spec_fn(A, A) -> bool,
    keys: Seq<A>,
    order: Seq<usize>,
    x: usize,
)
    requires
        total_preorder(le),
        x < keys.len(),
        ordered_below(le, keys, order, x),
    ensures
        ({
            let now = insert_position(le, keys, order, x);
            &&& now.len() == order.len() + 1
            &&& forall|i: int| 0 <= i < now.len() ==> 0 <= #[trigger] now[i] <= x
            &&& forall|i: int, j: int|
                0 <= i < j < now.len() ==> stable_before(
                    le,
                    keys,
                    #[trigger] now[i] as int,
                    #[trigger] now[j] as int,
                )
            &&& lists(now, x as int)
            &&& forall|p: int| lists(order, p) ==> #[trigger] lists(now, p)
            &&& forall|i: int|
                0 <= i < now.len() ==> #[trigger] now[i] == x || lists(order, now[i] as int)
        }),
    decreases order.len(),
{
    let now = insert_position(le, keys, order, x);
    if order.len() == 0 {
        assert(now[0] == x);
    } else if le(keys[order.last() as int], keys[x as int]) {
        assert(now =~= order.push(x));
        lemma_lists_push(order, x);
        assert forall|i: int, j: int| 0 <= i < j < now.len() implies stable_before(
            le,
            keys,
            #[trigger] now[i] as int,
            #[trigger] now[j] as int,
        ) by {
            if j == order.len() {
                if i < order.len() - 1 {
                    assert(stable_before(le, keys, order[i] as int, order.last() as int));
                    assert(le(keys[order[i] as int], keys[order.last() as int]));
                }
                assert(le(keys[now[i] as int], keys[x as int]));
            } else {
                assert(stable_before(le, keys, order[i] as int, order[j] as int));
            }
        }
        assert forall|i: int| 0 <= i < now.len() implies #[trigger] now[i] == x || lists(
            order,
            now[i] as int,
        ) by {
            if i < order.len() {
                assert(order[i] == now[i]);
            }
        }
    } else {
        let less = order.drop_last();
        let last = order.last();
        lemma_insert(le, keys, less, x);
        let part = insert_position(le, keys, less, x);
        assert(now =~= part.push(last));
        assert(le(keys[x as int], keys[last as int]));
        lemma_lists_push(part, last);
        assert forall|i: int, j: int| 0 <= i < j < now.len() implies stable_before(
            le,
            keys,
            #[trigger] now[i] as int,
            #[trigger] now[j] as int,
        ) by {
            if j == part.len() {
                if part[i] != x {
                    assert(lists(less, part[i] as int));
                    let k = choose|k: int| 0 <= k < less.len() && less[k] == part[i];
                    assert(order[k] == part[i]);
                    assert(stable_before(le, keys, order[k] as int, order[order.len() - 1] as int));
                }
            } else {
                assert(stable_before(le, keys, part[i] as int, part[j] as int));
            }
        }
        assert forall|p: int| lists(order, p) implies #[trigger] lists(now, p) by {
            let k = choose|k: int| 0 <= k < order.len() && order[k] == p;
            if k < less.len() {
                assert(less[k] == p);
                assert(lists(less, p));
                assert(lists(part, p));
            }
        }
        assert forall|i: int| 0 <= i < now.len() implies #[trigger] now[i] == x || lists(
            order,
            now[i] as int,
        ) by {
            if i < part.len() {
                if part[i] != x {
                    assert(lists(less, part[i] as int));
                    let k = choose|k: int| 0 <= k < less.len() && less[k] == part[i];
                    assert(order[k] == now[i]);
                }
            } else {
                assert(order[order.len() - 1] == now[i]);
            }
        }
    }
}

proof fn lemma_insert_same_keys<A>(
    le: spec_fn(A, A) -> bool,
    keys: Seq<A>,
    more: Seq<A>,
    order: Seq<usize>,
)
    requires
        forall|i: int| 0 <= i < order.len() ==> #[trigger] order[i] < keys.len(),
        keys.len() < more.len() <= usize::MAX,
        forall|i: int| 0 <= i < keys.len() ==> keys[i] == more[i],
        stable_sorted(le, keys, order),
    ensures
        ordered_below(le, more, order, keys.len() as usize),
{
    assert forall|i: int, j: int| 0 <= i < j < order.len() implies stable_before(
        le,
        more,
        #[trigger] order[i] as int,
        #[trigger] order[j] as int,
    ) by {
        assert(stable_before(le, keys, order[i] as int, order[j] as int));
    }
}

/// The built order is sorted, stable and complete.
pub proof fn stable_order_sorts<A>(le: spec_fn(A, A) -> bool, keys: Seq<A>)
    requires
        total_preorder(le),
        keys.len() <= usize::MAX,
    ensures
        stable_sorted(le, keys, stable_order(le, keys)),
    decreases keys.len(),
{
    if keys.len() > 0 {
        let less = keys.drop_last();
        let x = (keys.len() - 1) as usize;
        stable_order_sorts(le, less);
        let part = stable_order(le, less);
        lemma_insert_same_keys(le, less, keys, part);
        lemma_insert(le, keys, part, x);
        let now = stable_order(le, keys);
        assert forall|p: int| 0 <= p < keys.len() implies #[trigger] lists(now, p) by {
            if p < less.len() {
                assert(lists(part, p));
            }
        }
    }
}

pub proof fn text_le_is_total()
    ensures
        total_preorder(text_le()),
{
    let le = text_le();
    assert forall|a: Seq<char>, b: Seq<char>| #[trigger] le(a, b) || le(b, a) by {
        bytes_total(vstd::utf8::encode_utf8(a), vstd::utf8::encode_utf8(b));
    }
    assert forall|a: Seq<char>, b: Seq<char>, c: Seq<char>| #[trigger]
        le(a, b) && #[trigger] le(b, c) implies le(a, c) by {
        bytes_transitive(
            vstd::utf8::encode_utf8(a),
            vstd::utf8::encode_utf8(b),
            vstd::utf8::encode_utf8(c),
        );
    }
}

/// The stable sorted order of a list of strings.
pub open spec fn text_order(keys: Seq<Seq<char>>) -> Seq<usize> {
    stable_order(text_le(), keys)
}

/// The positions of `keys` in string order.
pub fn sort_texts(keys: &Vec<String>) -> (order: Vec<usize>)
    ensures
        order@ == text_order(views(keys@)),
        stable_sorted(text_le(), views(keys@), order@),
{
    let order: Vec<usize> = sort_order(keys);
    let n: usize = keys.len();
    proof {
        let ks = views(keys@);
        assert(ks.len() == n);
        assert forall|i: int, j: int| 0 <= i < j < order@.len() implies stable_before(
            text_le(),
            ks,
            #[trigger] order@[i] as int,
            #[trigger] order@[j] as int,
        ) by {
            assert(stable_before(key_le::<String>(), keys@, order@[i] as int, order@[j] as int));
        }
        assert(stable_sorted(text_le(), ks, order@));
        text_le_is_total();
        stable_order_sorts(text_le(), ks);
        stable_order_is_unique(text_le(), ks, order@, text_order(ks));
    }
    order
}

/// String order is antisymmetric.
pub proof fn text_antisymmetric(a: Seq<char>, b: Seq<char>)
    requires
        text_at_most(a, b),
        text_at_most(b, a),
    ensures
        a == b,
{
    bytes_total(vstd::utf8::encode_utf8(a), vstd::utf8::encode_utf8(b));
    vstd::utf8::encode_utf8_decode_utf8(a);
    vstd::utf8::encode_utf8_decode_utf8(b);
}

/// Are the texts in strictly increasing string order?
pub open spec fn increasing(s: Seq<Seq<char>>) -> bool {
    forall|i: int, j: int|
        0 <= i < j < s.len() ==> text_at_most(#[trigger] s[i], #[trigger] s[j]) && s[i] != s[j]
}

/// A list without the texts that equal the one before them.
pub open spec fn without_echoes(s: Seq<Seq<char>>) -> Seq<Seq<char>>
    decreases s.len(),
{
    if s.len() == 0 {
        Seq::empty()
    } else if s.len() > 1 && s[s.len() - 2] == s.last() {
        without_echoes(s.drop_last())
    } else {
        without_echoes(s.drop_last()).push(s.last())
    }
}

/// The different texts of `v`, in string order.
pub open spec fn sorted_set(v: Seq<Seq<char>>) -> Seq<Seq<char>> {
    without_echoes(arranged(v, text_order(v)))
}

/// The different texts of `v`, in string order.
pub fn sorted_distinct(v: &Vec<String>) -> (r: Vec<String>)
    ensures
        views(r@) == sorted_set(views(v@)),
        increasing(views(r@)),
        forall|t: Seq<char>| #[trigger] views(r@).contains(t) == views(v@).contains(t),
{
    let order: Vec<usize> = sort_texts(v);
    let ghost ks = views(v@);
    let ghost all = arranged(ks, order@);
    let mut r: Vec<String> = Vec::new();
    let mut i: usize = 0;
    let n: usize = order.len();
    assert(all.take(0) =~= Seq::empty());
    assert(views(r@) =~= Seq::empty());
    while i < n
        invariant
            i <= n == order.len(),
            ks == views(v@),
            all == arranged(ks, order@),
            stable_sorted(text_le(), ks, order@),
            views(r@) == without_echoes(all.take(i as int)),
            increasing(views(r@)),
            i == 0 ==> r.len() == 0,
            i > 0 ==> r.len() > 0 && views(r@)[r.len() - 1] == ks[order@[i - 1] as int],
            forall|k: int| 0 <= k < i ==> views(r@).contains(ks[#[trigger] order@[k] as int]),
            forall|k: int| 0 <= k < r.len() ==> ks.contains(#[trigger] views(r@)[k]),
        decreases n - i,
    {
        let p: usize = order[i];
        assert(order@[i as int] < ks.len());
        let ghost r0 = views(r@);
        proof {
            assert(all.take(i + 1).drop_last() =~= all.take(i as int));
            assert(all.take(i + 1).last() == ks[p as int]);
            if i > 0 {
                assert(all.take(i + 1)[i - 1] == ks[order@[i - 1] as int]);
            }
        }
        let fresh = if r.len() == 0 {
            true
        } else {
            !crate::text::same(&r[r.len() - 1], &v[p])
        };
        proof {
            if i > 0 {
                assert(stable_before(text_le(), ks, order@[i - 1] as int, order@[i as int] as int));
            }
        }
        if fresh {
            r.push(v[p].clone());
            proof {
                let r1 = views(r@);
                assert(r1 =~= r0.push(ks[p as int]));
                assert forall|a: int, b: int| 0 <= a < b < r1.len() implies text_at_most(
                    #[trigger] r1[a],
                    #[trigger] r1[b],
                ) && r1[a] != r1[b] by {
                    if b < r0.len() {
                        assert(r0[a] == r1[a] && r0[b] == r1[b]);
                    } else {
                        let last = r0[r0.len() - 1];
                        assert(text_at_most(last, r1[b]));
                        if a < r0.len() - 1 {
                            assert(text_at_most(r0[a], last) && r0[a] != last);
                            bytes_transitive(
                                vstd::utf8::encode_utf8(r0[a]),
                                vstd::utf8::encode_utf8(last),
                                vstd::utf8::encode_utf8(r1[b]),
                            );
                            if r0[a] == r1[b] {
                                text_antisymmetric(r0[a], last);
                            }
                        }
                    }
                }
                assert forall|k: int| 0 <= k < i + 1 implies r1.contains(
                    ks[#[trigger] order@[k] as int],
                ) by {
                    if k < i {
                        let q = choose|q: int| 0 <= q < r0.len() && r0[q] == ks[order@[k] as int];
                        assert(r1[q] == ks[order@[k] as int]);
                    } else {
                        assert(r1[r0.len() as int] == ks[p as int]);
                    }
                }
            }
        } else {
            assert(views(r@)[r.len() - 1] == ks[p as int]);
        }
        i += 1;
    }
    proof {
        assert(all.take(n as int) =~= all);
        assert forall|t: Seq<char>| #[trigger] views(r@).contains(t) == ks.contains(t) by {
            if ks.contains(t) {
                let q = choose|q: int| 0 <= q < ks.len() && ks[q] == t;
                assert(lists(order@, q));
                let k = choose|k: int| 0 <= k < order@.len() && order@[k] == q;
                assert(views(r@).contains(ks[order@[k] as int]));
            }
        }
    }
    r
}

/// The items of `items` taken in the given order.
pub open spec fn arranged<A>(items: Seq<A>, order: Seq<usize>) -> Seq<A> {
    Seq::new(order.len(), |i: int| items[order[i] as int])
}

proof fn lemma_without_echoes(s: Seq<Seq<char>>)
    requires
        forall|i: int, j: int|
            0 <= i < j < s.len() ==> text_at_most(#[trigger] s[i], #[trigger] s[j]),
    ensures
        increasing(without_echoes(s)),
        s.len() > 0 ==> without_echoes(s).len() > 0 && without_echoes(s).last() == s.last(),
        forall|t: Seq<char>| #[trigger] without_echoes(s).contains(t) == s.contains(t),
    decreases s.len(),
{
    let r = without_echoes(s);
    if s.len() > 0 {
        let less = s.drop_last();
        let x = s.last();
        assert forall|i: int, j: int| 0 <= i < j < less.len() implies text_at_most(
            #[trigger] less[i],
            #[trigger] less[j],
        ) by {
            assert(text_at_most(s[i], s[j]));
        }
        lemma_without_echoes(less);
        let p = without_echoes(less);
        assert forall|t: Seq<char>| #[trigger] s.contains(t) == (less.contains(t) || t == x) by {
            if less.contains(t) {
                let k = choose|k: int| 0 <= k < less.len() && less[k] == t;
                assert(s[k] == t);
            }
            if t == x {
                assert(s[s.len() - 1] == t);
            }
            if s.contains(t) && t != x {
                let k = choose|k: int| 0 <= k < s.len() && s[k] == t;
                assert(less[k] == t);
            }
        }
        if s.len() > 1 && s[s.len() - 2] == x {
            assert(less.last() == x);
            assert(less.contains(x));
        } else {
            assert forall|t: Seq<char>| #[trigger] r.contains(t) == (p.contains(t) || t == x) by {
                if p.contains(t) {
                    let k = choose|k: int| 0 <= k < p.len() && p[k] == t;
                    assert(r[k] == t);
                }
                if t == x {
                    assert(r[p.len() as int] == t);
                }
                if r.contains(t) && t != x {
                    let k = choose|k: int| 0 <= k < r.len() && r[k] == t;
                    assert(p[k] == t);
                }
            }
            assert forall|a: int, b: int| 0 <= a < b < r.len() implies text_at_most(
                #[trigger] r[a],
                #[trigger] r[b],
            ) && r[a] != r[b] by {
                if b < p.len() {
                    assert(p[a] == r[a] && p[b] == r[b]);
                } else {
                    assert(p[a] == r[a] && r[b] == x);
                    assert(p.contains(p[a]));
                    let last = p.last();
                    assert(last == s[s.len() - 2]);
                    assert(text_at_most(s[s.len() - 2], s[s.len() - 1]));
                    if a < p.len() - 1 {
                        assert(text_at_most(p[a], p[p.len() - 1]) && p[a] != p[p.len() - 1]);
                        bytes_transitive(
                            vstd::utf8::encode_utf8(p[a]),
                            vstd::utf8::encode_utf8(last),
                            vstd::utf8::encode_utf8(x),
                        );
                        if p[a] == x {
                            text_antisymmetric(p[a], last);
                        }
                    }
                }
            }
        }
    }
}

/// What a sorted set holds: the given texts, each once, in string order.
pub proof fn sorted_set_is_sorted(v: Seq<Seq<char>>)
    requires
        v.len() <= usize::MAX,
    ensures
        increasing(sorted_set(v)),
        forall|t: Seq<char>| #[trigger] sorted_set(v).contains(t) == v.contains(t),
{
    text_le_is_total();
    stable_order_sorts(text_le(), v);
    let order = text_order(v);
    let s = arranged(v, order);
    assert forall|i: int, j: int| 0 <= i < j < s.len() implies text_at_most(
        #[trigger] s[i],
        #[trigger] s[j],
    ) by {
        assert(stable_before(text_le(), v, order[i] as int, order[j] as int));
    }
    lemma_without_echoes(s);
    assert forall|t: Seq<char>| #[trigger] s.contains(t) == v.contains(t) by {
        if v.contains(t) {
            let p = choose|p: int| 0 <= p < v.len() && v[p] == t;
            assert(lists(order, p));
            let i = choose|i: int| 0 <= i < order.len() && order[i] == p;
            assert(s[i] == t);
        }
        if s.contains(t) {
            let i = choose|i: int| 0 <= i < s.len() && s[i] == t;
            assert(v[order[i] as int] == t);
        }
    }
}

/// Arranging items by an order that lists each position once keeps the items:
/// all of them, and none twice that was there once.
pub proof fn arranging_keeps_items<A>(items: Seq<A>, order: Seq<usize>)
    requires
        order.len() == items.len(),
        forall|i: int| 0 <= i < order.len() ==> (#[trigger] order[i]) < items.len(),
        forall|i: int, j: int|
            0 <= i < j < order.len() ==> (#[trigger] order[i]) != (#[trigger] order[j]),
        forall|p: int| 0 <= p < items.len() ==> #[trigger] lists(order, p),
    ensures
        arranged(items, order).len() == items.len(),
        forall|x: A| #[trigger] arranged(items, order).contains(x) <==> items.contains(x),
        items.no_duplicates() ==> arranged(items, order).no_duplicates(),
{
    let out = arranged(items, order);
    assert forall|x: A| #[trigger] out.contains(x) <==> items.contains(x) by {
        if out.contains(x) {
            let i = choose|i: int| 0 <= i < out.len() && out[i] == x;
            assert(items[order[i] as int] == x);
        }
        if items.contains(x) {
            let p = choose|p: int| 0 <= p < items.len() && items[p] == x;
            assert(lists(order, p));
            let i = choose|i: int| 0 <= i < order.len() && order[i] == p;
            assert(out[i] == x);
        }
    }
    if items.no_duplicates() {
        assert forall|i: int, j: int| 0 <= i < out.len() && 0 <= j < out.len() && i != j implies
            out[i] != out[j] by {
            if i < j {
                assert(order[i] != order[j]);
            } else {
                assert(order[j] != order[i]);
            }
        }
    }
}

/// The same for an order that sorts.
pub proof fn sorting_keeps_items<A, K>(
    items: Seq<A>,
    keys: Seq<K>,
    le: spec_fn(K, K) -> bool,
)
    requires
        total_preorder(le),
        keys.len() == items.len() <= usize::MAX,
    ensures
        arranged(items, stable_order(le, keys)).len() == items.len(),
        forall|x: A| #[trigger]
            arranged(items, stable_order(le, keys)).contains(x) <==> items.contains(x),
        items.no_duplicates() ==> arranged(items, stable_order(le, keys)).no_duplicates(),
{
    let order = stable_order(le, keys);
    stable_order_sorts(le, keys);
    assert forall|i: int, j: int| 0 <= i < j < order.len() implies (#[trigger] order[i]) != (
    #[trigger] order[j]) by {
        assert(stable_before(le, keys, order[i] as int, order[j] as int));
    }
    assert forall|i: int| 0 <= i < order.len() implies (#[trigger] order[i]) < items.len() by {
        assert(order[i] < keys.len());
    }
    assert forall|p: int| 0 <= p < items.len() implies #[trigger] lists(order, p) by {
        assert(lists(order, p));
    }
    arranging_keeps_items(items, order);
}

} // verus!
