//! Sorting pairs of texts.

use vstd::prelude::*;

use crate::order::{
    arranged, bytes_total, bytes_transitive, key_le, sort_order, sorting_keeps_items, stable_before,
    stable_order, stable_order_is_unique, stable_order_sorts, stable_sorted, str_no_later,
    text_antisymmetric, text_at_most, total_preorder, SortKey,
};
use crate::text::same;

verus! {

/// Two texts.
pub type PairView = (Seq<char>, Seq<char>);

pub open spec fn pair_views(v: Seq<(String, String)>) -> Seq<PairView> {
    v.map_values(|p: (String, String)| (p.0@, p.1@))
}

/// Pairs are ordered by their first text, then by their second.
pub open spec fn pair_at_most(a: PairView, b: PairView) -> bool {
    (text_at_most(a.0, b.0) && a.0 != b.0) || (a.0 == b.0 && text_at_most(a.1, b.1))
}

pub open spec fn pair_le() -> spec_fn(PairView, PairView) -> bool {
    |a: PairView, b: PairView| pair_at_most(a, b)
}

/// The pairs in order.
pub open spec fn pairs_sorted(v: Seq<PairView>) -> Seq<PairView> {
    arranged(v, stable_order(pair_le(), v))
}

/// A list without the entries that equal the one before them.
pub open spec fn without_doubles(v: Seq<PairView>) -> Seq<PairView>
    decreases v.len(),
{
    if v.len() == 0 {
        Seq::empty()
    } else if v.len() > 1 && v[v.len() - 2] == v.last() {
        without_doubles(v.drop_last())
    } else {
        without_doubles(v.drop_last()).push(v.last())
    }
}

proof fn lemma_pair_total(a: PairView, b: PairView)
    ensures
        pair_at_most(a, b) || pair_at_most(b, a),
{
    bytes_total(vstd::utf8::encode_utf8(a.0), vstd::utf8::encode_utf8(b.0));
    bytes_total(vstd::utf8::encode_utf8(a.1), vstd::utf8::encode_utf8(b.1));
}

proof fn lemma_pair_transitive(a: PairView, b: PairView, c: PairView)
    requires
        pair_at_most(a, b),
        pair_at_most(b, c),
    ensures
        pair_at_most(a, c),
{
    if a.0 == b.0 && b.0 == c.0 {
        bytes_transitive(
            vstd::utf8::encode_utf8(a.1),
            vstd::utf8::encode_utf8(b.1),
            vstd::utf8::encode_utf8(c.1),
        );
    } else if a.0 != b.0 && b.0 != c.0 {
        bytes_transitive(
            vstd::utf8::encode_utf8(a.0),
            vstd::utf8::encode_utf8(b.0),
            vstd::utf8::encode_utf8(c.0),
        );
        if a.0 == c.0 {
            text_antisymmetric(a.0, b.0);
        }
    }
}

proof fn lemma_pair_le_total()
    ensures
        total_preorder(pair_le()),
{
    let le = pair_le();
    assert forall|a: PairView, b: PairView| #[trigger] le(a, b) || le(b, a) by {
        lemma_pair_total(a, b);
    }
    assert forall|a: PairView, b: PairView, c: PairView| #[trigger] le(a, b) && #[trigger] le(
        b,
        c,
    ) implies le(a, c) by {
        lemma_pair_transitive(a, b, c);
    }
}

struct PairKey {
    first: String,
    second: String,
}

impl SortKey for PairKey {
    closed spec fn at_most(&self, other: &Self) -> bool {
        pair_at_most((self.first@, self.second@), (other.first@, other.second@))
    }

    proof fn at_most_total(&self, other: &Self) {
        lemma_pair_total((self.first@, self.second@), (other.first@, other.second@));
    }

    proof fn at_most_transitive(&self, mid: &Self, other: &Self) {
        lemma_pair_transitive(
            (self.first@, self.second@),
            (mid.first@, mid.second@),
            (other.first@, other.second@),
        );
    }

    fn no_later(&self, other: &Self) -> (r: bool) {
        if same(self.first.as_str(), other.first.as_str()) {
            str_no_later(self.second.as_str(), other.second.as_str())
        } else {
            str_no_later(self.first.as_str(), other.first.as_str())
        }
    }
}

/// Sort pairs by their first text, then by their second.
pub fn sort_pairs(v: &Vec<(String, String)>) -> (r: Vec<(String, String)>)
    ensures
        pair_views(r@) == pairs_sorted(pair_views(v@)),
        r.len() == v.len(),
{
    let ghost pv = pair_views(v@);
    let n: usize = v.len();
    let mut keys: Vec<PairKey> = Vec::new();
    let mut i: usize = 0;
    while i < n
        invariant
            i <= n == v.len(),
            keys.len() == i,
            forall|k: int|
                0 <= k < i ==> (#[trigger] keys@[k]).first@ == v@[k].0@ && keys@[k].second@
                    == v@[k].1@,
        decreases n - i,
    {
        keys.push(PairKey { first: v[i].0.clone(), second: v[i].1.clone() });
        i += 1;
    }
    let order: Vec<usize> = sort_order(&keys);
    proof {
        assert(pv.len() == n);
        assert forall|a: int, b: int| 0 <= a < b < order@.len() implies stable_before(
            pair_le(),
            pv,
            #[trigger] order@[a] as int,
            #[trigger] order@[b] as int,
        ) by {
            assert(stable_before(key_le::<PairKey>(), keys@, order@[a] as int, order@[b] as int));
        }
        assert(stable_sorted(pair_le(), pv, order@));
        lemma_pair_le_total();
        stable_order_sorts(pair_le(), pv);
        stable_order_is_unique(pair_le(), pv, order@, stable_order(pair_le(), pv));
    }
    let mut r: Vec<(String, String)> = Vec::new();
    let mut j: usize = 0;
    let m: usize = order.len();
    while j < m
        invariant
            j <= m == order.len(),
            n == v.len(),
            r.len() == j,
            forall|k: int| 0 <= k < order.len() ==> (#[trigger] order@[k]) < n,
            forall|k: int|
                0 <= k < j ==> (#[trigger] r@[k]).0@ == v@[order@[k] as int].0@ && r@[k].1@
                    == v@[order@[k] as int].1@,
        decreases m - j,
    {
        let p: usize = order[j];
        r.push((v[p].0.clone(), v[p].1.clone()));
        j += 1;
    }
    assert(pair_views(r@) =~= pairs_sorted(pv));
    r
}

/// Leave out the entries that equal the one before them.
pub fn drop_doubles(v: &Vec<(String, String)>) -> (r: Vec<(String, String)>)
    ensures
        pair_views(r@) == without_doubles(pair_views(v@)),
        r.len() == without_doubles(pair_views(v@)).len(),
{
    let ghost pv = pair_views(v@);
    let mut r: Vec<(String, String)> = Vec::new();
    let mut i: usize = 0;
    assert(pv.take(0) =~= Seq::empty());
    assert(pair_views(r@) =~= Seq::empty());
    while i < v.len()
        invariant
            i <= v.len(),
            pv == pair_views(v@),
            pair_views(r@) == without_doubles(pv.take(i as int)),
        decreases v.len() - i,
    {
        proof {
            let t = pv.take(i + 1);
            assert(t.drop_last() =~= pv.take(i as int));
            assert(t.last() == (v@[i as int].0@, v@[i as int].1@));
            if i > 0 {
                assert(t[t.len() - 2] == (v@[i - 1].0@, v@[i - 1].1@));
            }
        }
        let double: bool = i > 0 && same(v[i - 1].0.as_str(), v[i].0.as_str()) && same(
            v[i - 1].1.as_str(),
            v[i].1.as_str(),
        );
        if !double {
            let ghost r0 = pair_views(r@);
            r.push((v[i].0.clone(), v[i].1.clone()));
            assert(pair_views(r@) =~= r0.push((v@[i as int].0@, v@[i as int].1@)));
        }
        i += 1;
    }
    assert(pv.take(i as int) =~= pv);
    assert(pair_views(r@).len() == r@.len());
    r
}

/// Sorting pairs and leaving repeats out keeps each pair, once.
pub proof fn sorted_pairs_are_the_pairs(v: Seq<PairView>)
    requires
        v.len() <= usize::MAX,
    ensures
        pairs_sorted(v).len() == v.len(),
        forall|x: PairView| #[trigger] pairs_sorted(v).contains(x) <==> v.contains(x),
        forall|x: PairView| #[trigger] without_doubles(pairs_sorted(v)).contains(x) <==> v.contains(x),
        without_doubles(pairs_sorted(v)).no_duplicates(),
        forall|i: int, j: int|
            0 <= i < j < v.len() ==> pair_at_most(
                #[trigger] pairs_sorted(v)[i],
                #[trigger] pairs_sorted(v)[j],
            ),
{
    lemma_pair_le_total();
    sorting_keeps_items(v, v, pair_le());
    stable_order_sorts(pair_le(), v);
    let s = pairs_sorted(v);
    let order = stable_order(pair_le(), v);
    assert forall|i: int, j: int| 0 <= i < j < v.len() implies pair_at_most(
        #[trigger] s[i],
        #[trigger] s[j],
    ) by {
        assert(stable_before(pair_le(), v, order[i] as int, order[j] as int));
    }
    lemma_without_doubles(s);
}

proof fn lemma_without_doubles(s: Seq<PairView>)
    requires
        forall|i: int, j: int|
            0 <= i < j < s.len() ==> pair_at_most(#[trigger] s[i], #[trigger] s[j]),
    ensures
        forall|x: PairView| #[trigger] without_doubles(s).contains(x) <==> s.contains(x),
        without_doubles(s).no_duplicates(),
        s.len() > 0 ==> without_doubles(s).len() > 0 && without_doubles(s).last() == s.last(),
    decreases s.len(),
{
    if s.len() > 0 {
        let less = s.drop_last();
        assert forall|i: int, j: int| 0 <= i < j < less.len() implies pair_at_most(
            #[trigger] less[i],
            #[trigger] less[j],
        ) by {
            assert(pair_at_most(s[i], s[j]));
        }
        lemma_without_doubles(less);
        let rest = without_doubles(less);
        let out = without_doubles(s);
        let y = s.last();
        let again = s.len() > 1 && s[s.len() - 2] == y;
        assert forall|x: PairView| s.contains(x) <==> less.contains(x) || x == y by {
            if s.contains(x) {
                let i = choose|i: int| 0 <= i < s.len() && s[i] == x;
                if i < less.len() {
                    assert(less[i] == x);
                }
            }
            if less.contains(x) {
                let i = choose|i: int| 0 <= i < less.len() && less[i] == x;
                assert(s[i] == x);
            }
            assert(s[s.len() - 1] == y);
        }
        if again {
            assert(less[less.len() - 1] == y);
        } else {
            assert(out == rest.push(y));
            assert(out[rest.len() as int] == y);
            assert forall|x: PairView| #[trigger] out.contains(x) <==> s.contains(x) by {
                if rest.contains(x) {
                    let i = choose|i: int| 0 <= i < rest.len() && rest[i] == x;
                    assert(out[i] == x);
                }
                if out.contains(x) && x != y {
                    let i = choose|i: int| 0 <= i < out.len() && out[i] == x;
                    assert(rest[i] == x);
                }
                assert(rest.contains(x) <==> less.contains(x));
            }
            assert(!less.contains(y)) by {
                if less.contains(y) {
                    let i = choose|i: int| 0 <= i < less.len() && less[i] == y;
                    let k = s.len() - 2;
                    assert(s[i] == y);
                    assert(pair_at_most(s[k], s[k + 1]));
                    if i < k {
                        assert(pair_at_most(s[i], s[k]));
                    }
                    lemma_pair_antisymmetric(s[k], y);
                }
            }
            assert(!rest.contains(y));
            assert forall|i: int, j: int| 0 <= i < out.len() && 0 <= j < out.len() && i != j implies
                out[i] != out[j] by {
                if i < rest.len() && j < rest.len() {
                    assert(rest[i] != rest[j]);
                } else if i < rest.len() {
                    assert(rest.contains(rest[i]));
                } else {
                    assert(rest.contains(rest[j]));
                }
            }
        }
    }
}

proof fn lemma_pair_antisymmetric(a: PairView, b: PairView)
    requires
        pair_at_most(a, b),
        pair_at_most(b, a),
    ensures
        a == b,
{
    if a.0 == b.0 {
        text_antisymmetric(a.1, b.1);
    } else {
        text_antisymmetric(a.0, b.0);
    }
}

} // verus!
