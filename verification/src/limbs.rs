//! Natural numbers as little-endian limbs in a chosen base.

use vstd::prelude::*;

use crate::number::{digit_char, digits};

verus! {

/// `base` to the `e`.
pub open spec fn power(base: nat, e: nat) -> nat
    decreases e,
{
    if e == 0 {
        1
    } else {
        base * power(base, (e - 1) as nat)
    }
}

/// The number that little-endian limbs stand for.
pub open spec fn limb_value(d: Seq<u32>, base: nat) -> nat
    decreases d.len(),
{
    if d.len() == 0 {
        0
    } else {
        limb_value(d.drop_last(), base) + d.last() as nat * power(base, (d.len() - 1) as nat)
    }
}

/// Every limb is below the base.
pub open spec fn limbs_below(d: Seq<u32>, base: nat) -> bool {
    forall|i: int| 0 <= i < d.len() ==> (#[trigger] d[i]) < base
}

/// In range, and without leading zero limbs (zero has no limbs at all).
pub open spec fn canonical(d: Seq<u32>, base: nat) -> bool {
    limbs_below(d, base) && (d.len() > 0 ==> d.last() != 0)
}

proof fn lemma_power_positive(base: nat, e: nat)
    requires
        base > 0,
    ensures
        power(base, e) > 0,
    decreases e,
{
    if e > 0 {
        lemma_power_positive(base, (e - 1) as nat);
        let p = power(base, (e - 1) as nat);
        assert(base * p > 0) by (nonlinear_arith)
            requires
                base > 0,
                p > 0,
        ;
    }
}

/// The value of `n` limbs is below `base` to the `n`.
proof fn lemma_value_bound(d: Seq<u32>, base: nat)
    requires
        base > 0,
        limbs_below(d, base),
    ensures
        limb_value(d, base) < power(base, d.len()),
    decreases d.len(),
{
    if d.len() > 0 {
        let less = d.drop_last();
        assert forall|i: int| 0 <= i < less.len() implies (#[trigger] less[i]) < base by {
            assert(d[i] < base);
        }
        lemma_value_bound(less, base);
        let p = power(base, less.len());
        let v = limb_value(less, base);
        let top = d.last() as nat;
        assert(d[d.len() - 1] < base);
        assert(v + top * p < base * p) by (nonlinear_arith)
            requires
                v < p,
                top < base,
        ;
        assert(power(base, d.len()) == base * p);
    }
}

proof fn lemma_same_length_unique(a: Seq<u32>, b: Seq<u32>, base: nat)
    requires
        base > 0,
        limbs_below(a, base),
        limbs_below(b, base),
        a.len() == b.len(),
        limb_value(a, base) == limb_value(b, base),
    ensures
        a == b,
    decreases a.len(),
{
    if a.len() > 0 {
        let x = a.drop_last();
        let y = b.drop_last();
        assert forall|i: int| 0 <= i < x.len() implies (#[trigger] x[i]) < base by {
            assert(a[i] < base);
        }
        assert forall|i: int| 0 <= i < y.len() implies (#[trigger] y[i]) < base by {
            assert(b[i] < base);
        }
        lemma_value_bound(x, base);
        lemma_value_bound(y, base);
        let p = power(base, x.len()) as int;
        let vx = limb_value(x, base) as int;
        let vy = limb_value(y, base) as int;
        let ta = a.last() as int;
        let tb = b.last() as int;
        assert(ta == tb) by (nonlinear_arith)
            requires
                0 <= vx < p,
                0 <= vy < p,
                vx + ta * p == vy + tb * p,
        ;
        assert(vx == vy);
        lemma_same_length_unique(x, y, base);
        assert(a =~= x.push(a.last()));
        assert(b =~= y.push(b.last()));
    } else {
        assert(a =~= b);
    }
}

proof fn lemma_power_grows(base: nat, a: nat, b: nat)
    requires
        base > 0,
        a <= b,
    ensures
        power(base, a) <= power(base, b),
    decreases b - a,
{
    if a < b {
        lemma_power_grows(base, a, (b - 1) as nat);
        lemma_power_positive(base, (b - 1) as nat);
        let p = power(base, (b - 1) as nat);
        assert(base * p >= p) by (nonlinear_arith)
            requires
                base > 0,
                p > 0,
        ;
    }
}

proof fn lemma_canonical_floor(d: Seq<u32>, base: nat)
    requires
        base > 0,
        canonical(d, base),
        d.len() > 0,
    ensures
        limb_value(d, base) >= power(base, (d.len() - 1) as nat),
{
    let p = power(base, (d.len() - 1) as nat);
    let top = d.last() as nat;
    assert(top * p >= p) by (nonlinear_arith)
        requires
            top >= 1,
    ;
}

/// Two canonical limb lists with the same value are the same list.
pub proof fn canonical_is_unique(a: Seq<u32>, b: Seq<u32>, base: nat)
    requires
        base > 0,
        canonical(a, base),
        canonical(b, base),
        limb_value(a, base) == limb_value(b, base),
    ensures
        a == b,
{
    lemma_value_bound(a, base);
    lemma_value_bound(b, base);
    if a.len() < b.len() {
        lemma_canonical_floor(b, base);
        lemma_power_grows(base, a.len(), (b.len() - 1) as nat);
    } else if b.len() < a.len() {
        lemma_canonical_floor(a, base);
        lemma_power_grows(base, b.len(), (a.len() - 1) as nat);
    } else {
        lemma_same_length_unique(a, b, base);
    }
}

/// The lowest limb splits off.
proof fn lemma_low_limb(d: Seq<u32>, base: nat)
    requires
        d.len() > 0,
    ensures
        limb_value(d, base) == d[0] as nat + base * limb_value(d.drop_first(), base),
    decreases d.len(),
{
    if d.len() == 1 {
        assert(d.drop_last() =~= Seq::empty());
        assert(d.drop_first() =~= Seq::empty());
        assert(limb_value(d.drop_last(), base) == 0);
        assert(limb_value(d.drop_first(), base) == 0);
        assert(power(base, 0) == 1);
        assert(base * 0 == 0) by (nonlinear_arith);
        assert(d[0] as nat * 1 == d[0] as nat);
    } else {
        lemma_low_limb(d.drop_last(), base);
        let rest = d.drop_first();
        assert(rest.drop_last() =~= d.drop_last().drop_first());
        let p = power(base, (d.len() - 2) as nat);
        let top = d.last() as nat;
        let low = limb_value(rest.drop_last(), base);
        assert(power(base, (d.len() - 1) as nat) == base * p);
        assert(top * (base * p) == base * (top * p)) by (nonlinear_arith);
        assert(base * (low + top * p) == base * low + base * (top * p)) by (nonlinear_arith);
    }
}

/// The digits of a number are its limbs in that base, highest first.
pub proof fn limbs_spell_digits(d: Seq<u32>, base: nat)
    requires
        2 <= base <= 16,
        canonical(d, base),
        d.len() > 0,
    ensures
        digits(limb_value(d, base), base) == Seq::new(
            d.len(),
            |i: int| digit_char(d[d.len() - 1 - i] as nat),
        ),
    decreases d.len(),
{
    lemma_low_limb(d, base);
    let n = limb_value(d, base);
    let text = Seq::new(d.len(), |i: int| digit_char(d[d.len() - 1 - i] as nat));
    assert(d[0] < base);
    let rest = d.drop_first();
    if d.len() == 1 {
        assert(rest =~= Seq::empty());
        assert(limb_value(rest, base) == 0);
        assert(base * 0 == 0) by (nonlinear_arith);
        assert(digits(n, base) =~= text);
    } else {
        assert forall|i: int| 0 <= i < rest.len() implies (#[trigger] rest[i]) < base by {
            assert(d[i + 1] < base);
        }
        assert(rest.last() == d.last());
        limbs_spell_digits(rest, base);
        lemma_canonical_floor(rest, base);
        lemma_power_positive(base, (rest.len() - 1) as nat);
        let q = limb_value(rest, base);
        let low = d[0] as nat;
        assert(n >= base && n / base == q && n % base == low) by (nonlinear_arith)
            requires
                n == low + base * q,
                low < base,
                q >= 1,
                base >= 2,
        ;
        let more = Seq::new(rest.len(), |i: int| digit_char(rest[rest.len() - 1 - i] as nat));
        assert(digits(n, base) == digits(q, base).push(digit_char(low)));
        assert(digits(q, base) == more);
        assert(more.push(digit_char(low)) =~= text);
    }
}

/// Replace the number in `limbs` by `mul` times it plus `add`.
pub fn mul_add(limbs: &mut Vec<u32>, base: u64, mul: u32, add: u32)
    requires
        2 <= base <= 0x1_0000_0000,
        mul > 0,
        canonical(old(limbs)@, base as nat),
    ensures
        canonical(final(limbs)@, base as nat),
        limb_value(final(limbs)@, base as nat) == mul as nat * limb_value(
            old(limbs)@,
            base as nat,
        ) + add as nat,
{
    let ghost start = limbs@;
    let ghost b = base as nat;
    let n: usize = limbs.len();
    let mut carry: u64 = add as u64;
    let mut i: usize = 0;
    proof {
        assert(start.take(0) =~= Seq::empty());
        assert(limb_value(start.take(0), b) == 0);
        assert(mul as nat * 0 == 0) by (nonlinear_arith);
        assert(power(b, 0) == 1);
        assert(1 * (carry as nat) == carry as nat);
    }
    while i < n
        invariant
            i <= n == limbs.len() == start.len(),
            b == base as nat,
            2 <= base <= 0x1_0000_0000,
            mul > 0,
            limbs_below(start, b),
            start.len() > 0 ==> start.last() != 0,
            carry <= 0xffff_ffff,
            forall|k: int| i <= k < n ==> limbs@[k] == start[k],
            forall|k: int| 0 <= k < i ==> (#[trigger] limbs@[k]) < b,
            limb_value(limbs@.take(i as int), b) + power(b, i as nat) * carry as nat == mul as nat
                * limb_value(start.take(i as int), b) + add as nat,
            i == n && n > 0 && carry == 0 ==> limbs@[n - 1] != 0,
        decreases n - i,
    {
        let limb: u64 = limbs[i] as u64;
        proof {
            assert(start[i as int] < b);
            assert(limb * mul + carry <= 0xffff_fffe_0000_0001 + 0xffff_ffff && limb * mul <= 0xffff_fffe_0000_0001)
                by (nonlinear_arith)
                requires
                    limb <= 0xffff_ffff,
                    mul <= 0xffff_ffff,
                    carry <= 0xffff_ffff,
            ;
        }
        let v: u64 = limb * (mul as u64) + carry;
        let low: u64 = v % base;
        let next: u64 = v / base;
        proof {
            assert(next <= 0xffff_ffff) by (nonlinear_arith)
                requires
                    next == v / base,
                    v == limb * mul + carry,
                    limb < base,
                    limb >= 0,
                    base >= 2,
                    mul <= 0xffff_ffff,
                    carry <= 0xffff_ffff,
            ;
            assert(v == low + base * next && low < base) by (nonlinear_arith)
                requires
                    low == v % base,
                    next == v / base,
                    base >= 2,
            ;
        }
        let ghost before = limbs@;
        limbs.set(i, low as u32);
        proof {
            let p = power(b, i as nat);
            assert(power(b, (i + 1) as nat) == b * p);
            let done = limbs@.take(i + 1);
            assert(done.drop_last() =~= before.take(i as int));
            assert(done.last() == low as u32);
            assert(start.take(i + 1).drop_last() =~= start.take(i as int));
            let x = limb_value(before.take(i as int), b) as int;
            let y = limb_value(start.take(i as int), b) as int;
            let c = carry as int;
            let nx = next as int;
            let lo = low as int;
            let li = limb as int;
            let m = mul as int;
            let pi = p as int;
            let bi = b as int;
            let ad = add as int;
            assert((x + lo * pi) + (bi * pi) * nx == m * (y + li * pi) + ad) by (nonlinear_arith)
                requires
                    x + pi * c == m * y + ad,
                    li * m + c == lo + bi * nx,
            ;
            assert(limb_value(done, b) == x + lo * pi);
            assert(limb_value(start.take(i + 1), b) == y + li * pi);
            if i + 1 == n && next == 0 {
                assert(start.last() == start[i as int]);
                assert(low >= 1) by (nonlinear_arith)
                    requires
                        limb * mul + carry == low + base * next,
                        next == 0,
                        limb >= 1,
                        mul >= 1,
                        carry >= 0,
                ;
            }
        }
        carry = next;
        i += 1;
    }
    assert(limbs@.take(n as int) =~= limbs@);
    assert(start.take(n as int) =~= start);
    while carry > 0
        invariant
            b == base as nat,
            2 <= base <= 0x1_0000_0000,
            limbs_below(limbs@, b),
            carry == 0 && limbs.len() > 0 ==> limbs@.last() != 0,
            limb_value(limbs@, b) + power(b, limbs@.len()) * carry as nat == mul as nat * limb_value(
                start,
                b,
            ) + add as nat,
        decreases carry,
    {
        let low: u64 = carry % base;
        let next: u64 = carry / base;
        proof {
            assert(carry == low + base * next && low < base && next < carry) by (nonlinear_arith)
                requires
                    low == carry % base,
                    next == carry / base,
                    base >= 2,
                    carry > 0,
            ;
        }
        let ghost before = limbs@;
        limbs.push(low as u32);
        proof {
            let p = power(b, before.len()) as int;
            assert(power(b, limbs@.len()) == b * power(b, before.len()));
            assert(limbs@.drop_last() =~= before);
            let x = limb_value(before, b) as int;
            let lo = low as int;
            let nx = next as int;
            let bi = b as int;
            let c = carry as int;
            assert((x + lo * p) + (bi * p) * nx == x + p * c) by (nonlinear_arith)
                requires
                    c == lo + bi * nx,
            ;
            if next == 0 {
                assert(base * next == 0) by (nonlinear_arith)
                    requires
                        next == 0,
                ;
            }
        }
        carry = next;
    }
    proof {
        assert(power(b, limbs@.len()) * 0 == 0) by (nonlinear_arith);
    }
}

} // verus!
