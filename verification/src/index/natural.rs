//! Natural numbers of any size, as little-endian 32-bit limbs: just enough arithmetic
//! (scaling by a machine word, addition, comparison) to compare sums of fractions exactly.
use vstd::prelude::*;

verus! {

/// The weight of limb `n`: 2^(32 n).
pub open spec fn limb_weight(n: nat) -> nat
    decreases n,
{
    if n == 0 {
        1
    } else {
        0x1_0000_0000 * limb_weight((n - 1) as nat)
    }
}

/// The number that little-endian limbs stand for.
pub open spec fn limbs_value(s: Seq<u32>) -> nat
    decreases s.len(),
{
    if s.len() == 0 {
        0
    } else {
        limbs_value(s.drop_last()) + (s.last() as nat) * limb_weight((s.len() - 1) as nat)
    }
}

proof fn lemma_limb_weight_positive(n: nat)
    ensures
        limb_weight(n) >= 1,
    decreases n,
{
    if n > 0 {
        lemma_limb_weight_positive((n - 1) as nat);
    }
}

proof fn lemma_push_value(s: Seq<u32>, x: u32)
    ensures
        limbs_value(s.push(x)) == limbs_value(s) + x * limb_weight(s.len()),
{
    assert(s.push(x).drop_last() =~= s);
}

/// A number of `n` limbs is below the weight of limb `n`.
proof fn lemma_value_bound(s: Seq<u32>)
    ensures
        limbs_value(s) < limb_weight(s.len()),
    decreases s.len(),
{
    if s.len() > 0 {
        let n = (s.len() - 1) as nat;
        lemma_value_bound(s.drop_last());
        let v = limbs_value(s.drop_last());
        let w = limb_weight(n);
        let x = s.last() as int;
        assert(v + x * w < 0x1_0000_0000 * w) by (nonlinear_arith)
            requires
                v < w,
                0 <= x < 0x1_0000_0000,
        ;
    }
}

proof fn lemma_take_push(s: Seq<u32>, i: int)
    requires
        0 <= i < s.len(),
    ensures
        s.take(i + 1) == s.take(i).push(s[i]),
        limbs_value(s.take(i + 1)) == limbs_value(s.take(i)) + s[i] * limb_weight(i as nat),
{
    assert(s.take(i + 1) =~= s.take(i).push(s[i]));
    lemma_push_value(s.take(i), s[i]);
}

proof fn lemma_scale_step(vr: int, vs: int, carry: int, w: int, x: int, m: int, lo: int, hi: int)
    by (nonlinear_arith)
    requires
        vr + carry * w == vs * m,
        lo + hi * 0x1_0000_0000 == x * m + carry,
    ensures
        vr + lo * w + hi * (0x1_0000_0000 * w) == (vs + x * w) * m,
{
}

proof fn lemma_carry_step(vr: int, carry: int, w: int, lo: int, hi: int)
    by (nonlinear_arith)
    requires
        lo + hi * 0x1_0000_0000 == carry,
    ensures
        vr + lo * w + hi * (0x1_0000_0000 * w) == vr + carry * w,
{
}

proof fn lemma_sum_step(vr: int, carry: int, w: int, a: int, b: int, lo: int, hi: int)
    by (nonlinear_arith)
    requires
        lo + hi * 0x1_0000_0000 == a + b + carry,
    ensures
        vr + lo * w + hi * (0x1_0000_0000 * w) == vr + carry * w + a * w + b * w,
{
}

/// `s` with zero limbs added on top until it has `n` limbs; the number is the same.
pub fn padded(s: &Vec<u32>, n: usize) -> (r: Vec<u32>)
    ensures
        r@.len() == if s@.len() >= n { s@.len() } else { n as nat },
        limbs_value(r@) == limbs_value(s@),
{
    let mut r = s.clone();
    assert(r@ =~= s@);
    while r.len() < n
        invariant
            r@.len() >= s@.len(),
            r@.len() <= n || r@.len() == s@.len(),
            limbs_value(r@) == limbs_value(s@),
        decreases n - r@.len(),
    {
        proof {
            lemma_push_value(r@, 0);
        }
        r.push(0);
    }
    r
}

/// The number `m` as limbs.
pub fn from_word(m: u128) -> (r: Vec<u32>)
    ensures
        limbs_value(r@) == m,
{
    let mut r: Vec<u32> = Vec::new();
    let mut carry: u128 = m;
    assert(limbs_value(r@) == 0 && limb_weight(0) == 1);
    while carry > 0
        invariant
            limbs_value(r@) + carry * limb_weight(r@.len()) == m,
        decreases carry,
    {
        let lo = (carry % 0x1_0000_0000) as u32;
        let hi = carry / 0x1_0000_0000;
        proof {
            lemma_push_value(r@, lo);
            lemma_carry_step(limbs_value(r@) as int, carry as int, limb_weight(r@.len()) as int, lo as int, hi as int);
        }
        r.push(lo);
        carry = hi;
    }
    r
}

/// `s` times `m`.
pub fn scaled(s: &Vec<u32>, m: u128) -> (r: Vec<u32>)
    requires
        m < 0x1_0000_0000_0000_0000_0000_0000,
    ensures
        limbs_value(r@) == limbs_value(s@) * m,
{
    let mut r: Vec<u32> = Vec::new();
    let mut carry: u128 = 0;
    let mut i: usize = 0;
    assert(s@.take(0) =~= Seq::<u32>::empty());
    assert(limbs_value(r@) == 0);
    while i < s.len()
        invariant
            i <= s@.len(),
            r@.len() == i,
            carry <= m,
            m < 0x1_0000_0000_0000_0000_0000_0000,
            limbs_value(r@) + carry * limb_weight(i as nat) == limbs_value(s@.take(i as int)) * m,
        decreases s@.len() - i,
    {
        let x = s[i];
        assert(x as int * m as int + carry as int <= 0x1_0000_0000 * m as int) by (nonlinear_arith)
            requires
                0 <= x < 0x1_0000_0000,
                carry <= m,
        ;
        let t: u128 = x as u128 * m + carry;
        let lo = (t % 0x1_0000_0000) as u32;
        let hi = t / 0x1_0000_0000;
        assert(hi <= m) by (nonlinear_arith)
            requires
                hi == t / 0x1_0000_0000,
                t <= 0x1_0000_0000 * m,
        ;
        proof {
            lemma_take_push(s@, i as int);
            lemma_push_value(r@, lo);
            lemma_scale_step(
                limbs_value(r@) as int,
                limbs_value(s@.take(i as int)) as int,
                carry as int,
                limb_weight(i as nat) as int,
                x as int,
                m as int,
                lo as int,
                hi as int,
            );
        }
        r.push(lo);
        carry = hi;
        i = i + 1;
    }
    assert(s@.take(s@.len() as int) =~= s@);
    while carry > 0
        invariant
            limbs_value(r@) + carry * limb_weight(r@.len()) == limbs_value(s@) * m,
        decreases carry,
    {
        let lo = (carry % 0x1_0000_0000) as u32;
        let hi = carry / 0x1_0000_0000;
        proof {
            lemma_push_value(r@, lo);
            lemma_carry_step(limbs_value(r@) as int, carry as int, limb_weight(r@.len()) as int, lo as int, hi as int);
        }
        r.push(lo);
        carry = hi;
    }
    r
}

/// `a` plus `b`.
pub fn sum(a: &Vec<u32>, b: &Vec<u32>) -> (r: Vec<u32>)
    ensures
        limbs_value(r@) == limbs_value(a@) + limbs_value(b@),
{
    let n = if a.len() >= b.len() { a.len() } else { b.len() };
    let x = padded(a, n);
    let y = padded(b, n);
    let mut r: Vec<u32> = Vec::new();
    let mut carry: u64 = 0;
    let mut i: usize = 0;
    assert(x@.take(0) =~= Seq::<u32>::empty());
    assert(y@.take(0) =~= Seq::<u32>::empty());
    assert(limbs_value(r@) == 0);
    while i < n
        invariant
            x@.len() == n,
            y@.len() == n,
            i <= n,
            r@.len() == i,
            carry <= 1,
            limbs_value(r@) + carry * limb_weight(i as nat) == limbs_value(x@.take(i as int))
                + limbs_value(y@.take(i as int)),
        decreases n - i,
    {
        let t: u64 = x[i] as u64 + y[i] as u64 + carry;
        let lo = (t % 0x1_0000_0000) as u32;
        let hi = t / 0x1_0000_0000;
        proof {
            lemma_take_push(x@, i as int);
            lemma_take_push(y@, i as int);
            lemma_push_value(r@, lo);
            assert(lo + hi * 0x1_0000_0000 == t);
            lemma_sum_step(
                limbs_value(r@) as int,
                carry as int,
                limb_weight(i as nat) as int,
                x@[i as int] as int,
                y@[i as int] as int,
                lo as int,
                hi as int,
            );
        }
        r.push(lo);
        carry = hi;
        i = i + 1;
    }
    assert(x@.take(n as int) =~= x@);
    assert(y@.take(n as int) =~= y@);
    if carry > 0 {
        proof {
            lemma_push_value(r@, 1);
        }
        r.push(1);
    }
    r
}

/// How two numbers compare.
#[derive(Clone, Copy, Debug, PartialEq, Eq, Structural)]
pub enum Comparison {
    Less,
    Equal,
    Greater,
}

/// How `a` compares with `b`.
pub fn compare(a: &Vec<u32>, b: &Vec<u32>) -> (r: Comparison)
    ensures
        r == Comparison::Less <==> limbs_value(a@) < limbs_value(b@),
        r == Comparison::Equal <==> limbs_value(a@) == limbs_value(b@),
        r == Comparison::Greater <==> limbs_value(a@) > limbs_value(b@),
{
    let n = if a.len() >= b.len() { a.len() } else { b.len() };
    let x = padded(a, n);
    let y = padded(b, n);
    let mut i: usize = n;
    assert(x@.take(n as int) =~= x@);
    assert(y@.take(n as int) =~= y@);
    while i > 0
        invariant
            x@.len() == n,
            y@.len() == n,
            i <= n,
            limbs_value(x@) == limbs_value(a@),
            limbs_value(y@) == limbs_value(b@),
            limbs_value(x@) - limbs_value(y@) == limbs_value(x@.take(i as int)) - limbs_value(
                y@.take(i as int),
            ),
        decreases i,
    {
        let k = i - 1;
        proof {
            lemma_take_push(x@, k as int);
            lemma_take_push(y@, k as int);
            lemma_value_bound(x@.take(k as int));
            lemma_value_bound(y@.take(k as int));
        }
        let ghost vx = limbs_value(x@.take(k as int)) as int;
        let ghost vy = limbs_value(y@.take(k as int)) as int;
        let ghost w = limb_weight(k as nat) as int;
        if x[k] < y[k] {
            assert(vx + x@[k as int] * w < vy + y@[k as int] * w) by (nonlinear_arith)
                requires
                    0 <= vx < w,
                    0 <= vy,
                    x@[k as int] < y@[k as int],
            ;
            return Comparison::Less;
        }
        if x[k] > y[k] {
            assert(vx + x@[k as int] * w > vy + y@[k as int] * w) by (nonlinear_arith)
                requires
                    0 <= vy < w,
                    0 <= vx,
                    x@[k as int] > y@[k as int],
            ;
            return Comparison::Greater;
        }
        i = k;
    }
    Comparison::Equal
}

} // verus!
