//! Fractions as pairs of unsigned integers, the mediant and product of two
//! fractions, and descent through the Stern-Brocot tree.

use vstd::prelude::*;

verus! {

/// A fraction read as a pair of naturals: numerator, denominator.
pub open spec fn frac_view(f: (u64, u64)) -> (nat, nat) {
    (f.0 as nat, f.1 as nat)
}

/// Component-wise sum of two fractions.
pub open spec fn mediant_of(a: (nat, nat), b: (nat, nat)) -> (nat, nat) {
    (a.0 + b.0, a.1 + b.1)
}

/// Component-wise product of two fractions.
pub open spec fn product_of(a: (nat, nat), b: (nat, nat)) -> (nat, nat) {
    (a.0 * b.0, a.1 * b.1)
}

/// The lower and upper bound reached after following `bits` from the root,
/// where the root's bounds are 0/1 and 1/0 and a `true` bit keeps the lower
/// bound while a `false` bit keeps the upper one.
pub open spec fn sb_bounds(bits: Seq<bool>) -> ((nat, nat), (nat, nat))
    decreases bits.len(),
{
    if bits.len() == 0 {
        ((0, 1), (1, 0))
    } else {
        let (low, high) = sb_bounds(bits.drop_last());
        let med = mediant_of(low, high);
        if bits.last() {
            (low, med)
        } else {
            (med, high)
        }
    }
}

/// The node of the Stern-Brocot tree that `bits` leads to.
pub open spec fn sb_resolve(bits: Seq<bool>) -> (nat, nat) {
    mediant_of(sb_bounds(bits).0, sb_bounds(bits).1)
}

/// `a < b` as rationals, compared by cross-multiplication, where a zero
/// denominator stands for infinity.
pub open spec fn frac_lt(a: (nat, nat), b: (nat, nat)) -> bool {
    a.0 * b.1 < b.0 * a.1
}

/// `a <= b` as rationals, compared by cross-multiplication.
pub open spec fn frac_le(a: (nat, nat), b: (nat, nat)) -> bool {
    a.0 * b.1 <= b.0 * a.1
}

/// No integer above one divides both numerator and denominator.
pub open spec fn coprime(f: (nat, nat)) -> bool {
    forall|d: nat| #![trigger f.0 % d, f.1 % d] d > 0 && f.0 % d == 0 && f.1 % d == 0 ==> d == 1
}

/// Fibonacci numbers, counted from `a` and `b`, `n` steps on.
pub open spec fn fib_from(a: nat, b: nat, n: nat) -> nat
    decreases n,
{
    if n == 0 {
        a
    } else {
        fib_from(b, a + b, (n - 1) as nat)
    }
}

/// The `n`-th Fibonacci number: 0, 1, 1, 2, 3, 5, ...
pub open spec fn fib(n: int) -> nat {
    fib_from(0, 1, n as nat)
}

/// The longest path whose node still fits in `u64` components.
pub const MAX_DEPTH: usize = 91;

proof fn lemma_fib_from_step(a: nat, b: nat, n: nat)
    ensures
        fib_from(a, b, n + 2) == fib_from(a, b, n + 1) + fib_from(a, b, n),
    decreases n,
{
    if n > 0 {
        lemma_fib_from_step(b, a + b, (n - 1) as nat);
        assert(fib_from(a, b, n + 2) == fib_from(b, a + b, n + 1));
        assert(fib_from(a, b, n + 1) == fib_from(b, a + b, n));
        assert(fib_from(a, b, n) == fib_from(b, a + b, (n - 1) as nat));
    } else {
        assert(fib_from(b, a + b, 1) == fib_from(a + b, a + 2 * b, 0));
        assert(fib_from(a, b, 1) == fib_from(b, a + b, 0));
    }
}

proof fn lemma_fib_step(n: int)
    requires
        n >= 0,
    ensures
        fib(n + 2) == fib(n + 1) + fib(n),
{
    lemma_fib_from_step(0, 1, n as nat);
}

proof fn lemma_fib_monotone(m: int, n: int)
    requires
        0 <= m <= n,
    ensures
        fib(m) <= fib(n),
    decreases n - m,
{
    if m < n {
        lemma_fib_monotone(m, n - 1);
        if n >= 2 {
            lemma_fib_step(n - 2);
        } else {
            assert(fib_from(0, 1, 1) == fib_from(1, 1, 0));
        }
    }
}

proof fn lemma_fib_fits(n: int)
    requires
        0 <= n <= MAX_DEPTH + 2,
    ensures
        fib(n) <= u64::MAX,
{
    reveal_with_fuel(fib_from, 11);
    assert(fib_from(0, 1, 93) == fib_from(55, 89, 83));
    assert(fib_from(55, 89, 83) == fib_from(6765, 10946, 73));
    assert(fib_from(6765, 10946, 73) == fib_from(832040, 1346269, 63));
    assert(fib_from(832040, 1346269, 63) == fib_from(102334155, 165580141, 53));
    assert(fib_from(102334155, 165580141, 53) == fib_from(12586269025, 20365011074, 43));
    assert(fib_from(12586269025, 20365011074, 43) == fib_from(1548008755920, 2504730781961, 33));
    assert(fib_from(1548008755920, 2504730781961, 33) == fib_from(190392490709135, 308061521170129, 23));
    assert(fib_from(190392490709135, 308061521170129, 23) == fib_from(23416728348467685, 37889062373143906, 13));
    assert(fib_from(23416728348467685, 37889062373143906, 13) == fib_from(2880067194370816120, 4660046610375530309, 3));
    assert(fib_from(2880067194370816120, 4660046610375530309, 3) == fib_from(12200160415121876738, 19740274219868223167, 0));
    assert(fib(93) == 12200160415121876738);
    lemma_fib_monotone(n, 93);
}

/// The mediant of two fractions.
pub fn median(f0: (u64, u64), f1: (u64, u64)) -> (r: (u64, u64))
    requires
        f0.0 + f1.0 <= u64::MAX,
        f0.1 + f1.1 <= u64::MAX,
    ensures
        frac_view(r) == mediant_of(frac_view(f0), frac_view(f1)),
{
    (f0.0 + f1.0, f0.1 + f1.1)
}

/// The product of two fractions, numerator by numerator and denominator by
/// denominator; the result is not reduced.
pub fn multiply(f0: (u64, u64), f1: (u64, u64)) -> (r: (u64, u64))
    requires
        f0.0 * f1.0 <= u64::MAX,
        f0.1 * f1.1 <= u64::MAX,
    ensures
        frac_view(r) == product_of(frac_view(f0), frac_view(f1)),
{
    (f0.0 * f1.0, f0.1 * f1.1)
}

/// Marches through the Stern-Brocot tree, taking each bit of `vec` in turn:
/// `true` descends towards the smaller values, `false` towards the larger.
pub fn iterate_on_sb_tree(vec: &Vec<bool>) -> (r: (u64, u64))
    requires
        vec@.len() <= MAX_DEPTH,
    ensures
        frac_view(r) == sb_resolve(vec@),
{
    let mut low: (u64, u64) = (0, 1);
    let mut high: (u64, u64) = (1, 0);
    let mut med = median(low, high);
    let mut i: usize = 0;
    proof {
        reveal_with_fuel(fib_from, 3);
    }
    while i < vec.len()
        invariant
            i <= vec@.len() <= MAX_DEPTH,
            (frac_view(low), frac_view(high)) == sb_bounds(vec@.subrange(0, i as int)),
            frac_view(med) == mediant_of(frac_view(low), frac_view(high)),
            low.0 <= fib(i + 1),
            high.0 <= fib(i + 1),
            low.0 + high.0 <= fib(i + 2),
            low.1 <= fib(i + 1),
            high.1 <= fib(i + 1),
            low.1 + high.1 <= fib(i + 2),
        decreases vec@.len() - i,
    {
        let b = vec[i];
        proof {
            lemma_fib_step(i + 1);
            lemma_fib_monotone(i + 1, i + 2);
            lemma_fib_fits(i + 3);
            assert(vec@.subrange(0, i + 1).drop_last() =~= vec@.subrange(0, i as int));
        }
        if b {
            high = med;
        } else {
            low = med;
        }
        med = median(low, high);
        i = i + 1;
    }
    assert(vec@.subrange(0, i as int) =~= vec@);
    med
}

/// Along every path the upper and lower bound are neighbours in the tree:
/// `high.0 * low.1 - low.0 * high.1 == 1`.
pub proof fn lemma_bounds_adjacent(bits: Seq<bool>)
    ensures
        sb_bounds(bits).1.0 * sb_bounds(bits).0.1 == sb_bounds(bits).0.0 * sb_bounds(bits).1.1 + 1,
    decreases bits.len(),
{
    if bits.len() > 0 {
        lemma_bounds_adjacent(bits.drop_last());
        let (l, h) = sb_bounds(bits.drop_last());
        assert((l.0 + h.0) * l.1 == l.0 * l.1 + h.0 * l.1) by (nonlinear_arith);
        assert(l.0 * (l.1 + h.1) == l.0 * l.1 + l.0 * h.1) by (nonlinear_arith);
        assert(h.0 * (l.1 + h.1) == h.0 * l.1 + h.0 * h.1) by (nonlinear_arith);
        assert((l.0 + h.0) * h.1 == l.0 * h.1 + h.0 * h.1) by (nonlinear_arith);
    }
}

/// The node reached by any path is in lowest terms, and both its numerator
/// and denominator are positive.
pub proof fn lemma_resolve_coprime(bits: Seq<bool>)
    ensures
        coprime(sb_resolve(bits)),
        sb_resolve(bits).0 > 0,
        sb_resolve(bits).1 > 0,
{
    lemma_bounds_adjacent(bits);
    let (l, h) = sb_bounds(bits);
    let m = sb_resolve(bits);
    assert(m.0 * l.1 == l.0 * m.1 + 1) by (nonlinear_arith)
        requires
            m == mediant_of(l, h),
            h.0 * l.1 == l.0 * h.1 + 1,
    ;
    assert forall|d: nat| #![trigger m.0 % d, m.1 % d] d > 0 && m.0 % d == 0 && m.1 % d == 0 implies d == 1 by {
        let x = m.0 / d;
        let y = m.1 / d;
        vstd::arithmetic::div_mod::lemma_fundamental_div_mod(m.0 as int, d as int);
        vstd::arithmetic::div_mod::lemma_fundamental_div_mod(m.1 as int, d as int);
        assert(d * (x * l.1 - l.0 * y) == 1) by (nonlinear_arith)
            requires
                m.0 == d * x,
                m.1 == d * y,
                m.0 * l.1 == l.0 * m.1 + 1,
        ;
        let k = x * l.1 - l.0 * y;
        if k <= 0 {
            assert(d * k <= 0) by (nonlinear_arith)
                requires
                    d > 0,
                    k <= 0,
            ;
        } else {
            assert(d * k >= d) by (nonlinear_arith)
                requires
                    d > 0,
                    k >= 1,
            ;
        }
    }
    assert(m.0 > 0 && m.1 > 0) by (nonlinear_arith)
        requires
            m.0 * l.1 == l.0 * m.1 + 1,
            m == mediant_of(l, h),
    ;
}

/// Each further bit narrows the enclosing interval: the new bounds lie within
/// the old ones, one of them strictly, and the new node lies strictly between
/// the new bounds. The numerator and denominator together grow.
pub proof fn lemma_refinement(v: Seq<bool>, b: bool)
    ensures
        frac_le(sb_bounds(v).0, sb_bounds(v.push(b)).0),
        frac_le(sb_bounds(v.push(b)).1, sb_bounds(v).1),
        frac_lt(sb_bounds(v).0, sb_bounds(v.push(b)).0) || frac_lt(
            sb_bounds(v.push(b)).1,
            sb_bounds(v).1,
        ),
        frac_lt(sb_bounds(v.push(b)).0, sb_resolve(v.push(b))),
        frac_lt(sb_resolve(v.push(b)), sb_bounds(v.push(b)).1),
        sb_resolve(v.push(b)).0 + sb_resolve(v.push(b)).1 > sb_resolve(v).0 + sb_resolve(v).1,
{
    let w = v.push(b);
    assert(w.drop_last() =~= v);
    lemma_bounds_adjacent(v);
    lemma_bounds_adjacent(w);
    lemma_resolve_coprime(v);
    let (l, h) = sb_bounds(v);
    let m = mediant_of(l, h);
    assert(l.0 * (l.1 + h.1) < (l.0 + h.0) * l.1) by (nonlinear_arith)
        requires
            h.0 * l.1 == l.0 * h.1 + 1,
    ;
    assert((l.0 + h.0) * h.1 < h.0 * (l.1 + h.1)) by (nonlinear_arith)
        requires
            h.0 * l.1 == l.0 * h.1 + 1,
    ;
    assert(l.0 * l.1 <= l.0 * l.1 && h.0 * h.1 <= h.0 * h.1);
    let (l2, h2) = sb_bounds(w);
    let m2 = mediant_of(l2, h2);
    assert(l2.0 * (l2.1 + h2.1) < (l2.0 + h2.0) * l2.1) by (nonlinear_arith)
        requires
            h2.0 * l2.1 == l2.0 * h2.1 + 1,
    ;
    assert((l2.0 + h2.0) * h2.1 < h2.0 * (l2.1 + h2.1)) by (nonlinear_arith)
        requires
            h2.0 * l2.1 == l2.0 * h2.1 + 1,
    ;
}

/// The product of fractions is commutative and associative.
pub proof fn lemma_product_commutative_associative(a: (nat, nat), b: (nat, nat), c: (nat, nat))
    ensures
        product_of(a, b) == product_of(b, a),
        product_of(product_of(a, b), c) == product_of(a, product_of(b, c)),
{
    assert(a.0 * b.0 == b.0 * a.0 && a.1 * b.1 == b.1 * a.1) by (nonlinear_arith);
    assert((a.0 * b.0) * c.0 == a.0 * (b.0 * c.0)) by (nonlinear_arith);
    assert((a.1 * b.1) * c.1 == a.1 * (b.1 * c.1)) by (nonlinear_arith);
}

} // verus!
