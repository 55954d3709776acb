//! Finite integer sums, used to reason about products as plain sums before reducing them.
use crate::coefficients::MODULUS;
use vstd::arithmetic::div_mod::lemma_add_mod_noop;
use vstd::prelude::*;

verus! {

/// `f(lo) + f(lo + 1) + ... + f(hi - 1)`.
pub open spec fn sum(f: spec_fn(int) -> int, lo: int, hi: int) -> int
    decreases hi - lo,
{
    if lo >= hi {
        0
    } else {
        sum(f, lo, hi - 1) + f(hi - 1)
    }
}

/// Sums of functions that agree on the range are equal.
pub proof fn lemma_sum_ext(f: spec_fn(int) -> int, g: spec_fn(int) -> int, lo: int, hi: int)
    requires
        forall|i: int| lo <= i < hi ==> #[trigger] f(i) == g(i),
    ensures
        sum(f, lo, hi) == sum(g, lo, hi),
    decreases hi - lo,
{
    if lo < hi {
        lemma_sum_ext(f, g, lo, hi - 1);
    }
}

/// The first term can be split off.
pub proof fn lemma_sum_first(f: spec_fn(int) -> int, lo: int, hi: int)
    requires
        lo < hi,
    ensures
        sum(f, lo, hi) == f(lo) + sum(f, lo + 1, hi),
    decreases hi - lo,
{
    if lo < hi - 1 {
        lemma_sum_first(f, lo, hi - 1);
    } else {
        assert(sum(f, lo, lo) == 0);
        assert(sum(f, lo + 1, hi) == 0);
    }
}

/// A sum over one index is that term.
pub proof fn lemma_sum_one(f: spec_fn(int) -> int, lo: int)
    ensures
        sum(f, lo, lo + 1) == f(lo),
{
    assert(sum(f, lo, lo) == 0);
}

/// The sum of pointwise sums is the sum of the sums.
pub proof fn lemma_sum_add(f: spec_fn(int) -> int, g: spec_fn(int) -> int, h: spec_fn(int) -> int, lo: int, hi: int)
    requires
        forall|i: int| lo <= i < hi ==> #[trigger] h(i) == f(i) + g(i),
    ensures
        sum(h, lo, hi) == sum(f, lo, hi) + sum(g, lo, hi),
    decreases hi - lo,
{
    if lo < hi {
        lemma_sum_add(f, g, h, lo, hi - 1);
    }
}

/// A constant factor comes out of a sum.
pub proof fn lemma_sum_mul(f: spec_fn(int) -> int, g: spec_fn(int) -> int, c: int, lo: int, hi: int)
    requires
        forall|i: int| lo <= i < hi ==> #[trigger] g(i) == f(i) * c,
    ensures
        sum(g, lo, hi) == sum(f, lo, hi) * c,
    decreases hi - lo,
{
    if lo < hi {
        lemma_sum_mul(f, g, c, lo, hi - 1);
        assert((sum(f, lo, hi - 1) + f(hi - 1)) * c == sum(f, lo, hi - 1) * c + f(hi - 1) * c) by (nonlinear_arith);
    }
}

/// Sums of terms that agree modulo `MODULUS` agree modulo `MODULUS`.
pub proof fn lemma_sum_mod(f: spec_fn(int) -> int, g: spec_fn(int) -> int, lo: int, hi: int)
    requires
        forall|i: int| lo <= i < hi ==> #[trigger] f(i) % (MODULUS as int) == g(i) % (MODULUS as int),
    ensures
        sum(f, lo, hi) % (MODULUS as int) == sum(g, lo, hi) % (MODULUS as int),
    decreases hi - lo,
{
    let m = MODULUS as int;
    if lo < hi {
        lemma_sum_mod(f, g, lo, hi - 1);
        lemma_add_mod_noop(sum(f, lo, hi - 1), f(hi - 1), m);
        lemma_add_mod_noop(sum(g, lo, hi - 1), g(hi - 1), m);
    }
}

/// A sum of zeros is zero.
pub proof fn lemma_sum_zero(f: spec_fn(int) -> int, lo: int, hi: int)
    requires
        forall|i: int| lo <= i < hi ==> #[trigger] f(i) == 0,
    ensures
        sum(f, lo, hi) == 0,
    decreases hi - lo,
{
    if lo < hi {
        lemma_sum_zero(f, lo, hi - 1);
    }
}

/// Summing `g(a, b)` over `a + b <= d` by the total `a + b` or by `a` gives the same result.
pub proof fn lemma_sum_triangle(g: spec_fn(int, int) -> int, d: int)
    requires
        d >= 0,
    ensures
        sum(|e: int| sum(|a: int| g(a, e - a), 0, e + 1), 0, d + 1)
            == sum(|a: int| sum(|b: int| g(a, b), 0, d - a + 1), 0, d + 1),
    decreases d,
{
    let by_total = |e: int| sum(|a: int| g(a, e - a), 0, e + 1);
    let by_first = |dd: int| (|a: int| sum(|b: int| g(a, b), 0, dd - a + 1));
    let diag = |a: int| g(a, d - a);
    if d == 0 {
        lemma_sum_one(by_total, 0);
        lemma_sum_one(by_first(0), 0);
        lemma_sum_one(|b: int| g(0, b), 0);
        lemma_sum_one(|a: int| g(a, 0 - a), 0);
    } else {
        lemma_sum_triangle(g, d - 1);
        // by_first(d)(a) == by_first(d - 1)(a) + diag(a) for a < d, and by_first(d)(d) == diag(d).
        assert forall|a: int| 0 <= a < d implies #[trigger] by_first(d)(a) == by_first(d - 1)(a) + diag(a) by {
            assert(sum(|b: int| g(a, b), 0, d - a + 1) == sum(|b: int| g(a, b), 0, d - a) + g(a, d - a));
            assert(sum(|b: int| g(a, b), 0, (d - 1) - a + 1) == sum(|b: int| g(a, b), 0, d - a));
        }
        let shifted = |a: int| by_first(d - 1)(a) + diag(a);
        lemma_sum_ext(by_first(d), shifted, 0, d);
        lemma_sum_add(by_first(d - 1), diag, shifted, 0, d);
        assert(by_first(d)(d) == sum(|b: int| g(d, b), 0, 1));
        lemma_sum_one(|b: int| g(d, b), 0);
        assert(sum(by_first(d), 0, d + 1) == sum(by_first(d), 0, d) + by_first(d)(d));
        assert(sum(diag, 0, d + 1) == sum(diag, 0, d) + g(d, 0));
        assert(by_total(d) == sum(|a: int| g(a, d - a), 0, d + 1));
        lemma_sum_ext(|a: int| g(a, d - a), diag, 0, d + 1);
        assert(sum(by_total, 0, d + 1) == sum(by_total, 0, d) + by_total(d));
        lemma_sum_ext(by_first(d - 1), |a: int| sum(|b: int| g(a, b), 0, (d - 1) - a + 1), 0, d);
    }
}

} // verus!
