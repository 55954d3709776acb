//! Algebraic laws of the truncated product, stated over the specifications that the
//! operations' contracts use.
use crate::algebra::{accumulate_spec, block_term, commutator_spec, conv, conv_from, lemma_conv_from_reduced, product_degree, Transform};
use crate::coefficients::{fadd, fmul, fneg, MODULUS};
use crate::free_tensor::unit_spec;
use crate::dense_vector::{coeff, lemma_vector_degree, neg_spec, reduced, vector_degree};
use crate::sums::{lemma_sum_first, lemma_sum_mod, lemma_sum_mul, lemma_sum_triangle, lemma_sum_zero, sum};
use crate::tensor_basis::{index_degree, lemma_index_degree_exists, lemma_start_of_degree_monotone, start_of_degree_spec};
use vstd::arithmetic::div_mod::{
    lemma_add_mod_noop, lemma_add_mod_noop_right, lemma_div_denominator, lemma_fundamental_div_mod_converse,
    lemma_mod_bound, lemma_mod_breakdown, lemma_mod_mod, lemma_mul_mod_noop_general, lemma_small_mod,
    lemma_sub_mod_noop_right,
};
use vstd::arithmetic::power::{pow, lemma_pow_adds, lemma_pow_positive};
use vstd::prelude::*;

verus! {

/// A sum of terms of which only the one at left degree `d0` can be nonzero is that term.
proof fn lemma_conv_from_single(t: Transform, x: Seq<int>, y: Seq<int>, n: int, d: nat, j: int, k: nat, d0: nat)
    requires
        d0 <= d,
        forall|i: nat| k <= i <= d && i != d0 ==> #[trigger] block_term(t, x, y, n, d, i, j) == 0,
    ensures
        conv_from(t, x, y, n, d, j, k) == if k <= d0 { block_term(t, x, y, n, d, d0, j) } else { 0 },
    decreases d + 1 - k,
{
    if k <= d {
        lemma_conv_from_single(t, x, y, n, d, j, k + 1, d0);
        let a = block_term(t, x, y, n, d, k, j);
        let rest = conv_from(t, x, y, n, d, j, k + 1);
        lemma_conv_from_reduced(t, x, y, n, d, j, k + 1);
        t.lemma_apply(fmul(coeff(x, start_of_degree_spec(n, k) + j / pow(n, (d - k) as nat)),
            coeff(y, start_of_degree_spec(n, (d - k) as nat) + j % pow(n, (d - k) as nat))));
        if k == d0 {
            lemma_small_mod(a as nat, MODULUS as nat);
        } else {
            lemma_small_mod(rest as nat, MODULUS as nat);
        }
    }
}

/// With the negating transform every sum of terms is the negation of the plain one.
proof fn lemma_conv_from_negate(x: Seq<int>, y: Seq<int>, n: int, d: nat, j: int, k: nat)
    ensures
        conv_from(Transform::Negate, x, y, n, d, j, k) == fneg(conv_from(Transform::Identity, x, y, n, d, j, k)),
    decreases d + 1 - k,
{
    let m = MODULUS as int;
    if k <= d {
        lemma_conv_from_negate(x, y, n, d, j, k + 1);
        let p = pow(n, (d - k) as nat);
        let prod = fmul(coeff(x, start_of_degree_spec(n, k) + j / p), coeff(y, start_of_degree_spec(n, (d - k) as nat) + j % p));
        let rest = conv_from(Transform::Identity, x, y, n, d, j, k + 1);
        lemma_mod_bound(prod, m);
        lemma_small_mod(prod as nat, m as nat);
        assert(block_term(Transform::Identity, x, y, n, d, k, j) == prod);
        assert(block_term(Transform::Negate, x, y, n, d, k, j) == fneg(prod));
        lemma_add_mod_noop_right(-prod, -rest, m);
        vstd::arithmetic::div_mod::lemma_add_mod_noop(-prod, -rest, m);
        lemma_sub_mod_noop_right(0, prod + rest, m);
        assert(fneg(prod) + fneg(rest) == (-prod) % m + (-rest) % m);
        assert((-prod) % m + (-rest) % m == ((-prod) % m + (-rest) % m));
        assert(((-prod) % m + (-rest) % m) % m == (-prod - rest) % m);
        assert((0 - (prod + rest) % m) % m == (0 - (prod + rest)) % m);
    }
}

/// There are at least `m` words of length below `m`.
proof fn lemma_start_of_degree_at_least(n: int, m: nat)
    requires
        n >= 1,
    ensures
        start_of_degree_spec(n, m) >= m,
    decreases m,
{
    if m > 0 {
        lemma_start_of_degree_at_least(n, (m - 1) as nat);
        lemma_pow_positive(n, (m - 1) as nat);
    }
}

/// `a + (-b)` and `-(b + (-a))` agree in the field.
proof fn lemma_difference_negates(a: int, b: int)
    ensures
        fadd(a, fneg(b)) == fneg(fadd(b, fneg(a))),
{
    let m = MODULUS as int;
    lemma_add_mod_noop_right(a, -b, m);
    lemma_add_mod_noop_right(b, -a, m);
    lemma_sub_mod_noop_right(0, b - a, m);
    assert((a + (-b) % m) % m == (a - b) % m);
    assert((b + (-a) % m) % m == (b - a) % m);
    assert((0 - (b - a) % m) % m == (0 - (b - a)) % m);
}

/// The commutator is antisymmetric: `[x, y] == -[y, x]`, coefficient by coefficient, at every
/// truncation degree.
pub proof fn lemma_commutator_antisymmetric(x: Seq<int>, y: Seq<int>, n: int, to_degree: nat)
    requires
        n >= 2,
    ensures
        commutator_spec(x, y, n, to_degree) == neg_spec(commutator_spec(y, x, n, to_degree)),
{
    let md = product_degree(n, x.len(), y.len(), to_degree);
    assert(product_degree(n, y.len(), x.len(), to_degree) == md);
    let top = start_of_degree_spec(n, md + 1);
    lemma_start_of_degree_monotone(n, 0, md + 1);
    let a = accumulate_spec(Transform::Identity, Seq::<int>::empty(), x, y, n, md);
    let b = accumulate_spec(Transform::Identity, Seq::<int>::empty(), y, x, n, md);
    let lhs = commutator_spec(x, y, n, to_degree);
    let rhs = neg_spec(commutator_spec(y, x, n, to_degree));
    assert(lhs.len() == rhs.len());
    assert forall|k: int| 0 <= k < lhs.len() implies #[trigger] lhs[k] == rhs[k] by {
        let d = index_degree(n, k);
        let j = k - start_of_degree_spec(n, d);
        let p = conv(Transform::Identity, x, y, n, d, j);
        let q = conv(Transform::Identity, y, x, n, d, j);
        lemma_conv_from_negate(y, x, n, d, j, 0);
        lemma_conv_from_negate(x, y, n, d, j, 0);
        lemma_conv_from_reduced(Transform::Identity, x, y, n, d, j, 0);
        lemma_conv_from_reduced(Transform::Identity, y, x, n, d, j, 0);
        lemma_small_mod(p as nat, MODULUS as nat);
        lemma_small_mod(q as nat, MODULUS as nat);
        assert(a[k] == p);
        assert(b[k] == q);
        lemma_difference_negates(p, q);
    }
    assert(lhs =~= rhs);
}

/// The plain integer terms of a product at output degree `d`, offset `j`, by left degree.
pub open spec fn raw_terms(x: Seq<int>, y: Seq<int>, n: int, d: int, j: int) -> spec_fn(int) -> int {
    |i: int| coeff(x, start_of_degree_spec(n, i as nat) + j / pow(n, (d - i) as nat))
        * coeff(y, start_of_degree_spec(n, (d - i) as nat) + j % pow(n, (d - i) as nat))
}

/// A product coefficient is the plain sum of its terms, reduced.
proof fn lemma_conv_from_raw(x: Seq<int>, y: Seq<int>, n: int, d: nat, j: int, k: nat)
    requires
        k <= d + 1,
    ensures
        conv_from(Transform::Identity, x, y, n, d, j, k) == sum(raw_terms(x, y, n, d as int, j), k as int, d as int + 1) % (MODULUS as int),
    decreases d + 1 - k,
{
    let m = MODULUS as int;
    let raw = raw_terms(x, y, n, d as int, j);
    if k <= d {
        lemma_conv_from_raw(x, y, n, d, j, k + 1);
        lemma_sum_first(raw, k as int, d as int + 1);
        let p = raw(k as int);
        let rest = sum(raw, k as int + 1, d as int + 1);
        vstd::arithmetic::div_mod::lemma_mod_twice(p, m);
        assert(block_term(Transform::Identity, x, y, n, d, k, j) == p % m);
        lemma_add_mod_noop(p, rest, m);
    } else {
        assert(sum(raw, k as int, d as int + 1) == 0);
    }
}

/// A vector is no longer than the blocks up to its degree.
proof fn lemma_len_below_degree(n: int, s: Seq<int>)
    requires
        n >= 2,
    ensures
        s.len() <= start_of_degree_spec(n, vector_degree(n, s.len()) + 1),
        forall|a: nat, i: int| a > vector_degree(n, s.len()) && i >= 0 ==> #[trigger] coeff(s, start_of_degree_spec(n, a) + i) == 0,
{
    crate::tensor_basis::lemma_start_of_degree_step(n, 0);
    if s.len() > 0 {
        lemma_start_of_degree_at_least(n, s.len() as nat);
        lemma_index_degree_exists(n, s.len() - 1, s.len() as nat);
        lemma_vector_degree(n, s.len() as nat, index_degree(n, s.len() - 1));
    } else {
        assert(start_of_degree_spec(n, 1) == 1);
    }
    let dv = vector_degree(n, s.len());
    assert forall|a: nat, i: int| a > dv && i >= 0 implies #[trigger] coeff(s, start_of_degree_spec(n, a) + i) == 0 by {
        lemma_start_of_degree_monotone(n, dv + 1, a);
    }
}

/// A fresh product `x · y` kept up to degree `md` has length `start_of_degree(md + 1)` and, at
/// every degree `e <= max` and offset `j' < n^e`, the plain sum of its terms, reduced; degrees
/// above the factors' total are zero.
proof fn lemma_product_coeff(x: Seq<int>, y: Seq<int>, n: int, max: nat, e: nat, jj: int)
    requires
        n >= 2,
        e <= max,
        0 <= jj < pow(n, e),
    ensures
        ({
            let md = product_degree(n, x.len(), y.len(), max);
            let p = accumulate_spec(Transform::Identity, Seq::<int>::empty(), x, y, n, md);
            &&& p.len() == start_of_degree_spec(n, md + 1)
            &&& coeff(p, start_of_degree_spec(n, e) + jj) == sum(raw_terms(x, y, n, e as int, jj), 0, e as int + 1) % (MODULUS as int)
        }),
{
    let m = MODULUS as int;
    let md = product_degree(n, x.len(), y.len(), max);
    let p = accumulate_spec(Transform::Identity, Seq::<int>::empty(), x, y, n, md);
    let dx = vector_degree(n, x.len());
    let dy = vector_degree(n, y.len());
    lemma_start_of_degree_monotone(n, 0, md + 1);
    lemma_len_below_degree(n, x);
    lemma_len_below_degree(n, y);
    let pos = start_of_degree_spec(n, e) + jj;
    assert(start_of_degree_spec(n, e + 1) == start_of_degree_spec(n, e) + pow(n, e));
    lemma_start_of_degree_monotone(n, 0, e);
    let raw = raw_terms(x, y, n, e as int, jj);
    if e <= md {
        lemma_start_of_degree_monotone(n, e + 1, md + 1);
        crate::tensor_basis::lemma_index_degree(n, pos, e);
        lemma_conv_from_raw(x, y, n, e, jj, 0);
        let c = conv(Transform::Identity, x, y, n, e, jj);
        lemma_conv_from_reduced(Transform::Identity, x, y, n, e, jj, 0);
        lemma_small_mod(c as nat, m as nat);
        assert(p[pos] == fadd(0, c));
    } else {
        assert(dx + dy < e);
        lemma_start_of_degree_monotone(n, md + 1, e);
        assert forall|a: int| 0 <= a < e + 1 implies #[trigger] raw(a) == 0 by {
            let b = e - a;
            lemma_pow_positive(n, b as nat);
            vstd::arithmetic::div_mod::lemma_div_pos_is_pos(jj, pow(n, b as nat));
            vstd::arithmetic::div_mod::lemma_mod_bound(jj, pow(n, b as nat));
            let cx = coeff(x, start_of_degree_spec(n, a as nat) + jj / pow(n, b as nat));
            let cy = coeff(y, start_of_degree_spec(n, b as nat) + jj % pow(n, b as nat));
            if a > dx {
                assert(cx == 0);
                assert(0 * cy == 0);
            } else {
                assert(b > dy);
                assert(cy == 0);
                assert(cx * 0 == 0);
            }
        }
        lemma_sum_zero(raw, 0, e as int + 1);
    }
}

/// `(j mod P·Q) / P == (j / P) mod Q`.
proof fn lemma_div_of_mod(j: int, p: int, q: int)
    requires
        j >= 0,
        p > 0,
        q > 0,
    ensures
        (j % (p * q)) / p == (j / p) % q,
{
    lemma_mod_breakdown(j, p, q);
    lemma_mod_bound(j, p);
    lemma_mod_bound(j / p, q);
    assert(j % (p * q) == ((j / p) % q) * p + j % p) by (nonlinear_arith)
        requires
            j % (p * q) == p * ((j / p) % q) + j % p,
    ;
    lemma_fundamental_div_mod_converse(j % (p * q), p, (j / p) % q, j % p);
}

/// The product is associative: `(x · y) · z` and `x · (y · z)`, each product kept up to
/// degree `to_degree`, are the same vector.
pub proof fn lemma_product_associative(x: Seq<int>, y: Seq<int>, z: Seq<int>, n: int, to_degree: nat)
    requires
        n >= 2,
    ensures
        ({
            let xy = accumulate_spec(Transform::Identity, Seq::<int>::empty(), x, y, n, product_degree(n, x.len(), y.len(), to_degree));
            let yz = accumulate_spec(Transform::Identity, Seq::<int>::empty(), y, z, n, product_degree(n, y.len(), z.len(), to_degree));
            accumulate_spec(Transform::Identity, Seq::<int>::empty(), xy, z, n, product_degree(n, xy.len(), z.len(), to_degree))
                == accumulate_spec(Transform::Identity, Seq::<int>::empty(), x, yz, n, product_degree(n, x.len(), yz.len(), to_degree))
        }),
{
    let m = MODULUS as int;
    let dmax = to_degree;
    let ma = product_degree(n, x.len(), y.len(), dmax);
    let mb = product_degree(n, y.len(), z.len(), dmax);
    let xy = accumulate_spec(Transform::Identity, Seq::<int>::empty(), x, y, n, ma);
    let yz = accumulate_spec(Transform::Identity, Seq::<int>::empty(), y, z, n, mb);
    lemma_start_of_degree_monotone(n, 0, ma + 1);
    lemma_start_of_degree_monotone(n, 0, mb + 1);
    lemma_start_of_degree_monotone(n, ma, ma + 1);
    lemma_start_of_degree_monotone(n, mb, mb + 1);
    lemma_pow_positive(n, ma);
    lemma_pow_positive(n, mb);
    assert(start_of_degree_spec(n, ma + 1) == start_of_degree_spec(n, ma) + pow(n, ma));
    assert(start_of_degree_spec(n, mb + 1) == start_of_degree_spec(n, mb) + pow(n, mb));
    lemma_vector_degree(n, xy.len(), ma);
    lemma_vector_degree(n, yz.len(), mb);
    let ml = product_degree(n, xy.len(), z.len(), dmax);
    let mr = product_degree(n, x.len(), yz.len(), dmax);
    assert(ml == mr);
    let left = accumulate_spec(Transform::Identity, Seq::<int>::empty(), xy, z, n, ml);
    let right = accumulate_spec(Transform::Identity, Seq::<int>::empty(), x, yz, n, ml);
    let top = start_of_degree_spec(n, ml + 1);
    lemma_start_of_degree_monotone(n, 0, ml + 1);
    assert forall|k: int| 0 <= k < left.len() implies #[trigger] left[k] == right[k] by {
        lemma_index_degree_exists(n, k, ml + 1);
        let d = index_degree(n, k);
        let j = k - start_of_degree_spec(n, d);
        lemma_pow_positive(n, d);
        assert(start_of_degree_spec(n, d + 1) == start_of_degree_spec(n, d) + pow(n, d));
        assert(0 <= j < pow(n, d));
        let g = |a: int, b: int|
            coeff(x, start_of_degree_spec(n, a as nat) + j / pow(n, (d - a) as nat))
            * coeff(y, start_of_degree_spec(n, b as nat) + (j / pow(n, (d - a - b) as nat)) % pow(n, b as nat))
            * coeff(z, start_of_degree_spec(n, (d - a - b) as nat) + j % pow(n, (d - a - b) as nat));
        let raw_l = raw_terms(xy, z, n, d as int, j);
        let raw_r = raw_terms(x, yz, n, d as int, j);
        let by_total = |e: int| sum(|a: int| g(a, e - a), 0, e + 1);
        let by_first = |a: int| sum(|b: int| g(a, b), 0, d - a + 1);
        assert forall|e: int| 0 <= e < d + 1 implies #[trigger] raw_l(e) % m == by_total(e) % m by {
            let c = (d - e) as nat;
            let pc = pow(n, c);
            lemma_pow_positive(n, c);
            lemma_pow_positive(n, e as nat);
            lemma_pow_adds(n, e as nat, c);
            assert(pow(n, d) == pow(n, e as nat) * pc);
            let je = j / pc;
            vstd::arithmetic::div_mod::lemma_div_pos_is_pos(j, pc);
            vstd::arithmetic::div_mod::lemma_multiply_divide_lt(j, pc, pow(n, e as nat));
            assert(j < pc * pow(n, e as nat));
            lemma_product_coeff(x, y, n, dmax, e as nat, je);
            let zc = coeff(z, start_of_degree_spec(n, c) + j % pc);
            let inner = raw_terms(x, y, n, e, je);
            let s_in = sum(inner, 0, e + 1);
            assert(raw_l(e) == coeff(xy, start_of_degree_spec(n, e as nat) + je) * zc);
            assert(coeff(xy, start_of_degree_spec(n, e as nat) + je) == s_in % m);
            lemma_mul_mod_noop_general(s_in, zc, m);
            let scaled = |a: int| inner(a) * zc;
            lemma_sum_mul(inner, scaled, zc, 0, e + 1);
            assert forall|a: int| 0 <= a < e + 1 implies #[trigger] scaled(a) == g(a, e - a) by {
                let b = (e - a) as nat;
                let pb = pow(n, b);
                lemma_pow_positive(n, b);
                lemma_pow_adds(n, c, b);
                lemma_div_denominator(j, pc, pb);
                assert(pow(n, (d - a) as nat) == pc * pb);
                assert((d - a - (e - a)) as nat == c);
                let cx = coeff(x, start_of_degree_spec(n, a as nat) + j / pow(n, (d - a) as nat));
                let cy = coeff(y, start_of_degree_spec(n, b) + je % pb);
                assert(inner(a) == cx * cy);
                assert((cx * cy) * zc == cx * cy * zc);
            }
            vstd::arithmetic::div_mod::lemma_mod_twice(s_in * zc, m);
            crate::sums::lemma_sum_ext(scaled, |a: int| g(a, e - a), 0, e + 1);
        }
        assert forall|a: int| 0 <= a < d + 1 implies #[trigger] raw_r(a) % m == by_first(a) % m by {
            let r = (d - a) as nat;
            let pr = pow(n, r);
            lemma_pow_positive(n, r);
            vstd::arithmetic::div_mod::lemma_mod_bound(j, pr);
            let ja = j % pr;
            lemma_product_coeff(y, z, n, dmax, r, ja);
            let xc = coeff(x, start_of_degree_spec(n, a as nat) + j / pr);
            let inner = raw_terms(y, z, n, r as int, ja);
            let s_in = sum(inner, 0, r as int + 1);
            assert(raw_r(a) == xc * coeff(yz, start_of_degree_spec(n, r) + ja));
            lemma_mul_mod_noop_general(xc, s_in, m);
            let scaled = |b: int| inner(b) * xc;
            lemma_sum_mul(inner, scaled, xc, 0, r as int + 1);
            assert forall|b: int| 0 <= b < r + 1 implies #[trigger] scaled(b) == g(a, b) by {
                let c = (r - b) as nat;
                let pc = pow(n, c);
                let pb = pow(n, b as nat);
                lemma_pow_positive(n, c);
                lemma_pow_positive(n, b as nat);
                lemma_pow_adds(n, c, b as nat);
                assert(pr == pc * pb);
                lemma_div_of_mod(j, pc, pb);
                lemma_mod_mod(j, pc, pb);
                assert((d - a - b) as nat == c);
                let cy = coeff(y, start_of_degree_spec(n, b as nat) + ja / pc);
                let cz = coeff(z, start_of_degree_spec(n, c) + ja % pc);
                assert(inner(b) == cy * cz);
                assert((cy * cz) * xc == xc * cy * cz) by (nonlinear_arith);
            }
            crate::sums::lemma_sum_ext(scaled, |b: int| g(a, b), 0, r as int + 1);
            assert(s_in * xc == xc * s_in) by (nonlinear_arith);
            vstd::arithmetic::div_mod::lemma_mod_twice(xc * s_in, m);
        }
        lemma_sum_mod(raw_l, by_total, 0, d as int + 1);
        lemma_sum_mod(raw_r, by_first, 0, d as int + 1);
        lemma_sum_triangle(g, d as int);
        crate::sums::lemma_sum_ext(by_total, |e: int| sum(|a: int| g(a, e - a), 0, e + 1), 0, d as int + 1);
        crate::sums::lemma_sum_ext(by_first, |a: int| sum(|b: int| g(a, b), 0, d - a + 1), 0, d as int + 1);
        lemma_conv_from_raw(xy, z, n, d, j, 0);
        lemma_conv_from_raw(x, yz, n, d, j, 0);
        lemma_conv_from_reduced(Transform::Identity, xy, z, n, d, j, 0);
        lemma_conv_from_reduced(Transform::Identity, x, yz, n, d, j, 0);
        let cl = conv(Transform::Identity, xy, z, n, d, j);
        let cr = conv(Transform::Identity, x, yz, n, d, j);
        lemma_small_mod(cl as nat, m as nat);
        lemma_small_mod(cr as nat, m as nat);
        assert(left[k] == fadd(0, cl));
        assert(right[k] == fadd(0, cr));
    }
    assert(left =~= right);
}

/// The unit is a two-sided identity: at any truncation degree at least the degree of `x`, both
/// `x · 1` and `1 · x` have the coefficients of `x` (and zeros past its end).
pub proof fn lemma_unit_identity(x: Seq<int>, n: int, to_degree: nat)
    requires
        n >= 2,
        reduced(x),
        to_degree >= vector_degree(n, x.len()),
    ensures
        forall|i: int| #[trigger] coeff(accumulate_spec(Transform::Identity, Seq::<int>::empty(), x, unit_spec(), n,
            product_degree(n, x.len(), 1, to_degree)), i) == coeff(x, i),
        forall|i: int| #[trigger] coeff(accumulate_spec(Transform::Identity, Seq::<int>::empty(), unit_spec(), x, n,
            product_degree(n, 1, x.len(), to_degree)), i) == coeff(x, i),
{
    let u = unit_spec();
    crate::tensor_basis::lemma_start_of_degree_step(n, 0);
    crate::tensor_basis::lemma_start_of_degree_step(n, 1);
    lemma_vector_degree(n, 1, 0);
    let dx = vector_degree(n, x.len());
    let md = product_degree(n, x.len(), 1, to_degree);
    assert(md == dx);
    assert(product_degree(n, 1, x.len(), to_degree) == dx);
    let top = start_of_degree_spec(n, dx + 1);
    if x.len() > 0 {
        lemma_start_of_degree_at_least(n, x.len() as nat);
        lemma_index_degree_exists(n, x.len() - 1, x.len() as nat);
        lemma_vector_degree(n, x.len() as nat, index_degree(n, x.len() - 1));
        assert(start_of_degree_spec(n, dx) <= x.len() - 1 < start_of_degree_spec(n, dx + 1));
    }
    lemma_start_of_degree_monotone(n, 0, dx + 1);
    assert(x.len() <= top);
    let right = accumulate_spec(Transform::Identity, Seq::<int>::empty(), x, u, n, md);
    let left = accumulate_spec(Transform::Identity, Seq::<int>::empty(), u, x, n, md);
    assert forall|i: int| #[trigger] coeff(right, i) == coeff(x, i) && coeff(left, i) == coeff(x, i) by {
        if 0 <= i < top {
            lemma_index_degree_exists(n, i, dx + 1);
            let d = index_degree(n, i);
            let j = i - start_of_degree_spec(n, d);
            lemma_pow_positive(n, d);
            assert(start_of_degree_spec(n, d + 1) == start_of_degree_spec(n, d) + pow(n, d));
            assert forall|e: nat| 0 <= e <= d && e != d implies #[trigger] block_term(Transform::Identity, x, u, n, d, e, j) == 0 by {
                let d2 = (d - e) as nat;
                lemma_start_of_degree_monotone(n, 1, d2);
                lemma_pow_positive(n, d2);
                vstd::arithmetic::div_mod::lemma_mod_bound(j, pow(n, d2));
                let a = coeff(x, start_of_degree_spec(n, e) + j / pow(n, d2));
                assert(a * 0 == 0);
            }
            assert forall|e: nat| 0 <= e <= d && e != 0 implies #[trigger] block_term(Transform::Identity, u, x, n, d, e, j) == 0 by {
                lemma_start_of_degree_monotone(n, 1, e);
                let d2 = (d - e) as nat;
                lemma_pow_positive(n, d2);
                vstd::arithmetic::div_mod::lemma_div_pos_is_pos(j, pow(n, d2));
                let b = coeff(x, start_of_degree_spec(n, d2) + j % pow(n, d2));
                assert(0 * b == 0);
            }
            lemma_conv_from_single(Transform::Identity, x, u, n, d, j, 0, d);
            lemma_conv_from_single(Transform::Identity, u, x, n, d, j, 0, 0);
            assert(pow(n, 0) == 1) by {
                reveal(pow);
            }
            assert(j / 1 == j);
            assert(j % 1 == 0);
            vstd::arithmetic::div_mod::lemma_basic_div(j, pow(n, d));
            vstd::arithmetic::div_mod::lemma_small_mod(j as nat, pow(n, d) as nat);
            let c = coeff(x, i);
            assert(0 <= c < MODULUS);
            lemma_small_mod(c as nat, MODULUS as nat);
            assert(c * 1 == c);
            assert(1 * c == c);
            assert(block_term(Transform::Identity, x, u, n, d, d, j) == c);
            assert(block_term(Transform::Identity, u, x, n, d, 0, j) == c);
            lemma_small_mod(0, MODULUS as nat);
            assert(fadd(0, c) == c);
        }
    }
    assert forall|i: int| #[trigger] coeff(left, i) == coeff(x, i) by {
        assert(coeff(right, i) == coeff(x, i) && coeff(left, i) == coeff(x, i));
    }
}

} // verus!
