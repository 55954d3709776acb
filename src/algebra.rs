//! The truncated convolution engine.
//!
//! Two kernels do all the work: one adds `t(lhs ⊗ rhs)` into a separate output, the other
//! replaces a vector by `t(self ⊗ rhs)` in place. `t` is a per-term transform; every product-like
//! operation of the algebra is one of the kernels with one transform.
use crate::coefficients::{fadd, fdiv, fmul, fneg, Scalar, MODULUS};
use crate::dense_vector::{coeff, lemma_values_update, lemma_values_reduced, lemma_vector_degree_bound, reduced, values, vector_degree, SimpleDenseVector};
use crate::tensor_basis::{index_degree, lemma_index_degree, lemma_start_of_degree_lower, lemma_start_of_degree_monotone, start_of_degree_spec, TensorBasis};
use crate::{DegreeType, TensorError};
use vstd::arithmetic::power::{pow, lemma_pow_adds, lemma_pow_positive};
use vstd::arithmetic::div_mod::{lemma_add_mod_noop, lemma_fundamental_div_mod_converse, lemma_mod_bound, lemma_small_mod};
use vstd::prelude::*;

verus! {

/// The per-term transform applied to every elementary product before it is added in.
#[derive(Clone, Copy, Debug, PartialEq, Eq)]
pub enum Transform {
    /// Keep the term.
    Identity,
    /// Negate the term.
    Negate,
    /// Multiply the term by a constant.
    ScaleBy(Scalar),
    /// Divide the term by a constant.
    DivideBy(Scalar),
}

impl Transform {
    /// The transform on residues.
    pub open spec fn apply_spec(self, x: int) -> int {
        match self {
            Transform::Identity => x % (MODULUS as int),
            Transform::Negate => fneg(x),
            Transform::ScaleBy(c) => fmul(c@, x),
            Transform::DivideBy(c) => fdiv(x, c@),
        }
    }

    /// Every transform maps zero to zero and lands in `[0, MODULUS)`.
    pub proof fn lemma_apply(self, x: int)
        ensures
            self.apply_spec(0) == 0,
            0 <= self.apply_spec(x) < MODULUS,
    {
        lemma_mod_bound(x, MODULUS as int);
        lemma_mod_bound(-x, MODULUS as int);
        match self {
            Transform::ScaleBy(c) => {
                lemma_mod_bound(c@ * x, MODULUS as int);
                assert(c@ * 0 == 0);
            },
            Transform::DivideBy(c) => {
                let i = crate::coefficients::finv(c@);
                lemma_mod_bound(x * i, MODULUS as int);
                assert(0 * i == 0);
            },
            _ => {},
        }
    }

    /// Applies the transform to one term.
    pub fn apply(&self, x: &Scalar) -> (r: Scalar)
        ensures
            r@ == self.apply_spec(x@),
    {
        match self {
            Transform::Identity => {
                proof {
                    x.lemma_range();
                    lemma_small_mod(x@ as nat, MODULUS as nat);
                }
                *x
            },
            Transform::Negate => x.uminus(),
            Transform::ScaleBy(c) => c.mul(x),
            Transform::DivideBy(c) => x.div(c),
        }
    }
}

/// `(a + b) + c` and `a + (c + b)` agree in the field.
pub proof fn lemma_fadd_assoc(a: int, b: int, c: int)
    ensures
        fadd(fadd(a, b), c) == fadd(a, fadd(c, b)),
{
    let m = MODULUS as int;
    lemma_add_mod_noop(a + b, c, m);
    lemma_add_mod_noop(a, c + b, m);
    lemma_mod_bound(a + b, m);
    lemma_mod_bound(c + b, m);
    lemma_small_mod(((a + b) % m) as nat, m as nat);
    lemma_small_mod(((c + b) % m) as nat, m as nat);
    vstd::arithmetic::div_mod::lemma_mod_twice(a + b, m);
    vstd::arithmetic::div_mod::lemma_mod_twice(c + b, m);
    lemma_add_mod_noop(a + b, c, m);
    assert(((a + b) % m + c % m) % m == (a + b + c) % m);
    assert((a % m + (c + b) % m) % m == (a + (c + b)) % m);
    lemma_add_mod_noop(a, c, m);
    assert((a % m) % m == a % m) by {
        vstd::arithmetic::div_mod::lemma_mod_twice(a, m);
    }
    assert(((a + b) % m + c) % m == ((a + b) % m % m + c % m) % m) by {
        lemma_add_mod_noop((a + b) % m, c, m);
    }
    assert((a + (c + b) % m) % m == (a % m + (c + b) % m % m) % m) by {
        lemma_add_mod_noop(a, (c + b) % m, m);
    }
}

/// Adding a reduced term to zero, or zero to a reduced value, changes nothing.
pub proof fn lemma_fadd_zero(a: int)
    requires
        0 <= a < MODULUS,
    ensures
        fadd(a, 0) == a,
        fadd(0, a) == a,
{
    lemma_small_mod(a as nat, MODULUS as nat);
}

/// The number of entries of a vector of length `len` in the block `[s, s + block)`.
pub open spec fn clip_len(len: int, s: int, block: int) -> int {
    if len <= s {
        0
    } else if len - s >= block {
        block
    } else {
        len - s
    }
}

/// What the kernels leave at position `k` of the output: if `k` lies in the done part of the
/// window `[os, os + la * stride)`, the old value plus `t(lhs[ls + row] * rhs[rs + col])`.
pub open spec fn kernel_value(
    t: Transform,
    out: Seq<int>,
    lhs: Seq<int>,
    rhs: Seq<int>,
    os: int,
    stride: int,
    ls: int,
    rs: int,
    lb: int,
    rows: int,
    cols: int,
    k: int,
) -> int {
    let p = k - os;
    let row = p / stride;
    let col = p % stride;
    if 0 <= p && col < lb && (row < rows || (row == rows && col < cols)) {
        fadd(out[k], t.apply_spec(fmul(lhs[ls + row], rhs[rs + col])))
    } else {
        out[k]
    }
}

/// The elementary term of a product at output degree `d`, from the left factor's degree `d1`,
/// at offset `j` of the output block: the left word is the first `d1` letters, the right word
/// the last `d - d1`.
pub open spec fn block_term(t: Transform, x: Seq<int>, y: Seq<int>, n: int, d: nat, d1: nat, j: int) -> int {
    let d2 = (d - d1) as nat;
    let p = pow(n, d2);
    t.apply_spec(fmul(coeff(x, start_of_degree_spec(n, d1) + j / p), coeff(y, start_of_degree_spec(n, d2) + j % p)))
}

/// The sum of the terms at output degree `d`, offset `j`, over the left degrees `k..=d`.
pub open spec fn conv_from(t: Transform, x: Seq<int>, y: Seq<int>, n: int, d: nat, j: int, k: nat) -> int
    decreases d + 1 - k,
{
    if k > d {
        0
    } else {
        fadd(block_term(t, x, y, n, d, k, j), conv_from(t, x, y, n, d, j, k + 1))
    }
}

/// The coefficient at offset `j` of degree block `d` of the product `t(x ⊗ y)`: the sum, over
/// every way to cut the word there into a left and a right part, of the transformed products.
pub open spec fn conv(t: Transform, x: Seq<int>, y: Seq<int>, n: int, d: nat, j: int) -> int {
    conv_from(t, x, y, n, d, j, 0)
}

/// The product coefficient at position `k` of the basis.
pub open spec fn conv_at(t: Transform, x: Seq<int>, y: Seq<int>, n: int, k: int) -> int {
    conv(t, x, y, n, index_degree(n, k), k - start_of_degree_spec(n, index_degree(n, k)))
}

/// The highest degree a product keeps: the truncation degree, or the sum of the factors'
/// degrees if that is lower.
pub open spec fn product_degree(n: int, x_len: nat, y_len: nat, to_degree: nat) -> nat {
    let s = vector_degree(n, x_len) + vector_degree(n, y_len);
    if to_degree < s {
        to_degree
    } else {
        s
    }
}

/// `acc + t(x ⊗ y)` kept up to degree `md`; `acc` grows to hold every degree up to `md`.
pub open spec fn accumulate_spec(t: Transform, acc: Seq<int>, x: Seq<int>, y: Seq<int>, n: int, md: nat) -> Seq<int> {
    let top = start_of_degree_spec(n, md + 1);
    let len = if acc.len() >= top { acc.len() as int } else { top };
    Seq::new(len as nat, |k: int| if k < top { fadd(coeff(acc, k), conv_at(t, x, y, n, k)) } else { acc[k] })
}

/// `t(x ⊗ y)` kept up to degree `md`, written over `x`; entries of `x` past degree `md` stay.
pub open spec fn multiply_spec(t: Transform, x: Seq<int>, y: Seq<int>, n: int, md: nat) -> Seq<int> {
    let top = start_of_degree_spec(n, md + 1);
    let len = if x.len() >= top { x.len() as int } else { top };
    Seq::new(len as nat, |k: int| if k < top { conv_at(t, x, y, n, k) } else { x[k] })
}

/// The commutator `x · y - y · x` kept up to degree `to_degree`.
pub open spec fn commutator_spec(x: Seq<int>, y: Seq<int>, n: int, to_degree: nat) -> Seq<int> {
    accumulate_spec(
        Transform::Negate,
        accumulate_spec(Transform::Identity, Seq::<int>::empty(), x, y, n, product_degree(n, x.len(), y.len(), to_degree)),
        y,
        x,
        n,
        product_degree(n, y.len(), x.len(), to_degree),
    )
}

/// A product kept up to degree at most `to_degree` fits wherever the blocks up to `to_degree` do.
pub proof fn lemma_product_degree_fits(n: int, x_len: nat, y_len: nat, to_degree: nat)
    requires
        n >= 2,
        start_of_degree_spec(n, to_degree + 1) <= usize::MAX,
    ensures
        product_degree(n, x_len, y_len, to_degree) <= to_degree,
        start_of_degree_spec(n, product_degree(n, x_len, y_len, to_degree) + 1) <= usize::MAX,
{
    lemma_start_of_degree_monotone(n, product_degree(n, x_len, y_len, to_degree) + 1, to_degree + 1);
}

/// Sums of terms are residues.
pub proof fn lemma_conv_from_reduced(t: Transform, x: Seq<int>, y: Seq<int>, n: int, d: nat, j: int, k: nat)
    ensures
        0 <= conv_from(t, x, y, n, d, j, k) < MODULUS,
    decreases d + 1 - k,
{
    if k <= d {
        lemma_conv_from_reduced(t, x, y, n, d, j, k + 1);
        lemma_mod_bound(block_term(t, x, y, n, d, k, j) + conv_from(t, x, y, n, d, j, k + 1), MODULUS as int);
    }
}

/// Where a kernel pass over the block of output degree `d` and left degree `d1` touches offset
/// `j`, it adds exactly the elementary term; where it does not, that term is zero.
pub proof fn lemma_kernel_term(t: Transform, x: Seq<int>, y: Seq<int>, n: int, d: nat, d1: nat, j: int)
    requires
        n >= 2,
        d1 <= d,
        0 <= j < pow(n, d),
    ensures
        ({
            let d2 = (d - d1) as nat;
            let stride = pow(n, d2);
            let ls = start_of_degree_spec(n, d1);
            let rs = start_of_degree_spec(n, d2);
            let la = clip_len(x.len() as int, ls, pow(n, d1));
            let lb = clip_len(y.len() as int, rs, stride);
            let row = j / stride;
            let col = j % stride;
            &&& stride > 0
            &&& 0 <= la * stride <= pow(n, d)
            &&& 0 <= la && 0 <= lb <= stride
            &&& (col < lb && row < la) ==> (0 <= ls + row < x.len() && 0 <= rs + col < y.len() && block_term(t, x, y, n, d, d1, j) == t.apply_spec(fmul(x[ls + row], y[rs + col])))
            &&& !(col < lb && row < la) ==> block_term(t, x, y, n, d, d1, j) == 0
            &&& (row < la || j >= la * stride)
        }),
{
    let d2 = (d - d1) as nat;
    let stride = pow(n, d2);
    let ls = start_of_degree_spec(n, d1);
    let rs = start_of_degree_spec(n, d2);
    let la = clip_len(x.len() as int, ls, pow(n, d1));
    let lb = clip_len(y.len() as int, rs, stride);
    let row = j / stride;
    let col = j % stride;
    lemma_pow_positive(n, d2);
    lemma_pow_positive(n, d1);
    lemma_pow_adds(n, d1, d2);
    lemma_start_of_degree_monotone(n, 0, d1);
    lemma_start_of_degree_monotone(n, 0, d2);
    vstd::arithmetic::div_mod::lemma_fundamental_div_mod(j, stride);
    lemma_mod_bound(j, stride);
    vstd::arithmetic::div_mod::lemma_div_pos_is_pos(j, stride);
    assert(row < pow(n, d1)) by (nonlinear_arith)
        requires
            j == stride * row + col,
            0 <= col,
            j < pow(n, d1) * stride,
            stride > 0,
    ;
    assert(la * stride <= pow(n, d1) * stride) by (nonlinear_arith)
        requires
            la <= pow(n, d1),
            stride > 0,
    ;
    assert(la * stride >= 0) by (nonlinear_arith)
        requires
            la >= 0,
            stride > 0,
    ;
    if !(row < la) {
        assert(j >= la * stride) by (nonlinear_arith)
            requires
                j == stride * row + col,
                0 <= col,
                row >= la,
                stride > 0,
        ;
    }
    if !(col < lb && row < la) {
        let a = coeff(x, ls + row);
        let b = coeff(y, rs + col);
        if col >= lb {
            assert(b == 0);
            assert(a * 0 == 0);
        } else {
            assert(a == 0);
            assert(0 * b == 0);
        }
        t.lemma_apply(0);
    }
}

/// Adds `t(lhs[ls + a] * rhs[rs + b])` into `out[os + a * stride + b]` for every `a < la`, `b < lb`.
fn multiply_into_buffer(
    out: &mut Vec<Scalar>,
    os: usize,
    stride: usize,
    lhs: &Vec<Scalar>,
    ls: usize,
    la: usize,
    rhs: &Vec<Scalar>,
    rs: usize,
    lb: usize,
    t: &Transform,
)
    requires
        0 < stride,
        lb <= stride,
        la == 0 || ls + la <= lhs@.len(),
        lb == 0 || rs + lb <= rhs@.len(),
        os + la * stride <= old(out)@.len(),
    ensures
        final(out)@.len() == old(out)@.len(),
        forall|k: int| 0 <= k < final(out)@.len() ==> #[trigger] values(final(out)@)[k] == kernel_value(
            *t, values(old(out)@), values(lhs@), values(rhs@), os as int, stride as int, ls as int, rs as int,
            lb as int, la as int, 0, k),
{
    let ghost o = values(out@);
    let ghost l = values(lhs@);
    let ghost r = values(rhs@);
    let lhs_len = lhs.len();
    let rhs_len = rhs.len();
    let out_len = out.len();
    proof {
        assert forall|k: int| 0 <= k < o.len() implies #[trigger] values(out@)[k] == kernel_value(
            *t, o, l, r, os as int, stride as int, ls as int, rs as int, lb as int, 0, 0, k) by {
            if k - os >= 0 {
                vstd::arithmetic::div_mod::lemma_div_pos_is_pos(k - os, stride as int);
            }
        }
    }
    let mut a: usize = 0;
    while a < la
        invariant
            0 < stride,
            lhs_len == lhs@.len(),
            rhs_len == rhs@.len(),
            out_len == o.len(),
            lb <= stride,
            la == 0 || ls + la <= lhs@.len(),
            lb == 0 || rs + lb <= rhs@.len(),
            os + la * stride <= o.len(),
            a <= la,
            out@.len() == o.len(),
            l == values(lhs@),
            r == values(rhs@),
            forall|k: int| 0 <= k < o.len() ==> #[trigger] values(out@)[k] == kernel_value(
                *t, o, l, r, os as int, stride as int, ls as int, rs as int, lb as int, a as int, 0, k),
        decreases la - a,
    {
        proof {
            assert((a + 1) * stride <= la * stride) by (nonlinear_arith)
                requires
                    a + 1 <= la,
            ;
            assert(a * stride + stride == (a + 1) * stride) by (nonlinear_arith);
        }
        let x = lhs[ls + a];
        let mut b: usize = 0;
        while b < lb
            invariant
                0 < stride,
                lhs_len == lhs@.len(),
                rhs_len == rhs@.len(),
                out_len == o.len(),
                lb <= stride,
                la == 0 || ls + la <= lhs@.len(),
                lb == 0 || rs + lb <= rhs@.len(),
                os + la * stride <= o.len(),
                a < la,
                b <= lb,
                (a + 1) * stride <= la * stride,
                a * stride + stride == (a + 1) * stride,
                out@.len() == o.len(),
                l == values(lhs@),
                r == values(rhs@),
                x@ == l[ls + a],
                forall|k: int| 0 <= k < o.len() ==> #[trigger] values(out@)[k] == kernel_value(
                    *t, o, l, r, os as int, stride as int, ls as int, rs as int, lb as int, a as int, b as int, k),
            decreases lb - b,
        {
            proof {
                assert(a * stride + b < la * stride) by (nonlinear_arith)
                    requires
                        b < stride,
                        (a + 1) * stride <= la * stride,
                        a * stride + stride == (a + 1) * stride,
                ;
            }
            let pos = os + a * stride + b;
            let prod = x.mul(&rhs[rs + b]);
            let term = t.apply(&prod);
            let cur = out[pos];
            let sum = cur.add(&term);
            proof {
                assert(values(out@)[pos as int] == cur@);
                lemma_values_update(out@, pos as int, sum);
                lemma_fundamental_div_mod_converse(pos - os, stride as int, a as int, b as int);
                assert(r[rs + b] == rhs@[rs + b]@);
                assert forall|k: int| 0 <= k < o.len() implies #[trigger] values(out@).update(pos as int, sum@)[k] == kernel_value(
                    *t, o, l, r, os as int, stride as int, ls as int, rs as int, lb as int, a as int, (b + 1) as int, k) by {
                    if k != pos {
                        assert(values(out@)[k] == kernel_value(
                            *t, o, l, r, os as int, stride as int, ls as int, rs as int, lb as int, a as int, b as int, k));
                        let p = k - os;
                        if 0 <= p && p / (stride as int) == a && p % (stride as int) == b {
                            vstd::arithmetic::div_mod::lemma_fundamental_div_mod(p, stride as int);
                            assert(stride * a == a * stride) by (nonlinear_arith);
                        }
                    } else {
                        assert(values(out@)[k] == kernel_value(
                            *t, o, l, r, os as int, stride as int, ls as int, rs as int, lb as int, a as int, b as int, k));
                    }
                }
            }
            out.set(pos, sum);
            b = b + 1;
        }
        proof {
            assert forall|k: int| 0 <= k < o.len() implies #[trigger] values(out@)[k] == kernel_value(
                *t, o, l, r, os as int, stride as int, ls as int, rs as int, lb as int, (a + 1) as int, 0, k) by {
                assert(values(out@)[k] == kernel_value(
                    *t, o, l, r, os as int, stride as int, ls as int, rs as int, lb as int, a as int, lb as int, k));
                let p = k - os;
                if 0 <= p {
                    vstd::arithmetic::div_mod::lemma_mod_bound(p, stride as int);
                }
            }
        }
        a = a + 1;
    }
}

/// As `multiply_into_buffer`, with the left factor read from `out` itself, below the window:
/// the left entries are final before the window is written, so reading and writing never meet.
fn multiply_into_buffer_self(
    out: &mut Vec<Scalar>,
    os: usize,
    stride: usize,
    ls: usize,
    la: usize,
    rhs: &Vec<Scalar>,
    rs: usize,
    lb: usize,
    t: &Transform,
)
    requires
        0 < stride,
        lb <= stride,
        ls + la <= os,
        lb == 0 || rs + lb <= rhs@.len(),
        os + la * stride <= old(out)@.len(),
    ensures
        final(out)@.len() == old(out)@.len(),
        forall|k: int| 0 <= k < final(out)@.len() ==> #[trigger] values(final(out)@)[k] == kernel_value(
            *t, values(old(out)@), values(old(out)@), values(rhs@), os as int, stride as int, ls as int, rs as int,
            lb as int, la as int, 0, k),
{
    let ghost o = values(out@);
    let ghost r = values(rhs@);
    let rhs_len = rhs.len();
    let out_len = out.len();
    proof {
        assert forall|k: int| 0 <= k < o.len() implies #[trigger] values(out@)[k] == kernel_value(
            *t, o, o, r, os as int, stride as int, ls as int, rs as int, lb as int, 0, 0, k) by {
            if k - os >= 0 {
                vstd::arithmetic::div_mod::lemma_div_pos_is_pos(k - os, stride as int);
            }
        }
    }
    let mut a: usize = 0;
    while a < la
        invariant
            0 < stride,
            rhs_len == rhs@.len(),
            out_len == o.len(),
            lb <= stride,
            ls + la <= os,
            lb == 0 || rs + lb <= rhs@.len(),
            os + la * stride <= o.len(),
            a <= la,
            out@.len() == o.len(),
            r == values(rhs@),
            forall|k: int| 0 <= k < o.len() ==> #[trigger] values(out@)[k] == kernel_value(
                *t, o, o, r, os as int, stride as int, ls as int, rs as int, lb as int, a as int, 0, k),
        decreases la - a,
    {
        proof {
            assert((a + 1) * stride <= la * stride) by (nonlinear_arith)
                requires
                    a + 1 <= la,
            ;
            assert(a * stride + stride == (a + 1) * stride) by (nonlinear_arith);
            assert(values(out@)[ls + a] == kernel_value(
                *t, o, o, r, os as int, stride as int, ls as int, rs as int, lb as int, a as int, 0, ls + a));
        }
        let x = out[ls + a];
        let mut b: usize = 0;
        while b < lb
            invariant
                0 < stride,
                rhs_len == rhs@.len(),
                out_len == o.len(),
                lb <= stride,
                ls + la <= os,
                lb == 0 || rs + lb <= rhs@.len(),
                os + la * stride <= o.len(),
                a < la,
                b <= lb,
                (a + 1) * stride <= la * stride,
                a * stride + stride == (a + 1) * stride,
                out@.len() == o.len(),
                r == values(rhs@),
                x@ == o[ls + a],
                forall|k: int| 0 <= k < o.len() ==> #[trigger] values(out@)[k] == kernel_value(
                    *t, o, o, r, os as int, stride as int, ls as int, rs as int, lb as int, a as int, b as int, k),
            decreases lb - b,
        {
            proof {
                assert(a * stride + b < la * stride) by (nonlinear_arith)
                    requires
                        b < stride,
                        (a + 1) * stride <= la * stride,
                        a * stride + stride == (a + 1) * stride,
                ;
            }
            let pos = os + a * stride + b;
            let prod = x.mul(&rhs[rs + b]);
            let term = t.apply(&prod);
            let cur = out[pos];
            let sum = cur.add(&term);
            proof {
                assert(values(out@)[pos as int] == cur@);
                lemma_values_update(out@, pos as int, sum);
                lemma_fundamental_div_mod_converse(pos - os, stride as int, a as int, b as int);
                assert(r[rs + b] == rhs@[rs + b]@);
                assert forall|k: int| 0 <= k < o.len() implies #[trigger] values(out@).update(pos as int, sum@)[k] == kernel_value(
                    *t, o, o, r, os as int, stride as int, ls as int, rs as int, lb as int, a as int, (b + 1) as int, k) by {
                    assert(values(out@)[k] == kernel_value(
                        *t, o, o, r, os as int, stride as int, ls as int, rs as int, lb as int, a as int, b as int, k));
                    if k != pos {
                        let p = k - os;
                        if 0 <= p && p / (stride as int) == a && p % (stride as int) == b {
                            vstd::arithmetic::div_mod::lemma_fundamental_div_mod(p, stride as int);
                            assert(stride * a == a * stride) by (nonlinear_arith);
                        }
                    }
                }
            }
            out.set(pos, sum);
            b = b + 1;
        }
        proof {
            assert forall|k: int| 0 <= k < o.len() implies #[trigger] values(out@)[k] == kernel_value(
                *t, o, o, r, os as int, stride as int, ls as int, rs as int, lb as int, (a + 1) as int, 0, k) by {
                assert(values(out@)[k] == kernel_value(
                    *t, o, o, r, os as int, stride as int, ls as int, rs as int, lb as int, a as int, lb as int, k));
                let p = k - os;
                if 0 <= p {
                    vstd::arithmetic::div_mod::lemma_mod_bound(p, stride as int);
                }
            }
        }
        a = a + 1;
    }
}

/// Replaces `out[os + j]` by `t(out[os + j] * c)` for every `j < len`.
fn scale_block(out: &mut Vec<Scalar>, os: usize, len: usize, c: &Scalar, t: &Transform)
    requires
        os + len <= old(out)@.len(),
    ensures
        final(out)@.len() == old(out)@.len(),
        forall|k: int| 0 <= k < final(out)@.len() ==> #[trigger] values(final(out)@)[k] == if os <= k < os + len {
            t.apply_spec(fmul(values(old(out)@)[k], c@))
        } else {
            values(old(out)@)[k]
        },
{
    let ghost o = values(out@);
    let out_len = out.len();
    let mut j: usize = 0;
    while j < len
        invariant
            out_len == o.len(),
            os + len <= o.len(),
            j <= len,
            out@.len() == o.len(),
            forall|k: int| 0 <= k < o.len() ==> #[trigger] values(out@)[k] == if os <= k < os + j {
                t.apply_spec(fmul(o[k], c@))
            } else {
                o[k]
            },
        decreases len - j,
    {
        let x = out[os + j];
        let y = t.apply(&x.mul(c));
        proof {
            assert(values(out@)[os + j] == x@);
            lemma_values_update(out@, (os + j) as int, y);
        }
        out.set(os + j, y);
        j = j + 1;
    }
}

/// Sets `out[os + j]` to zero for every `j < len`.
fn zero_block(out: &mut Vec<Scalar>, os: usize, len: usize)
    requires
        os + len <= old(out)@.len(),
    ensures
        final(out)@.len() == old(out)@.len(),
        forall|k: int| 0 <= k < final(out)@.len() ==> #[trigger] values(final(out)@)[k] == if os <= k < os + len {
            0
        } else {
            values(old(out)@)[k]
        },
{
    let ghost o = values(out@);
    let out_len = out.len();
    let mut j: usize = 0;
    while j < len
        invariant
            out_len == o.len(),
            os + len <= o.len(),
            j <= len,
            out@.len() == o.len(),
            forall|k: int| 0 <= k < o.len() ==> #[trigger] values(out@)[k] == if os <= k < os + j {
                0
            } else {
                o[k]
            },
        decreases len - j,
    {
        let z = Scalar::zero();
        proof {
            lemma_values_update(out@, (os + j) as int, z);
        }
        out.set(os + j, z);
        j = j + 1;
    }
}

/// Terms that read the left factor only through `coeff` agree on two left factors with the
/// same coefficients.
pub proof fn lemma_conv_from_congruence(t: Transform, x1: Seq<int>, x2: Seq<int>, y: Seq<int>, n: int, d: nat, j: int, k: nat)
    requires
        forall|i: int| coeff(x1, i) == #[trigger] coeff(x2, i),
    ensures
        conv_from(t, x1, y, n, d, j, k) == conv_from(t, x2, y, n, d, j, k),
    decreases d + 1 - k,
{
    if k <= d {
        lemma_conv_from_congruence(t, x1, x2, y, n, d, j, k + 1);
        let p = pow(n, (d - k) as nat);
        assert(coeff(x1, start_of_degree_spec(n, k) + j / p) == coeff(x2, start_of_degree_spec(n, k) + j / p));
    }
}

/// The number of entries of a vector of length `len` in the block `[s, s + block)`.
fn clip(len: usize, s: usize, block: usize) -> (r: usize)
    ensures
        r == clip_len(len as int, s as int, block as int),
{
    if len <= s {
        0
    } else if len - s >= block {
        block
    } else {
        len - s
    }
}

impl<const N: u32> SimpleDenseVector<N> {
    /// `self += t(lhs ⊗ rhs)`, truncated at degree `to_degree`.
    ///
    /// Every pair of degree blocks of `lhs` and `rhs` whose degrees sum to at most the kept degree
    /// is multiplied out as a flat outer product: the entry at offset `a` of the left block times
    /// the entry at offset `b` of the right block lands at offset `a * N^deg(right) + b`. `self`
    /// grows first to hold every kept degree. Fails with `MissingTruncationDegree`, changing
    /// nothing, when no degree is given.
    pub fn multiply_and_add_into_impl(
        &mut self,
        lhs: &Self,
        rhs: &Self,
        t: &Transform,
        to_degree: Option<DegreeType>,
    ) -> (r: Result<(), TensorError>)
        requires
            N >= 2,
            to_degree is Some ==> start_of_degree_spec(N as int, product_degree(N as int, lhs@.len(), rhs@.len(), to_degree->Some_0 as nat) + 1) <= usize::MAX,
        ensures
            to_degree is None ==> r == Err::<(), TensorError>(TensorError::MissingTruncationDegree) && final(self)@ == old(self)@,
            to_degree is Some ==> r is Ok && final(self)@ == accumulate_spec(
                *t, old(self)@, lhs@, rhs@, N as int,
                product_degree(N as int, lhs@.len(), rhs@.len(), to_degree->Some_0 as nat)),
    {
        let max_degree = match to_degree {
            None => {
                return Err(TensorError::MissingTruncationDegree);
            },
            Some(d) => d,
        };
        let ghost n = N as int;
        let ghost start = self@;
        let ghost l = lhs@;
        let ghost rr = rhs@;
        let lhs_size = lhs.size();
        let rhs_size = rhs.size();
        proof {
            lemma_vector_degree_bound(n, lhs@.len());
            lemma_vector_degree_bound(n, rhs@.len());
            lhs.lemma_view();
            rhs.lemma_view();
        }
        let lhs_deg = lhs.degree();
        let rhs_deg = rhs.degree();
        let md = if max_degree < lhs_deg + rhs_deg { max_degree } else { lhs_deg + rhs_deg };
        proof {
            lemma_start_of_degree_lower(n, md as nat + 1);
            vstd::arithmetic::power2::lemma2_to64();
            if md as nat + 1 > 64 {
                vstd::arithmetic::power2::lemma_pow2_strictly_increases(64, md as nat + 1);
            }
        }
        let top = TensorBasis::<N>::start_of_degree(md + 1);
        self.resize(top);
        let ghost base = self@;
        proof {
            self.lemma_view();
            lemma_values_reduced(self.data@);
        }
        let mut d: u32 = md + 1;
        while d > 0
            invariant
                N >= 2,
                n == N as int,
                d <= md + 1,
                md <= 63,
                top == start_of_degree_spec(n, md as nat + 1),
                top <= usize::MAX,
                base.len() >= top,
                reduced(base),
                forall|k: int| 0 <= k < start.len() ==> base[k] == #[trigger] start[k],
                forall|k: int| start.len() <= k < base.len() ==> #[trigger] base[k] == 0,
                base.len() == if start.len() >= top { start.len() as int } else { top as int },
                l == lhs@,
                rr == rhs@,
                lhs@ == values(lhs.data@),
                rhs@ == values(rhs.data@),
                lhs_size == lhs@.len(),
                rhs_size == rhs@.len(),
                values(self.data@).len() == base.len(),
                forall|k: int| 0 <= k < start_of_degree_spec(n, d as nat) ==> #[trigger] values(self.data@)[k] == base[k],
                forall|k: int| top <= k < base.len() ==> #[trigger] values(self.data@)[k] == base[k],
                forall|k: int| start_of_degree_spec(n, d as nat) <= k < top ==> #[trigger] values(self.data@)[k] == fadd(base[k], conv_at(*t, l, rr, n, k)),
            decreases d,
        {
            d = d - 1;
            proof {
                lemma_start_of_degree_monotone(n, d as nat + 1, md as nat + 1);
                lemma_start_of_degree_monotone(n, d as nat, d as nat + 1);
            }
            let os = TensorBasis::<N>::start_of_degree(d);
            let ghost mid = values(self.data@);
            let mut d1: u32 = d + 1;
            while d1 > 0
                invariant
                    N >= 2,
                    n == N as int,
                    d <= md,
                    d1 <= d + 1,
                    md <= 63,
                    os == start_of_degree_spec(n, d as nat),
                    top == start_of_degree_spec(n, md as nat + 1),
                    start_of_degree_spec(n, d as nat + 1) <= top,
                    top <= usize::MAX,
                    base.len() >= top,
                    reduced(base),
                    l == lhs@,
                    rr == rhs@,
                    lhs@ == values(lhs.data@),
                    rhs@ == values(rhs.data@),
                    lhs_size == lhs@.len(),
                    rhs_size == rhs@.len(),
                    values(self.data@).len() == base.len(),
                    forall|k: int| 0 <= k < os ==> #[trigger] values(self.data@)[k] == mid[k],
                    forall|k: int| start_of_degree_spec(n, d as nat + 1) <= k < base.len() ==> #[trigger] values(self.data@)[k] == mid[k],
                    forall|k: int| 0 <= k < os ==> #[trigger] mid[k] == base[k],
                    forall|j: int| 0 <= j < pow(n, d as nat) ==> #[trigger] values(self.data@)[os + j] == fadd(base[os + j], conv_from(*t, l, rr, n, d as nat, j, d1 as nat)),
                decreases d1,
            {
                d1 = d1 - 1;
                let d2 = d - d1;
                proof {
                    lemma_start_of_degree_monotone(n, d1 as nat + 1, md as nat + 1);
                    lemma_start_of_degree_monotone(n, d2 as nat + 1, md as nat + 1);
                    lemma_start_of_degree_monotone(n, d1 as nat, d1 as nat + 1);
                    lemma_start_of_degree_monotone(n, d2 as nat, d2 as nat + 1);
                }
                let ls = TensorBasis::<N>::start_of_degree(d1);
                let lblock = TensorBasis::<N>::start_of_degree(d1 + 1) - ls;
                let rs = TensorBasis::<N>::start_of_degree(d2);
                let stride = TensorBasis::<N>::start_of_degree(d2 + 1) - rs;
                let la = clip(lhs_size, ls, lblock);
                let lb = clip(rhs_size, rs, stride);
                let ghost prev = values(self.data@);
                proof {
                    assert(lblock == pow(n, d1 as nat));
                    assert(stride == pow(n, d2 as nat));
                    lemma_pow_positive(n, d2 as nat);
                    lemma_pow_positive(n, d1 as nat);
                    lemma_pow_adds(n, d1 as nat, d2 as nat);
                    assert(la * stride <= pow(n, d as nat)) by (nonlinear_arith)
                        requires
                            la <= lblock,
                            lblock == pow(n, d1 as nat),
                            stride == pow(n, d2 as nat),
                            pow(n, d as nat) == pow(n, d1 as nat) * pow(n, d2 as nat),
                            stride > 0,
                    ;
                    assert(start_of_degree_spec(n, d as nat + 1) == os + pow(n, d as nat));
                    assert(lhs.data@.len() == lhs@.len());
                    assert(rhs.data@.len() == rhs@.len());
                    assert(self.data@.len() == base.len());
                }
                multiply_into_buffer(&mut self.data, os, stride, &lhs.data, ls, la, &rhs.data, rs, lb, t);
                proof {
                    assert forall|j: int| 0 <= j < pow(n, d as nat) implies #[trigger] values(self.data@)[os + j] == fadd(base[os + j], conv_from(*t, l, rr, n, d as nat, j, d1 as nat)) by {
                        lemma_kernel_term(*t, l, rr, n, d as nat, d1 as nat, j);
                        let k = os + j;
                        assert((k - os) == j);
                        assert(prev[k] == fadd(base[k], conv_from(*t, l, rr, n, d as nat, j, d1 as nat + 1)));
                        let term = block_term(*t, l, rr, n, d as nat, d1 as nat, j);
                        lemma_fadd_assoc(base[k], conv_from(*t, l, rr, n, d as nat, j, d1 as nat + 1), term);
                        lemma_conv_from_reduced(*t, l, rr, n, d as nat, j, d1 as nat + 1);
                        if !(j % (stride as int) < lb && j / (stride as int) < la) {
                            lemma_fadd_zero(conv_from(*t, l, rr, n, d as nat, j, d1 as nat + 1));
                        }
                    }
                    assert forall|k: int| 0 <= k < os implies #[trigger] values(self.data@)[k] == mid[k] by {
                        assert(values(self.data@)[k] == prev[k]);
                    }
                    assert forall|k: int| start_of_degree_spec(n, d as nat + 1) <= k < base.len() implies #[trigger] values(self.data@)[k] == mid[k] by {
                        assert(values(self.data@)[k] == kernel_value(*t, prev, l, rr, os as int, stride as int, ls as int, rs as int, lb as int, la as int, 0, k));
                        vstd::arithmetic::div_mod::lemma_fundamental_div_mod(k - os, stride as int);
                        lemma_mod_bound(k - os, stride as int);
                        assert((k - os) / (stride as int) >= la) by (nonlinear_arith)
                            requires
                                k - os >= la * stride,
                                k - os == stride * ((k - os) / (stride as int)) + (k - os) % (stride as int),
                                (k - os) % (stride as int) < stride,
                                stride > 0,
                        ;
                    }
                }
            }
            proof {
                assert forall|k: int| start_of_degree_spec(n, d as nat) <= k < top implies #[trigger] values(self.data@)[k] == fadd(base[k], conv_at(*t, l, rr, n, k)) by {
                    if k < start_of_degree_spec(n, d as nat + 1) {
                        lemma_index_degree(n, k, d as nat);
                        let j = k - os;
                        assert(values(self.data@)[os + j] == fadd(base[os + j], conv_from(*t, l, rr, n, d as nat, j, 0)));
                    } else {
                        assert(values(self.data@)[k] == mid[k]);
                    }
                }
            }
        }
        proof {
            let target = accumulate_spec(*t, start, l, rr, n, md as nat);
            assert(product_degree(n, l.len(), rr.len(), max_degree as nat) == md);
            assert forall|k: int| 0 <= k < target.len() implies #[trigger] self@[k] == target[k] by {
                self.lemma_view();
                if k < top {
                    assert(values(self.data@)[k] == fadd(base[k], conv_at(*t, l, rr, n, k)));
                    assert(coeff(start, k) == base[k]);
                }
            }
            self.lemma_view();
            assert(self@ =~= target);
        }
        Ok(())
    }
    /// `self := t(self ⊗ rhs)`, truncated at degree `to_degree`, in place.
    ///
    /// Output degrees are produced from the highest down. At degree `d` the block is first set
    /// to its term with the unit coefficient `c0` of `rhs`: zero when `c0` is zero, left as it is
    /// when `c0` is one and the transform is the identity, and `t(self_d * c0)` otherwise. Then
    /// the terms from the lower blocks of `self`, still untouched, are added in. Fails with
    /// `MissingTruncationDegree`, changing nothing, when no degree is given.
    pub fn multiply_into_impl(
        &mut self,
        rhs: &Self,
        t: &Transform,
        to_degree: Option<DegreeType>,
    ) -> (r: Result<(), TensorError>)
        requires
            N >= 2,
            to_degree is Some ==> start_of_degree_spec(N as int, product_degree(N as int, old(self)@.len(), rhs@.len(), to_degree->Some_0 as nat) + 1) <= usize::MAX,
        ensures
            to_degree is None ==> r == Err::<(), TensorError>(TensorError::MissingTruncationDegree) && final(self)@ == old(self)@,
            to_degree is Some ==> r is Ok && final(self)@ == multiply_spec(
                *t, old(self)@, rhs@, N as int,
                product_degree(N as int, old(self)@.len(), rhs@.len(), to_degree->Some_0 as nat)),
    {
        let max_degree = match to_degree {
            None => {
                return Err(TensorError::MissingTruncationDegree);
            },
            Some(d) => d,
        };
        let ghost n = N as int;
        let ghost start = self@;
        let ghost rr = rhs@;
        let rhs_size = rhs.size();
        let self_size = self.size();
        proof {
            lemma_vector_degree_bound(n, self@.len());
            lemma_vector_degree_bound(n, rhs@.len());
            rhs.lemma_view();
        }
        let lhs_deg = self.degree();
        let rhs_deg = rhs.degree();
        let md = if max_degree < lhs_deg + rhs_deg { max_degree } else { lhs_deg + rhs_deg };
        proof {
            lemma_start_of_degree_lower(n, md as nat + 1);
            vstd::arithmetic::power2::lemma2_to64();
            if md as nat + 1 > 64 {
                vstd::arithmetic::power2::lemma_pow2_strictly_increases(64, md as nat + 1);
            }
        }
        let top = TensorBasis::<N>::start_of_degree(md + 1);
        self.resize(top);
        let ghost base = self@;
        proof {
            self.lemma_view();
            lemma_values_reduced(self.data@);
            assert forall|i: int| coeff(start, i) == #[trigger] coeff(base, i) by {}
        }
        let c0 = if rhs_size > 0 { rhs.get_index(0) } else { Scalar::zero() };
        let c0_value = c0.value();
        let keep = match t {
            Transform::Identity => c0_value == 1,
            _ => false,
        };
        proof {
            assert(c0@ == coeff(rr, 0));
        }
        let mut d: u32 = md + 1;
        while d > 0
            invariant
                N >= 2,
                n == N as int,
                d <= md + 1,
                md <= 63,
                top == start_of_degree_spec(n, md as nat + 1),
                top <= usize::MAX,
                base.len() >= top,
                reduced(base),
                forall|i: int| coeff(start, i) == #[trigger] coeff(base, i),
                base.len() == if start.len() >= top { start.len() as int } else { top as int },
                forall|k: int| 0 <= k < start.len() ==> base[k] == #[trigger] start[k],
                rr == rhs@,
                rhs@ == values(rhs.data@),
                rhs_size == rhs@.len(),
                c0@ == coeff(rr, 0),
                c0_value == c0@,
                keep ==> *t == Transform::Identity && c0@ == 1,
                values(self.data@).len() == base.len(),
                forall|k: int| 0 <= k < start_of_degree_spec(n, d as nat) ==> #[trigger] values(self.data@)[k] == base[k],
                forall|k: int| top <= k < base.len() ==> #[trigger] values(self.data@)[k] == base[k],
                forall|k: int| start_of_degree_spec(n, d as nat) <= k < top ==> #[trigger] values(self.data@)[k] == conv_at(*t, base, rr, n, k),
            decreases d,
        {
            d = d - 1;
            proof {
                lemma_start_of_degree_monotone(n, d as nat + 1, md as nat + 1);
                lemma_start_of_degree_monotone(n, d as nat, d as nat + 1);
            }
            let os = TensorBasis::<N>::start_of_degree(d);
            let block = TensorBasis::<N>::start_of_degree(d + 1) - os;
            let ghost mid = values(self.data@);
            proof {
                assert(self.data@.len() == base.len());
                lemma_pow_positive(n, d as nat);
            }
            if c0_value == 0 {
                zero_block(&mut self.data, os, block);
            } else if !keep {
                scale_block(&mut self.data, os, block, &c0, t);
            }
            proof {
                assert(block == pow(n, d as nat));
                assert forall|j: int| 0 <= j < pow(n, d as nat) implies #[trigger] values(self.data@)[os + j] == conv_from(*t, base, rr, n, d as nat, j, d as nat) by {
                    let k = os + j;
                    assert(mid[k] == base[k]);
                    let v = values(self.data@)[k];
                    if c0_value == 0 {
                        assert(v == 0);
                    } else if !keep {
                        assert(v == t.apply_spec(fmul(mid[k], c0@)));
                    } else {
                        assert(v == mid[k]);
                    }
                    assert(conv_from(*t, base, rr, n, d as nat, j, d as nat + 1) == 0);
                    assert(pow(n, 0) == 1) by {
                        reveal(pow);
                    }
                    assert(j / 1 == j);
                    assert(j % 1 == 0);
                    let term = block_term(*t, base, rr, n, d as nat, d as nat, j);
                    assert(term == t.apply_spec(fmul(coeff(base, k), c0@)));
                    t.lemma_apply(fmul(coeff(base, k), c0@));
                    lemma_fadd_zero(term);
                    if c0_value == 0 {
                        assert(coeff(base, k) * 0 == 0);
                        t.lemma_apply(0);
                        assert(fmul(coeff(base, k), c0@) == 0);
                    } else if keep {
                        lemma_small_mod(base[k] as nat, MODULUS as nat);
                        assert(base[k] * 1 == base[k]);
                    }
                }
            }
            let mut d1: u32 = d;
            while d1 > 0
                invariant
                    N >= 2,
                    n == N as int,
                    d <= md,
                    d1 <= d,
                    md <= 63,
                    os == start_of_degree_spec(n, d as nat),
                    top == start_of_degree_spec(n, md as nat + 1),
                    start_of_degree_spec(n, d as nat + 1) <= top,
                    top <= usize::MAX,
                    base.len() >= top,
                    reduced(base),
                    rr == rhs@,
                    rhs@ == values(rhs.data@),
                    rhs_size == rhs@.len(),
                    values(self.data@).len() == base.len(),
                    forall|k: int| 0 <= k < os ==> #[trigger] values(self.data@)[k] == mid[k],
                    forall|k: int| start_of_degree_spec(n, d as nat + 1) <= k < base.len() ==> #[trigger] values(self.data@)[k] == mid[k],
                    forall|k: int| 0 <= k < os ==> #[trigger] mid[k] == base[k],
                    forall|j: int| 0 <= j < pow(n, d as nat) ==> #[trigger] values(self.data@)[os + j] == conv_from(*t, base, rr, n, d as nat, j, d1 as nat),
                decreases d1,
            {
                d1 = d1 - 1;
                let d2 = d - d1;
                proof {
                    lemma_start_of_degree_monotone(n, d1 as nat + 1, d as nat);
                    lemma_start_of_degree_monotone(n, d2 as nat + 1, md as nat + 1);
                    lemma_start_of_degree_monotone(n, d1 as nat, d1 as nat + 1);
                    lemma_start_of_degree_monotone(n, d2 as nat, d2 as nat + 1);
                    lemma_start_of_degree_monotone(n, d as nat, md as nat + 1);
                }
                let ls = TensorBasis::<N>::start_of_degree(d1);
                let la = TensorBasis::<N>::start_of_degree(d1 + 1) - ls;
                let rs = TensorBasis::<N>::start_of_degree(d2);
                let stride = TensorBasis::<N>::start_of_degree(d2 + 1) - rs;
                let lb = clip(rhs_size, rs, stride);
                let ghost prev = values(self.data@);
                proof {
                    assert(la == pow(n, d1 as nat));
                    assert(stride == pow(n, d2 as nat));
                    lemma_pow_positive(n, d2 as nat);
                    lemma_pow_positive(n, d1 as nat);
                    lemma_pow_adds(n, d1 as nat, d2 as nat);
                    assert(la * stride == pow(n, d as nat)) by (nonlinear_arith)
                        requires
                            la == pow(n, d1 as nat),
                            stride == pow(n, d2 as nat),
                            pow(n, d as nat) == pow(n, d1 as nat) * pow(n, d2 as nat),
                    ;
                    assert(start_of_degree_spec(n, d as nat + 1) == os + pow(n, d as nat));
                    assert(rhs.data@.len() == rhs@.len());
                    assert(self.data@.len() == base.len());
                    assert(clip_len(base.len() as int, ls as int, pow(n, d1 as nat)) == la);
                }
                multiply_into_buffer_self(&mut self.data, os, stride, ls, la, &rhs.data, rs, lb, t);
                proof {
                    assert forall|j: int| 0 <= j < pow(n, d as nat) implies #[trigger] values(self.data@)[os + j] == conv_from(*t, base, rr, n, d as nat, j, d1 as nat) by {
                        lemma_kernel_term(*t, base, rr, n, d as nat, d1 as nat, j);
                        let k = os + j;
                        assert((k - os) == j);
                        assert(prev[k] == conv_from(*t, base, rr, n, d as nat, j, d1 as nat + 1));
                        let row = j / (stride as int);
                        if row < la {
                            assert(prev[ls + row] == mid[ls + row]);
                        }
                        lemma_conv_from_reduced(*t, base, rr, n, d as nat, j, d1 as nat + 1);
                        let term = block_term(*t, base, rr, n, d as nat, d1 as nat, j);
                        if !(j % (stride as int) < lb && row < la) {
                            lemma_fadd_zero(conv_from(*t, base, rr, n, d as nat, j, d1 as nat + 1));
                        }
                    }
                    assert forall|k: int| 0 <= k < os implies #[trigger] values(self.data@)[k] == mid[k] by {
                        assert(values(self.data@)[k] == prev[k]);
                    }
                    assert forall|k: int| start_of_degree_spec(n, d as nat + 1) <= k < base.len() implies #[trigger] values(self.data@)[k] == mid[k] by {
                        assert(values(self.data@)[k] == kernel_value(*t, prev, prev, rr, os as int, stride as int, ls as int, rs as int, lb as int, la as int, 0, k));
                        vstd::arithmetic::div_mod::lemma_fundamental_div_mod(k - os, stride as int);
                        lemma_mod_bound(k - os, stride as int);
                        assert((k - os) / (stride as int) >= la) by (nonlinear_arith)
                            requires
                                k - os >= la * stride,
                                k - os == stride * ((k - os) / (stride as int)) + (k - os) % (stride as int),
                                (k - os) % (stride as int) < stride,
                                stride > 0,
                        ;
                    }
                }
            }
            proof {
                assert forall|k: int| start_of_degree_spec(n, d as nat) <= k < top implies #[trigger] values(self.data@)[k] == conv_at(*t, base, rr, n, k) by {
                    if k < start_of_degree_spec(n, d as nat + 1) {
                        lemma_index_degree(n, k, d as nat);
                        let j = k - os;
                        assert(values(self.data@)[os + j] == conv_from(*t, base, rr, n, d as nat, j, 0));
                    } else {
                        assert(values(self.data@)[k] == mid[k]);
                    }
                }
            }
        }
        proof {
            let target = multiply_spec(*t, start, rr, n, md as nat);
            assert(product_degree(n, start.len(), rr.len(), max_degree as nat) == md);
            assert forall|k: int| 0 <= k < target.len() implies #[trigger] self@[k] == target[k] by {
                self.lemma_view();
                if k < top {
                    let e = index_degree(n, k);
                    lemma_conv_from_congruence(*t, base, start, rr, n, e, k - start_of_degree_spec(n, e), 0);
                }
            }
            self.lemma_view();
            assert(self@ =~= target);
        }
        Ok(())
    }
    /// `self · rhs`, truncated at degree `to_degree`, as a new vector.
    pub fn multiply(&self, rhs: &Self, to_degree: Option<DegreeType>) -> (r: Result<Self, TensorError>)
        requires
            N >= 2,
            to_degree is Some ==> start_of_degree_spec(N as int, product_degree(N as int, self@.len(), rhs@.len(), to_degree->Some_0 as nat) + 1) <= usize::MAX,
        ensures
            to_degree is None ==> r == Err::<Self, TensorError>(TensorError::MissingTruncationDegree),
            to_degree is Some ==> r is Ok && r->Ok_0@ == accumulate_spec(
                Transform::Identity, Seq::<int>::empty(), self@, rhs@, N as int,
                product_degree(N as int, self@.len(), rhs@.len(), to_degree->Some_0 as nat)),
    {
        let mut result = Self::new();
        match result.multiply_and_add_into_impl(self, rhs, &Transform::Identity, to_degree) {
            Ok(()) => Ok(result),
            Err(e) => Err(e),
        }
    }

    /// `self := self · rhs`, truncated at degree `to_degree`.
    pub fn multiply_inplace(&mut self, rhs: &Self, to_degree: Option<DegreeType>) -> (r: Result<(), TensorError>)
        requires
            N >= 2,
            to_degree is Some ==> start_of_degree_spec(N as int, product_degree(N as int, old(self)@.len(), rhs@.len(), to_degree->Some_0 as nat) + 1) <= usize::MAX,
        ensures
            to_degree is None ==> r == Err::<(), TensorError>(TensorError::MissingTruncationDegree) && final(self)@ == old(self)@,
            to_degree is Some ==> r is Ok && final(self)@ == multiply_spec(
                Transform::Identity, old(self)@, rhs@, N as int,
                product_degree(N as int, old(self)@.len(), rhs@.len(), to_degree->Some_0 as nat)),
    {
        self.multiply_into_impl(rhs, &Transform::Identity, to_degree)
    }

    /// `self += lhs · rhs`, truncated at degree `to_degree`.
    pub fn add_mul(&mut self, lhs: &Self, rhs: &Self, to_degree: Option<DegreeType>) -> (r: Result<(), TensorError>)
        requires
            N >= 2,
            to_degree is Some ==> start_of_degree_spec(N as int, product_degree(N as int, lhs@.len(), rhs@.len(), to_degree->Some_0 as nat) + 1) <= usize::MAX,
        ensures
            to_degree is None ==> r == Err::<(), TensorError>(TensorError::MissingTruncationDegree) && final(self)@ == old(self)@,
            to_degree is Some ==> r is Ok && final(self)@ == accumulate_spec(
                Transform::Identity, old(self)@, lhs@, rhs@, N as int,
                product_degree(N as int, lhs@.len(), rhs@.len(), to_degree->Some_0 as nat)),
    {
        self.multiply_and_add_into_impl(lhs, rhs, &Transform::Identity, to_degree)
    }

    /// `self -= lhs · rhs`, truncated at degree `to_degree`.
    pub fn sub_mul(&mut self, lhs: &Self, rhs: &Self, to_degree: Option<DegreeType>) -> (r: Result<(), TensorError>)
        requires
            N >= 2,
            to_degree is Some ==> start_of_degree_spec(N as int, product_degree(N as int, lhs@.len(), rhs@.len(), to_degree->Some_0 as nat) + 1) <= usize::MAX,
        ensures
            to_degree is None ==> r == Err::<(), TensorError>(TensorError::MissingTruncationDegree) && final(self)@ == old(self)@,
            to_degree is Some ==> r is Ok && final(self)@ == accumulate_spec(
                Transform::Negate, old(self)@, lhs@, rhs@, N as int,
                product_degree(N as int, lhs@.len(), rhs@.len(), to_degree->Some_0 as nat)),
    {
        self.multiply_and_add_into_impl(lhs, rhs, &Transform::Negate, to_degree)
    }

    /// The commutator `self · rhs - rhs · self`, truncated at degree `to_degree`.
    pub fn commutator(&self, rhs: &Self, to_degree: Option<DegreeType>) -> (r: Result<Self, TensorError>)
        requires
            N >= 2,
            to_degree is Some ==> start_of_degree_spec(N as int, product_degree(N as int, self@.len(), rhs@.len(), to_degree->Some_0 as nat) + 1) <= usize::MAX,
        ensures
            to_degree is None ==> r == Err::<Self, TensorError>(TensorError::MissingTruncationDegree),
            to_degree is Some ==> r is Ok && r->Ok_0@ == commutator_spec(self@, rhs@, N as int, to_degree->Some_0 as nat),
    {
        let mut result = Self::new();
        match result.add_mul(self, rhs, to_degree) {
            Ok(()) => {},
            Err(e) => {
                return Err(e);
            },
        }
        match result.sub_mul(rhs, self, to_degree) {
            Ok(()) => Ok(result),
            Err(e) => Err(e),
        }
    }

    /// `self := scalar * (self · rhs)`, truncated at degree `to_degree`.
    pub fn mul_scal_lprod(&mut self, rhs: &Self, scalar: Scalar, to_degree: Option<DegreeType>) -> (r: Result<(), TensorError>)
        requires
            N >= 2,
            to_degree is Some ==> start_of_degree_spec(N as int, product_degree(N as int, old(self)@.len(), rhs@.len(), to_degree->Some_0 as nat) + 1) <= usize::MAX,
        ensures
            to_degree is None ==> r == Err::<(), TensorError>(TensorError::MissingTruncationDegree) && final(self)@ == old(self)@,
            to_degree is Some ==> r is Ok && final(self)@ == multiply_spec(
                Transform::ScaleBy(scalar), old(self)@, rhs@, N as int,
                product_degree(N as int, old(self)@.len(), rhs@.len(), to_degree->Some_0 as nat)),
    {
        self.multiply_into_impl(rhs, &Transform::ScaleBy(scalar), to_degree)
    }

    /// `self := (self · rhs) * scalar`, truncated at degree `to_degree`.
    pub fn mul_scal_rprod(&mut self, rhs: &Self, scalar: Scalar, to_degree: Option<DegreeType>) -> (r: Result<(), TensorError>)
        requires
            N >= 2,
            to_degree is Some ==> start_of_degree_spec(N as int, product_degree(N as int, old(self)@.len(), rhs@.len(), to_degree->Some_0 as nat) + 1) <= usize::MAX,
        ensures
            to_degree is None ==> r == Err::<(), TensorError>(TensorError::MissingTruncationDegree) && final(self)@ == old(self)@,
            to_degree is Some ==> r is Ok && final(self)@ == multiply_spec(
                Transform::ScaleBy(scalar), old(self)@, rhs@, N as int,
                product_degree(N as int, old(self)@.len(), rhs@.len(), to_degree->Some_0 as nat)),
    {
        self.multiply_into_impl(rhs, &Transform::ScaleBy(scalar), to_degree)
    }

    /// `self := (self · rhs) / rational`, truncated at degree `to_degree`.
    pub fn mul_rat_ldiv(&mut self, rhs: &Self, rational: Scalar, to_degree: Option<DegreeType>) -> (r: Result<(), TensorError>)
        requires
            N >= 2,
            to_degree is Some ==> start_of_degree_spec(N as int, product_degree(N as int, old(self)@.len(), rhs@.len(), to_degree->Some_0 as nat) + 1) <= usize::MAX,
        ensures
            to_degree is None ==> r == Err::<(), TensorError>(TensorError::MissingTruncationDegree) && final(self)@ == old(self)@,
            to_degree is Some ==> r is Ok && final(self)@ == multiply_spec(
                Transform::DivideBy(rational), old(self)@, rhs@, N as int,
                product_degree(N as int, old(self)@.len(), rhs@.len(), to_degree->Some_0 as nat)),
    {
        self.multiply_into_impl(rhs, &Transform::DivideBy(rational), to_degree)
    }

    /// `self := (self · rhs) / rational`, truncated at degree `to_degree`.
    pub fn mul_rat_rdiv(&mut self, rhs: &Self, rational: Scalar, to_degree: Option<DegreeType>) -> (r: Result<(), TensorError>)
        requires
            N >= 2,
            to_degree is Some ==> start_of_degree_spec(N as int, product_degree(N as int, old(self)@.len(), rhs@.len(), to_degree->Some_0 as nat) + 1) <= usize::MAX,
        ensures
            to_degree is None ==> r == Err::<(), TensorError>(TensorError::MissingTruncationDegree) && final(self)@ == old(self)@,
            to_degree is Some ==> r is Ok && final(self)@ == multiply_spec(
                Transform::DivideBy(rational), old(self)@, rhs@, N as int,
                product_degree(N as int, old(self)@.len(), rhs@.len(), to_degree->Some_0 as nat)),
    {
        self.multiply_into_impl(rhs, &Transform::DivideBy(rational), to_degree)
    }
}

} // verus!
