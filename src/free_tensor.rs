//! Free tensors of bounded degree and their exponential and logarithm series.
//!
//! All three series are evaluated by Horner's rule, from the highest term down, so no
//! factorial-sized coefficient is ever formed.
use crate::algebra::{lemma_product_degree_fits, multiply_spec, product_degree, Transform};
use crate::coefficients::Scalar;
use crate::dense_vector::{add_spec, divide_spec, sub_spec, zeros, SimpleDenseVector};
use crate::tensor_basis::{lemma_start_of_degree_monotone, start_of_degree_spec, word_index};
use crate::tensor_key::TensorKey;
use crate::DegreeType;
use vstd::prelude::*;

verus! {

/// The unit of the algebra: the empty word with coefficient one.
pub open spec fn unit_spec() -> Seq<int> {
    seq![1int]
}

/// `x` with its empty-word coefficient set to zero.
pub open spec fn strip_unit(x: Seq<int>) -> Seq<int> {
    if x.len() > 0 {
        x.update(0, 0)
    } else {
        x
    }
}

/// The Horner value of the exponential after the steps `max - 1` down to `k`:
/// `r := (r · x) / k + 1`, starting from the unit.
pub open spec fn exp_from(x: Seq<int>, n: int, max: nat, k: nat) -> Seq<int>
    decreases max - k,
{
    if k >= max {
        unit_spec()
    } else {
        let a = exp_from(x, n, max, k + 1);
        add_spec(
            multiply_spec(Transform::DivideBy(Scalar::from_int(k as int)), a, x, n, product_degree(n, a.len(), x.len(), max)),
            unit_spec(),
        )
    }
}

/// The Horner value of the logarithm after the steps `max - 1` down to `k`:
/// `r := (r ± 1/k) · y`, the sign `+` for odd `k`, starting from zero.
pub open spec fn log_from(y: Seq<int>, n: int, max: nat, k: nat) -> Seq<int>
    decreases max - k,
{
    if k >= max {
        zeros(1)
    } else {
        let a = log_from(y, n, max, k + 1);
        let b = if k % 2 == 0 {
            sub_spec(a, divide_spec(unit_spec(), k as int))
        } else {
            add_spec(a, divide_spec(unit_spec(), k as int))
        };
        multiply_spec(Transform::Identity, b, y, n, product_degree(n, b.len(), y.len(), max))
    }
}

/// The Horner value of `s0 · exp(y)` after the steps `max - 1` down to `k`:
/// `r := (r · y) / k + s0`, each product kept up to degree `max - k + 1`.
pub open spec fn fmexp_from(s0: Seq<int>, y: Seq<int>, n: int, max: nat, k: nat) -> Seq<int>
    decreases max - k,
{
    if k >= max {
        s0
    } else {
        let a = fmexp_from(s0, y, n, max, k + 1);
        add_spec(
            multiply_spec(Transform::DivideBy(Scalar::from_int(k as int)), a, y, n, product_degree(n, a.len(), y.len(), (max - k + 1) as nat)),
            s0,
        )
    }
}

/// A free tensor over `N` letters in the algebra truncated at degree `D`.
pub struct DenseTensor<const N: u32, const D: u32>(pub SimpleDenseVector<N>);

impl<const N: u32, const D: u32> View for DenseTensor<N, D> {
    type V = Seq<int>;

    open spec fn view(&self) -> Seq<int> {
        self.0@
    }
}

/// The vector of the empty word.
fn unit_vector<const N: u32>() -> (r: SimpleDenseVector<N>)
    requires
        N >= 2,
    ensures
        r@ == unit_spec(),
{
    let k = TensorKey::<N>::new();
    proof {
        crate::tensor_basis::lemma_start_of_degree_step(N as int, 0);
        assert(start_of_degree_spec(N as int, 1) == 1);
        assert(word_index(N as int, k@) == 0);
    }
    let r = SimpleDenseVector::from_key(&k);
    proof {
        assert(r@ =~= unit_spec());
    }
    r
}

impl<const N: u32, const D: u32> DenseTensor<N, D> {
    /// The degree at which the algebra is truncated.
    pub fn max_degree() -> (r: DegreeType)
        ensures
            r == D,
    {
        D
    }

    /// Wraps a vector.
    pub fn from_vector(v: SimpleDenseVector<N>) -> (r: Self)
        ensures
            r@ == v@,
    {
        DenseTensor(v)
    }

    /// The underlying vector.
    pub fn into_vector(self) -> (r: SimpleDenseVector<N>)
        ensures
            r@ == self@,
    {
        self.0
    }

    /// The exponential `1 + x + x^2/2! + ...`, truncated at degree `D`, by Horner's rule.
    pub fn exp(&self) -> (r: Self)
        requires
            N >= 2,
            start_of_degree_spec(N as int, D as nat + 1) <= usize::MAX,
        ensures
            r@ == exp_from(self@, N as int, D as nat, 1),
    {
        let tunit = unit_vector::<N>();
        let mut result = unit_vector::<N>();
        let mut i: u32 = D;
        while i > 1
            invariant
                N >= 2,
                start_of_degree_spec(N as int, D as nat + 1) <= usize::MAX,
                1 <= i <= D || (D == 0 && i == 0),
                tunit@ == unit_spec(),
                result@ == exp_from(self@, N as int, D as nat, i as nat),
                result@.len() >= 1,
            decreases i,
        {
            i = i - 1;
            let q = Scalar::from_degree(i);
            proof {
                lemma_product_degree_fits(N as int, result@.len(), self@.len(), D as nat);
            }
            let _ = result.mul_rat_rdiv(&self.0, q, Some(D));
            let _ = result.add_inplace(&tunit);
        }
        DenseTensor(result)
    }

    /// The logarithm `y - y^2/2 + y^3/3 - ...` of `1 + y`, where `y` is `self` without its
    /// empty-word coefficient, truncated at degree `D`, by Horner's rule.
    pub fn log(&self) -> (r: Self)
        requires
            N >= 2,
            start_of_degree_spec(N as int, D as nat + 1) <= usize::MAX,
        ensures
            r@ == log_from(strip_unit(self@), N as int, D as nat, 1),
    {
        let kunit = TensorKey::<N>::new();
        let tunit = unit_vector::<N>();
        let mut x = self.0.to_owned();
        proof {
            crate::tensor_basis::lemma_start_of_degree_step(N as int, 0);
            assert(start_of_degree_spec(N as int, 1) == 1);
            assert(kunit@.len() == 0);
            assert(word_index(N as int, kunit@) == 0);
        }
        x.erase(&kunit);
        proof {
            assert(x@ == strip_unit(self@));
        }
        let mut rv = SimpleDenseVector::<N>::from_dimension(1);
        let mut i: u32 = D;
        while i > 1
            invariant
                N >= 2,
                start_of_degree_spec(N as int, D as nat + 1) <= usize::MAX,
                1 <= i <= D || (D == 0 && i == 0),
                tunit@ == unit_spec(),
                x@ == strip_unit(self@),
                rv@ == log_from(x@, N as int, D as nat, i as nat),
                rv@.len() >= 1,
            decreases i,
        {
            i = i - 1;
            let q = Scalar::from_degree(i);
            if i % 2 == 0 {
                let _ = rv.sub_scalar_rdivide(&tunit, &q);
            } else {
                let _ = rv.add_scalar_rdivide(&tunit, &q);
            }
            proof {
                lemma_product_degree_fits(N as int, rv@.len(), x@.len(), D as nat);
            }
            let _ = rv.multiply_inplace(&x, Some(D));
        }
        DenseTensor(rv)
    }

    /// `self := self · exp(y)`, where `y` is `arg` without its empty-word coefficient, by
    /// Horner's rule; the product at step `i` is kept up to degree `D - i + 1`, the most the
    /// remaining steps can use.
    pub fn fmexp(&mut self, arg: &Self)
        requires
            N >= 2,
            start_of_degree_spec(N as int, D as nat + 1) <= usize::MAX,
        ensures
            final(self)@ == fmexp_from(old(self)@, strip_unit(arg@), N as int, D as nat, 1),
    {
        let old_self = self.0.to_owned();
        let kunit = TensorKey::<N>::new();
        let mut x = arg.0.to_owned();
        proof {
            crate::tensor_basis::lemma_start_of_degree_step(N as int, 0);
            assert(start_of_degree_spec(N as int, 1) == 1);
            assert(kunit@.len() == 0);
            assert(word_index(N as int, kunit@) == 0);
        }
        x.erase(&kunit);
        proof {
            assert(x@ == strip_unit(arg@));
        }
        let mut i: u32 = D;
        while i > 1
            invariant
                N >= 2,
                start_of_degree_spec(N as int, D as nat + 1) <= usize::MAX,
                1 <= i <= D || (D == 0 && i == 0),
                x@ == strip_unit(arg@),
                old_self@ == old(self)@,
                self@ == fmexp_from(old_self@, x@, N as int, D as nat, i as nat),
                self@.len() >= old_self@.len(),
            decreases i,
        {
            i = i - 1;
            let q = Scalar::from_degree(i);
            proof {
                lemma_start_of_degree_monotone(N as int, (D - i + 1) as nat + 1, D as nat + 1);
                lemma_product_degree_fits(N as int, self@.len(), x@.len(), (D - i + 1) as nat);
            }
            let _ = self.0.mul_rat_rdiv(&x, q, Some(D - i + 1));
            let _ = self.0.add_inplace(&old_self);
        }
    }
}

} // verus!
