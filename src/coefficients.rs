//! The coefficient field: integers modulo the Mersenne prime `2^61 - 1`.
//!
//! Arithmetic is exact, so the algebraic laws of the tensor algebra hold on the nose. Division
//! by a value `b` multiplies by `b^(p - 2) mod p`, the inverse of `b` for `b` not divisible by `p`.
use vstd::arithmetic::div_mod::{lemma_mod_bound, lemma_mul_mod_noop_left, lemma_mul_mod_noop_right, lemma_small_mod};
use vstd::arithmetic::power::{pow, lemma_pow_mod_noop, lemma_pow_multiplies, lemma_square_is_pow2};
use crate::DegreeType;
use vstd::prelude::*;

verus! {

/// The prime modulus `2^61 - 1`.
pub const MODULUS: u64 = 0x1fff_ffff_ffff_ffff;

/// Sum in the field.
pub open spec fn fadd(a: int, b: int) -> int {
    (a + b) % (MODULUS as int)
}

/// Difference in the field.
pub open spec fn fsub(a: int, b: int) -> int {
    (a - b) % (MODULUS as int)
}

/// Product in the field.
pub open spec fn fmul(a: int, b: int) -> int {
    (a * b) % (MODULUS as int)
}

/// Additive inverse in the field.
pub open spec fn fneg(a: int) -> int {
    (-a) % (MODULUS as int)
}

/// `a^(p - 2) mod p`: the multiplicative inverse of `a` when `p` does not divide `a`.
pub open spec fn finv(a: int) -> int {
    pow(a, (MODULUS - 2) as nat) % (MODULUS as int)
}

/// Quotient in the field: `a` times the inverse of `b`.
pub open spec fn fdiv(a: int, b: int) -> int {
    fmul(a, finv(b))
}

/// An element of the field of integers modulo `MODULUS`.
#[derive(Clone, Copy, Debug, PartialEq, Eq, Structural)]
pub struct Scalar {
    v: u64,
}

impl View for Scalar {
    type V = int;

    /// The residue in `[0, MODULUS)`.
    closed spec fn view(&self) -> int {
        self.v as int % (MODULUS as int)
    }
}

/// `a * b mod p` on residues.
fn mul_mod(a: u64, b: u64) -> (r: u64)
    requires
        a < MODULUS,
        b < MODULUS,
    ensures
        r == fmul(a as int, b as int),
        r < MODULUS,
{
    proof {
        assert(a as int * b as int <= (MODULUS as int) * (MODULUS as int)) by (nonlinear_arith)
            requires
                a < MODULUS,
                b < MODULUS,
        ;
        lemma_mod_bound(a as int * b as int, MODULUS as int);
    }
    ((a as u128 * b as u128) % (MODULUS as u128)) as u64
}

/// `a^e mod p` by repeated squaring.
fn pow_mod(a: u64, e: u64) -> (r: u64)
    requires
        a < MODULUS,
    ensures
        r == pow(a as int, e as nat) % (MODULUS as int),
        r < MODULUS,
{
    let ghost m = MODULUS as int;
    let mut acc: u64 = 1;
    let mut base: u64 = a;
    let mut k: u64 = e;
    proof {
        reveal(pow);
        lemma_small_mod(1, MODULUS as nat);
    }
    while k > 0
        invariant
            m == MODULUS as int,
            acc < MODULUS,
            base < MODULUS,
            (acc * pow(base as int, k as nat)) % m == pow(a as int, e as nat) % m,
        decreases k,
    {
        let ghost k0 = k;
        let ghost b0 = base as int;
        let ghost acc0 = acc as int;
        let half = k / 2;
        proof {
            lemma_square_is_pow2(b0);
            lemma_pow_multiplies(b0, 2, half as nat);
            lemma_pow_mod_noop(b0 * b0, half as nat, m);
            assert(pow(b0, k0 as nat) == b0 * pow(b0, (k0 - 1) as nat)) by {
                reveal(pow);
            }
        }
        if k % 2 == 1 {
            acc = mul_mod(acc, base);
            proof {
                assert(2 * half == (k0 - 1) as nat);
                lemma_mul_mod_noop_left(acc0 * b0, pow(b0, (k0 - 1) as nat), m);
                lemma_mul_mod_noop_right(acc as int, pow(b0 * b0, half as nat), m);
                assert((acc0 * b0) * pow(b0, (k0 - 1) as nat) == acc0 * (b0 * pow(b0, (k0 - 1) as nat))) by (nonlinear_arith);
            }
        } else {
            proof {
                assert(2 * half == k0);
                lemma_mul_mod_noop_right(acc as int, pow(b0 * b0, half as nat), m);
            }
        }
        base = mul_mod(base, base);
        k = half;
        proof {
            lemma_mul_mod_noop_right(acc as int, pow(base as int, k as nat), m);
        }
    }
    proof {
        reveal(pow);
        lemma_small_mod(acc as nat, MODULUS as nat);
    }
    acc
}

impl Scalar {
    /// The element whose residue is `i mod MODULUS`.
    pub closed spec fn from_int(i: int) -> Scalar {
        Scalar { v: (i % (MODULUS as int)) as u64 }
    }

    /// The residue of `from_int(i)` is `i mod MODULUS`.
    pub proof fn lemma_from_int(i: int)
        ensures
            Scalar::from_int(i)@ == i % (MODULUS as int),
    {
        lemma_mod_bound(i, MODULUS as int);
        lemma_small_mod((i % (MODULUS as int)) as nat, MODULUS as nat);
    }

    /// The residue is below the modulus.
    pub proof fn lemma_range(&self)
        ensures
            0 <= self@ < MODULUS,
    {
        lemma_mod_bound(self.v as int, MODULUS as int);
    }

    /// The element `0`.
    pub fn zero() -> (r: Scalar)
        ensures
            r@ == 0,
    {
        Scalar { v: 0 }
    }

    /// The element `1`.
    pub fn one() -> (r: Scalar)
        ensures
            r@ == 1,
    {
        Scalar { v: 1 }
    }

    /// The element `-1`.
    pub fn mone() -> (r: Scalar)
        ensures
            r@ == fneg(1),
    {
        Scalar { v: MODULUS - 1 }
    }

    /// The residue of an integer.
    pub fn from_i64(x: i64) -> (r: Scalar)
        ensures
            r@ == x as int % (MODULUS as int),
    {
        let m = MODULUS as i128;
        let v = ((x as i128 % m) + m) % m;
        proof {
            lemma_mod_bound(x as int, MODULUS as int);
            vstd::arithmetic::div_mod::lemma_mod_add_multiples_vanish(x as int, MODULUS as int);
        }
        Scalar { v: v as u64 }
    }

    /// The residue of a degree, as used when dividing by a degree.
    pub fn from_degree(deg: u32) -> (r: Scalar)
        ensures
            r@ == deg as int,
            r == Scalar::from_int(deg as int),
    {
        proof {
            lemma_small_mod(deg as nat, MODULUS as nat);
        }
        Scalar { v: deg as u64 }
    }

    /// The residue, as an integer in `[0, MODULUS)`.
    pub fn value(&self) -> (r: u64)
        ensures
            r == self@,
    {
        proof {
            use_type_invariant(self);
            lemma_small_mod(self.v as nat, MODULUS as nat);
        }
        self.v
    }

    /// `-self`.
    pub fn uminus(&self) -> (r: Scalar)
        ensures
            r@ == fneg(self@),
    {
        proof {
            use_type_invariant(self);
            lemma_small_mod(self.v as nat, MODULUS as nat);
        }
        if self.v == 0 {
            Scalar { v: 0 }
        } else {
            let r = Scalar { v: MODULUS - self.v };
            proof {
                lemma_small_mod((MODULUS - self.v) as nat, MODULUS as nat);
                vstd::arithmetic::div_mod::lemma_mod_add_multiples_vanish(-(self.v as int), MODULUS as int);
            }
            r
        }
    }

    /// The inverse `self^(p - 2)`.
    pub fn inv(&self) -> (r: Scalar)
        ensures
            r@ == finv(self@),
    {
        proof {
            use_type_invariant(self);
            lemma_small_mod(self.v as nat, MODULUS as nat);
        }
        let v = pow_mod(self.v, MODULUS - 2);
        proof {
            lemma_small_mod(v as nat, MODULUS as nat);
        }
        Scalar { v }
    }

    /// `self + other`.
    pub fn add(&self, other: &Scalar) -> (r: Scalar)
        ensures
            r@ == fadd(self@, other@),
    {
        proof {
            use_type_invariant(self);
            use_type_invariant(other);
            lemma_small_mod(self.v as nat, MODULUS as nat);
            lemma_small_mod(other.v as nat, MODULUS as nat);
        }
        let s = self.v + other.v;
        let v = if s >= MODULUS { s - MODULUS } else { s };
        proof {
            lemma_small_mod(v as nat, MODULUS as nat);
            if s >= MODULUS {
                vstd::arithmetic::div_mod::lemma_mod_sub_multiples_vanish(s as int, MODULUS as int);
            }
        }
        Scalar { v }
    }

    /// `self - other`.
    pub fn sub(&self, other: &Scalar) -> (r: Scalar)
        ensures
            r@ == fsub(self@, other@),
    {
        proof {
            use_type_invariant(self);
            use_type_invariant(other);
            lemma_small_mod(self.v as nat, MODULUS as nat);
            lemma_small_mod(other.v as nat, MODULUS as nat);
        }
        let v = if self.v >= other.v { self.v - other.v } else { self.v + (MODULUS - other.v) };
        proof {
            lemma_small_mod(v as nat, MODULUS as nat);
            if self.v < other.v {
                vstd::arithmetic::div_mod::lemma_mod_add_multiples_vanish(self.v as int - other.v as int, MODULUS as int);
            }
        }
        Scalar { v }
    }

    /// `self * other`.
    pub fn mul(&self, other: &Scalar) -> (r: Scalar)
        ensures
            r@ == fmul(self@, other@),
    {
        proof {
            use_type_invariant(self);
            use_type_invariant(other);
            lemma_small_mod(self.v as nat, MODULUS as nat);
            lemma_small_mod(other.v as nat, MODULUS as nat);
        }
        let v = mul_mod(self.v, other.v);
        proof {
            lemma_small_mod(v as nat, MODULUS as nat);
        }
        Scalar { v }
    }

    /// `self / other`: `self` times the inverse of `other`.
    pub fn div(&self, other: &Scalar) -> (r: Scalar)
        ensures
            r@ == fdiv(self@, other@),
    {
        let i = other.inv();
        self.mul(&i)
    }

    /// `self += other`.
    pub fn add_inplace(&mut self, other: &Scalar)
        ensures
            final(self)@ == fadd(old(self)@, other@),
    {
        *self = self.add(other);
    }

    /// `self -= other`.
    pub fn sub_inplace(&mut self, other: &Scalar)
        ensures
            final(self)@ == fsub(old(self)@, other@),
    {
        *self = self.sub(other);
    }

    /// `self *= other`.
    pub fn mul_inplace(&mut self, other: &Scalar)
        ensures
            final(self)@ == fmul(old(self)@, other@),
    {
        *self = self.mul(other);
    }

    /// `self /= other`.
    pub fn div_inplace(&mut self, other: &Scalar)
        ensures
            final(self)@ == fdiv(old(self)@, other@),
    {
        *self = self.div(other);
    }

    #[verifier::type_invariant]
    spec fn inv_in_range(self) -> bool {
        self.v < MODULUS
    }
}

/// A coefficient type.
pub trait CoefficientBase {
}

/// A coefficient type whose multiplication commutes.
pub trait Commutative {
}

/// Coefficients that a degree converts into, for dividing by a degree.
pub trait FromDegreeType: Sized {
    /// The value a degree converts to.
    spec fn degree_value(deg: DegreeType) -> int;

    /// The coefficient of a degree.
    fn from_degree(deg: &DegreeType) -> (r: Self)
        ensures
            r == Self::from_int_spec(Self::degree_value(*deg)),
    ;

    /// The coefficient of an integer.
    spec fn from_int_spec(i: int) -> Self;
}

/// A field of coefficients with its arithmetic, stated on residues.
pub trait CoefficientField: CoefficientBase + Commutative + FromDegreeType {
    /// The value of a coefficient.
    spec fn residue(&self) -> int;

    /// Zero.
    fn zero() -> (r: Self)
        ensures
            r.residue() == 0,
    ;

    /// One.
    fn one() -> (r: Self)
        ensures
            r.residue() == 1,
    ;

    /// Minus one.
    fn mone() -> (r: Self)
        ensures
            r.residue() == fneg(1),
    ;

    /// The additive inverse.
    fn uminus(&self) -> (r: Self)
        ensures
            r.residue() == fneg(self.residue()),
    ;

    /// The sum.
    fn add(&self, other: &Self) -> (r: Self)
        ensures
            r.residue() == fadd(self.residue(), other.residue()),
    ;

    /// The difference.
    fn sub(&self, other: &Self) -> (r: Self)
        ensures
            r.residue() == fsub(self.residue(), other.residue()),
    ;

    /// The product.
    fn mul(&self, other: &Self) -> (r: Self)
        ensures
            r.residue() == fmul(self.residue(), other.residue()),
    ;

    /// The quotient.
    fn div(&self, other: &Self) -> (r: Self)
        ensures
            r.residue() == fdiv(self.residue(), other.residue()),
    ;
}

impl CoefficientBase for Scalar {
}

impl Commutative for Scalar {
}

impl FromDegreeType for Scalar {
    open spec fn degree_value(deg: DegreeType) -> int {
        deg as int
    }

    open spec fn from_int_spec(i: int) -> Scalar {
        Scalar::from_int(i)
    }

    fn from_degree(deg: &DegreeType) -> (r: Scalar) {
        Scalar::from_degree(*deg)
    }
}

impl CoefficientField for Scalar {
    open spec fn residue(&self) -> int {
        self@
    }

    fn zero() -> (r: Scalar) {
        Scalar::zero()
    }

    fn one() -> (r: Scalar) {
        Scalar::one()
    }

    fn mone() -> (r: Scalar) {
        Scalar::mone()
    }

    fn uminus(&self) -> (r: Scalar) {
        Scalar::uminus(self)
    }

    fn add(&self, other: &Scalar) -> (r: Scalar) {
        Scalar::add(self, other)
    }

    fn sub(&self, other: &Scalar) -> (r: Scalar) {
        Scalar::sub(self, other)
    }

    fn mul(&self, other: &Scalar) -> (r: Scalar) {
        Scalar::mul(self, other)
    }

    fn div(&self, other: &Scalar) -> (r: Scalar) {
        Scalar::div(self, other)
    }
}

} // verus!
