//! Dense coefficient vectors addressed through the tensor basis.
//!
//! The coefficient of the word at basis position `i` is entry `i`; positions past the end hold
//! zero. The buffer only grows.
use crate::coefficients::{fadd, fdiv, fmul, fneg, fsub, Scalar, MODULUS};
use vstd::arithmetic::div_mod::lemma_small_mod;
use crate::tensor_basis::{lemma_start_of_degree_monotone, lemma_start_of_degree_lower, start_of_degree_spec, word_index, TensorBasis};
use crate::tensor_key::{max_depth_spec, TensorKey};
use crate::{DegreeType, DimensionType, TensorError};
use vstd::prelude::*;

verus! {

/// Entry `i` of `s`, or zero past its end.
pub open spec fn coeff(s: Seq<int>, i: int) -> int {
    if 0 <= i < s.len() {
        s[i]
    } else {
        0
    }
}

/// `n` zero coefficients.
pub open spec fn zeros(n: nat) -> Seq<int> {
    Seq::new(n, |i: int| 0)
}

/// The degree of a vector of `len` entries: the degree whose block holds its last entry
/// (zero for an empty vector).
pub open spec fn vector_degree(n: int, len: nat) -> nat {
    if len == 0 {
        0
    } else {
        choose|d: nat| #[trigger] start_of_degree_spec(n, d) <= len - 1 < start_of_degree_spec(n, d + 1)
    }
}

/// The degree of a non-empty vector is the degree whose block holds its last entry.
pub proof fn lemma_vector_degree(n: int, len: nat, d: nat)
    requires
        n >= 2,
        len > 0,
        start_of_degree_spec(n, d) <= len - 1 < start_of_degree_spec(n, d + 1),
    ensures
        vector_degree(n, len) == d,
{
    let e = vector_degree(n, len);
    assert(start_of_degree_spec(n, e) <= len - 1 < start_of_degree_spec(n, e + 1));
    if e < d {
        lemma_start_of_degree_monotone(n, e + 1, d);
    } else if d < e {
        lemma_start_of_degree_monotone(n, d + 1, e);
    }
}

/// A vector held in memory has degree at most 64.
pub proof fn lemma_vector_degree_bound(n: int, len: nat)
    requires
        n >= 2,
        len <= usize::MAX,
    ensures
        vector_degree(n, len) <= 64,
{
    if len > 0 {
        lemma_start_of_degree_lower(n, 65);
        vstd::arithmetic::power2::lemma2_to64();
        vstd::arithmetic::power2::lemma_pow2_strictly_increases(64, 65);
        crate::tensor_basis::lemma_index_degree_exists(n, len - 1, 65);
        let d = vector_degree(n, len);
        crate::tensor_basis::lemma_index_degree(n, len - 1, crate::tensor_basis::index_degree(n, len - 1));
        assert(start_of_degree_spec(n, d) <= len - 1 < start_of_degree_spec(n, d + 1));
        lemma_start_of_degree_lower(n, d);
        vstd::arithmetic::power2::lemma2_to64();
        if d > 64 {
            vstd::arithmetic::power2::lemma_pow2_strictly_increases(64, d);
        }
    }
}

/// The sum of the values `vals[m]` whose position `idx[m]` is `i`.
pub open spec fn sum_at(idx: Seq<int>, vals: Seq<int>, i: int) -> int
    decreases idx.len(),
{
    if idx.len() == 0 {
        0
    } else {
        let m = idx.len() - 1;
        fadd(
            sum_at(idx.subrange(0, m), vals.subrange(0, m), i),
            if idx[m] == i { vals[m] } else { 0 },
        )
    }
}

/// `s` with entry `i` set to `v`, grown with zeros to reach `i`.
pub open spec fn set_grow(s: Seq<int>, i: int, v: int) -> Seq<int> {
    let len = if i < s.len() { s.len() as int } else { i + 1 };
    Seq::new(len as nat, |k: int| if k == i { v } else { coeff(s, k) })
}

/// `s` after setting each position `idx[m]` to `vals[m]` in turn.
pub open spec fn set_all(s: Seq<int>, idx: Seq<int>, vals: Seq<int>) -> Seq<int>
    decreases idx.len(),
{
    if idx.len() == 0 {
        s
    } else {
        let m = idx.len() - 1;
        set_grow(set_all(s, idx.subrange(0, m), vals.subrange(0, m)), idx[m], vals[m])
    }
}

/// The basis positions of the keys of `pairs`.
pub open spec fn pair_indices<const N: u32>(pairs: Seq<(TensorKey<N>, Scalar)>) -> Seq<int> {
    Seq::new(pairs.len(), |m: int| word_index(N as int, pairs[m].0@))
}

/// The values of the scalars of `pairs`.
pub open spec fn pair_values<const N: u32>(pairs: Seq<(TensorKey<N>, Scalar)>) -> Seq<int> {
    Seq::new(pairs.len(), |m: int| pairs[m].1@)
}

/// Entry-wise sum over the entries of `a`.
pub open spec fn add_spec(a: Seq<int>, b: Seq<int>) -> Seq<int> {
    Seq::new(a.len(), |i: int| fadd(a[i], coeff(b, i)))
}

/// Entry-wise difference over the entries of `a`.
pub open spec fn sub_spec(a: Seq<int>, b: Seq<int>) -> Seq<int> {
    Seq::new(a.len(), |i: int| fsub(a[i], coeff(b, i)))
}

/// Every entry multiplied by `c`.
pub open spec fn scale_spec(a: Seq<int>, c: int) -> Seq<int> {
    Seq::new(a.len(), |i: int| fmul(a[i], c))
}

/// Every entry divided by `c`.
pub open spec fn divide_spec(a: Seq<int>, c: int) -> Seq<int> {
    Seq::new(a.len(), |i: int| fdiv(a[i], c))
}

/// Every entry negated.
pub open spec fn neg_spec(a: Seq<int>) -> Seq<int> {
    Seq::new(a.len(), |i: int| fneg(a[i]))
}

/// The values of a buffer of scalars.
pub open spec fn values(s: Seq<Scalar>) -> Seq<int> {
    Seq::new(s.len(), |i: int| s[i]@)
}

/// Every coefficient is a residue in `[0, MODULUS)`.
pub open spec fn reduced(s: Seq<int>) -> bool {
    forall|i: int| 0 <= i < s.len() ==> 0 <= #[trigger] s[i] < MODULUS
}

/// The values of a buffer are residues.
pub proof fn lemma_values_reduced(s: Seq<Scalar>)
    ensures
        reduced(values(s)),
{
    assert forall|i: int| 0 <= i < values(s).len() implies 0 <= #[trigger] values(s)[i] < MODULUS by {
        s[i].lemma_range();
    }
}

/// Writing one scalar writes its value.
pub proof fn lemma_values_update(s: Seq<Scalar>, i: int, c: Scalar)
    requires
        0 <= i < s.len(),
    ensures
        values(s.update(i, c)) == values(s).update(i, c@),
{
    assert(values(s.update(i, c)) =~= values(s).update(i, c@));
}

/// Appending one scalar appends its value.
pub proof fn lemma_values_push(s: Seq<Scalar>, c: Scalar)
    ensures
        values(s.push(c)) == values(s).push(c@),
{
    assert(values(s.push(c)) =~= values(s).push(c@));
}

/// A dense vector of coefficients over the words on `N` letters.
#[derive(Debug)]
pub struct SimpleDenseVector<const N: u32> {
    pub(crate) data: Vec<Scalar>,
}

impl<const N: u32> View for SimpleDenseVector<N> {
    type V = Seq<int>;

    closed spec fn view(&self) -> Seq<int> {
        values(self.data@)
    }
}

impl<const N: u32> SimpleDenseVector<N> {
    /// The view is the values of the buffer.
    pub(crate) proof fn lemma_view(&self)
        ensures
            self@ == values(self.data@),
    {
    }

    /// The coefficients are residues.
    pub proof fn lemma_reduced(&self)
        ensures
            reduced(self@),
    {
        lemma_values_reduced(self.data@);
    }

    /// The empty vector.
    pub fn new() -> (r: Self)
        ensures
            r@ == Seq::<int>::empty(),
    {
        let r = SimpleDenseVector { data: Vec::new() };
        proof {
            assert(r@ =~= Seq::<int>::empty());
        }
        r
    }

    /// The vector with the given coefficients.
    pub fn from(vec: Vec<Scalar>) -> (r: Self)
        ensures
            r@ == values(vec@),
    {
        SimpleDenseVector { data: vec }
    }

    /// The zero vector with `size` entries.
    pub fn from_dimension(size: DimensionType) -> (r: Self)
        ensures
            r@ == zeros(size as nat),
    {
        let mut data: Vec<Scalar> = Vec::with_capacity(size);
        let mut i: usize = 0;
        while i < size
            invariant
                i <= size,
                values(data@) =~= zeros(i as nat),
            decreases size - i,
        {
            let z = Scalar::zero();
            proof {
                lemma_values_push(data@, z);
            }
            data.push(z);
            i = i + 1;
        }
        SimpleDenseVector { data }
    }

    /// The zero vector holding every word of degree below `deg`.
    pub fn from_degree(deg: DegreeType) -> (r: Self)
        requires
            N >= 2,
            start_of_degree_spec(N as int, deg as nat) <= usize::MAX,
        ensures
            r@ == zeros(start_of_degree_spec(N as int, deg as nat) as nat),
    {
        let dim = TensorBasis::<N>::start_of_degree(deg);
        Self::from_dimension(dim)
    }

    /// The number of entries.
    pub fn size(&self) -> (r: DimensionType)
        ensures
            r == self@.len(),
    {
        self.data.len()
    }

    /// The entries.
    pub fn as_slice(&self) -> (r: &[Scalar])
        ensures
            values(r@) == self@,
    {
        self.data.as_slice()
    }

    /// The entry at position `i`.
    pub fn get_index(&self, i: DimensionType) -> (r: Scalar)
        requires
            i < self@.len(),
        ensures
            r@ == self@[i as int],
    {
        self.data[i]
    }

    /// Grows the vector to at least `new_dim` entries; new entries are zero.
    pub fn resize(&mut self, new_dim: DimensionType)
        ensures
            new_dim <= old(self)@.len() ==> final(self)@ == old(self)@,
            new_dim > old(self)@.len() ==> final(self)@ == old(self)@ + zeros((new_dim - old(self)@.len()) as nat),
    {
        let ghost start = self@;
        while self.data.len() < new_dim
            invariant
                self@.len() <= new_dim || self@ == start,
                self@.len() >= start.len(),
                self@ =~= start + zeros((self@.len() - start.len()) as nat),
            decreases new_dim - self.data.len(),
        {
            let z = Scalar::zero();
            proof {
                lemma_values_push(self.data@, z);
            }
            self.data.push(z);
        }
    }

    /// The degree of the vector: that of the block holding its last entry.
    pub fn degree(&self) -> (r: DegreeType)
        requires
            N >= 2,
        ensures
            r == vector_degree(N as int, self@.len()),
    {
        let size = self.data.len();
        if size == 0 {
            0
        } else {
            let d = TensorBasis::<N>::index_to_degree(size - 1);
            proof {
                lemma_vector_degree(N as int, size as nat, d as nat);
            }
            d
        }
    }

    /// The vector `scalar * key`: zero up to the degree of `key`, `scalar` at its position.
    pub fn from_key_scalar(key: &TensorKey<N>, scalar: Scalar) -> (r: Self)
        requires
            N >= 2,
            key.wf(),
            start_of_degree_spec(N as int, key@.len() + 1) <= usize::MAX,
        ensures
            r@ == zeros(start_of_degree_spec(N as int, key@.len() + 1) as nat).update(word_index(N as int, key@), scalar@),
    {
        let size = TensorBasis::<N>::vector_dimension_for_key(key);
        let mut v = Self::from_dimension(size);
        let idx = TensorBasis::<N>::key_to_index(key);
        proof {
            assert(v.data@.len() == v@.len());
            lemma_values_update(v.data@, idx as int, scalar);
        }
        v.data.set(idx, scalar);
        proof {
            assert(v@ =~= zeros(size as nat).update(idx as int, scalar@));
        }
        v
    }

    /// The vector of the single word `key` with coefficient one.
    pub fn from_key(key: &TensorKey<N>) -> (r: Self)
        requires
            N >= 2,
            key.wf(),
            start_of_degree_spec(N as int, key@.len() + 1) <= usize::MAX,
        ensures
            r@ == zeros(start_of_degree_spec(N as int, key@.len() + 1) as nat).update(word_index(N as int, key@), 1),
    {
        Self::from_key_scalar(key, Scalar::one())
    }

    /// Swaps the contents of two vectors.
    pub fn swap(&mut self, other: &mut Self)
        ensures
            final(self)@ == old(other)@,
            final(other)@ == old(self)@,
    {
        std::mem::swap(&mut self.data, &mut other.data);
    }

    /// A copy of the vector.
    pub fn to_owned(&self) -> (r: Self)
        ensures
            r@ == self@,
    {
        let mut data: Vec<Scalar> = Vec::with_capacity(self.data.len());
        let mut i: usize = 0;
        while i < self.data.len()
            invariant
                i <= self.data@.len(),
                data@ =~= self.data@.subrange(0, i as int),
            decreases self.data@.len() - i,
        {
            data.push(self.data[i]);
            i = i + 1;
        }
        proof {
            assert(data@ =~= self.data@);
        }
        SimpleDenseVector { data }
    }

    /// Removes every entry.
    pub fn clear(&mut self)
        ensures
            final(self)@ == Seq::<int>::empty(),
    {
        self.data.clear();
        proof {
            assert(self@ =~= Seq::<int>::empty());
        }
    }

    /// The coefficient of `key`, if the vector reaches its position.
    pub fn get(&self, key: &TensorKey<N>) -> (r: Option<Scalar>)
        requires
            N >= 2,
            key.wf(),
            start_of_degree_spec(N as int, key@.len() + 1) <= usize::MAX,
        ensures
            word_index(N as int, key@) < self@.len() ==> r is Some && r->Some_0@ == self@[word_index(N as int, key@)],
            word_index(N as int, key@) >= self@.len() ==> r is None,
    {
        let idx = TensorBasis::<N>::key_to_index(key);
        if idx < self.data.len() {
            Some(self.data[idx])
        } else {
            None
        }
    }

    /// Sets the coefficient of `key` to `value`, growing the vector to reach its position.
    pub fn insert_single(&mut self, key: &TensorKey<N>, value: Scalar)
        requires
            N >= 2,
            key.wf(),
            start_of_degree_spec(N as int, key@.len() + 1) <= usize::MAX,
        ensures
            final(self)@ == set_grow(old(self)@, word_index(N as int, key@), value@),
    {
        let idx = TensorBasis::<N>::key_to_index(key);
        self.resize(idx + 1);
        proof {
            assert(self.data@.len() == self@.len());
            lemma_values_update(self.data@, idx as int, value);
        }
        self.data.set(idx, value);
        proof {
            assert(self@ =~= set_grow(old(self)@, idx as int, value@));
        }
    }

    /// Sets the coefficient of each key in turn; a later pair wins over an earlier one.
    pub fn insert(&mut self, pairs: &Vec<(TensorKey<N>, Scalar)>)
        requires
            N >= 2,
            forall|i: int| 0 <= i < pairs@.len() ==> (#[trigger] pairs@[i]).0.wf()
                && start_of_degree_spec(N as int, pairs@[i].0@.len() + 1) <= usize::MAX,
        ensures
            final(self)@ == set_all(old(self)@, pair_indices(pairs@), pair_values(pairs@)),
    {
        let ghost idx = pair_indices(pairs@);
        let ghost vals = pair_values(pairs@);
        let mut k: usize = 0;
        proof {
            assert(idx.subrange(0, 0).len() == 0);
        }
        while k < pairs.len()
            invariant
                N >= 2,
                k <= pairs@.len(),
                idx == pair_indices(pairs@),
                vals == pair_values(pairs@),
                forall|i: int| 0 <= i < pairs@.len() ==> (#[trigger] pairs@[i]).0.wf()
                    && start_of_degree_spec(N as int, pairs@[i].0@.len() + 1) <= usize::MAX,
                self@ == set_all(old(self)@, idx.subrange(0, k as int), vals.subrange(0, k as int)),
            decreases pairs@.len() - k,
        {
            let (key, value) = pairs[k];
            self.insert_single(&key, value);
            proof {
                assert(idx.subrange(0, k as int + 1).subrange(0, k as int) =~= idx.subrange(0, k as int));
                assert(vals.subrange(0, k as int + 1).subrange(0, k as int) =~= vals.subrange(0, k as int));
            }
            k = k + 1;
        }
        proof {
            assert(idx.subrange(0, pairs@.len() as int) =~= idx);
            assert(vals.subrange(0, pairs@.len() as int) =~= vals);
        }
    }

    /// Sets the coefficient of `key` to zero, if the vector reaches its position.
    pub fn erase(&mut self, key: &TensorKey<N>)
        requires
            N >= 2,
            key.wf(),
            start_of_degree_spec(N as int, key@.len() + 1) <= usize::MAX,
        ensures
            word_index(N as int, key@) < old(self)@.len() ==> final(self)@ == old(self)@.update(word_index(N as int, key@), 0),
            word_index(N as int, key@) >= old(self)@.len() ==> final(self)@ == old(self)@,
    {
        let idx = TensorBasis::<N>::key_to_index(key);
        if idx < self.data.len() {
            let z = Scalar::zero();
            proof {
                lemma_values_update(self.data@, idx as int, z);
            }
            self.data.set(idx, z);
        }
    }

    /// Negates every coefficient.
    pub fn uminus_inplace(&mut self)
        ensures
            final(self)@ == neg_spec(old(self)@),
    {
        let ghost start = self@;
        let mut i: usize = 0;
        while i < self.data.len()
            invariant
                i <= self@.len() == start.len(),
                forall|j: int| 0 <= j < i ==> #[trigger] self@[j] == fneg(start[j]),
                forall|j: int| i <= j < self@.len() ==> #[trigger] self@[j] == start[j],
            decreases self@.len() - i,
        {
            assert(self@[i as int] == start[i as int]);
            assert(self@[i as int] == self.data@[i as int]@);
            let c = self.data[i].uminus();
            proof {
                lemma_values_update(self.data@, i as int, c);
            }
            self.data.set(i, c);
            i = i + 1;
        }
        proof {
            assert(self@ =~= neg_spec(start));
        }
    }

    /// Adds `other` entry-wise; fails with `SizeMismatch`, changing nothing, when `other` is larger.
    pub fn add_inplace(&mut self, other: &Self) -> (r: Result<(), TensorError>)
        ensures
            other@.len() > old(self)@.len() ==> r == Err::<(), TensorError>(TensorError::SizeMismatch) && final(self)@ == old(self)@,
            other@.len() <= old(self)@.len() ==> r is Ok && final(self)@ == add_spec(old(self)@, other@),
    {
        if other.data.len() > self.data.len() {
            return Err(TensorError::SizeMismatch);
        }
        let ghost start = self@;
        let mut i: usize = 0;
        while i < self.data.len()
            invariant
                other@.len() <= self@.len(),
                i <= self@.len() == start.len(),
                forall|j: int| 0 <= j < i ==> #[trigger] self@[j] == fadd(start[j], coeff(other@, j)),
                forall|j: int| i <= j < self@.len() ==> #[trigger] self@[j] == start[j],
            decreases self@.len() - i,
        {
            if i < other.data.len() {
                assert(self@[i as int] == start[i as int]);
                assert(self@[i as int] == self.data@[i as int]@);
                let c = self.data[i].add(&other.data[i]);
                proof {
                    lemma_values_update(self.data@, i as int, c);
                }
                self.data.set(i, c);
            } else {
                proof {
                    lemma_values_reduced(self.data@);
                    vstd::arithmetic::div_mod::lemma_small_mod(self@[i as int] as nat, MODULUS as nat);
                }
            }
            i = i + 1;
        }
        proof {
            assert(self@ =~= add_spec(start, other@));
        }
        Ok(())
    }

    /// Subtracts `other` entry-wise; fails with `SizeMismatch`, changing nothing, when `other` is larger.
    pub fn sub_inplace(&mut self, other: &Self) -> (r: Result<(), TensorError>)
        ensures
            other@.len() > old(self)@.len() ==> r == Err::<(), TensorError>(TensorError::SizeMismatch) && final(self)@ == old(self)@,
            other@.len() <= old(self)@.len() ==> r is Ok && final(self)@ == sub_spec(old(self)@, other@),
    {
        if other.data.len() > self.data.len() {
            return Err(TensorError::SizeMismatch);
        }
        let ghost start = self@;
        let mut i: usize = 0;
        while i < self.data.len()
            invariant
                other@.len() <= self@.len(),
                i <= self@.len() == start.len(),
                forall|j: int| 0 <= j < i ==> #[trigger] self@[j] == fsub(start[j], coeff(other@, j)),
                forall|j: int| i <= j < self@.len() ==> #[trigger] self@[j] == start[j],
            decreases self@.len() - i,
        {
            if i < other.data.len() {
                assert(self@[i as int] == start[i as int]);
                assert(self@[i as int] == self.data@[i as int]@);
                let c = self.data[i].sub(&other.data[i]);
                proof {
                    lemma_values_update(self.data@, i as int, c);
                }
                self.data.set(i, c);
            } else {
                proof {
                    lemma_values_reduced(self.data@);
                    vstd::arithmetic::div_mod::lemma_small_mod(self@[i as int] as nat, MODULUS as nat);
                }
            }
            i = i + 1;
        }
        proof {
            assert(self@ =~= sub_spec(start, other@));
        }
        Ok(())
    }

    /// Multiplies every coefficient by `scalar`.
    pub fn scalar_lmultiply_inplace(&mut self, scalar: &Scalar)
        ensures
            final(self)@ == scale_spec(old(self)@, scalar@),
    {
        let ghost start = self@;
        let mut i: usize = 0;
        while i < self.data.len()
            invariant
                i <= self@.len() == start.len(),
                forall|j: int| 0 <= j < i ==> #[trigger] self@[j] == fmul(start[j], scalar@),
                forall|j: int| i <= j < self@.len() ==> #[trigger] self@[j] == start[j],
            decreases self@.len() - i,
        {
            assert(self@[i as int] == start[i as int]);
            assert(self@[i as int] == self.data@[i as int]@);
            let c = self.data[i].mul(scalar);
            proof {
                lemma_values_update(self.data@, i as int, c);
            }
            self.data.set(i, c);
            i = i + 1;
        }
        proof {
            assert(self@ =~= scale_spec(start, scalar@));
        }
    }

    /// Multiplies every coefficient by `scalar` (the field is commutative).
    pub fn scalar_rmultiply_inplace(&mut self, scalar: &Scalar)
        ensures
            final(self)@ == scale_spec(old(self)@, scalar@),
    {
        self.scalar_lmultiply_inplace(scalar)
    }

    /// Divides every coefficient by `rational`.
    pub fn scalar_rdivide_inplace(&mut self, rational: &Scalar)
        ensures
            final(self)@ == divide_spec(old(self)@, rational@),
    {
        let ghost start = self@;
        let mut i: usize = 0;
        while i < self.data.len()
            invariant
                i <= self@.len() == start.len(),
                forall|j: int| 0 <= j < i ==> #[trigger] self@[j] == fdiv(start[j], rational@),
                forall|j: int| i <= j < self@.len() ==> #[trigger] self@[j] == start[j],
            decreases self@.len() - i,
        {
            assert(self@[i as int] == start[i as int]);
            assert(self@[i as int] == self.data@[i as int]@);
            let c = self.data[i].div(rational);
            proof {
                lemma_values_update(self.data@, i as int, c);
            }
            self.data.set(i, c);
            i = i + 1;
        }
        proof {
            assert(self@ =~= divide_spec(start, rational@));
        }
    }

    /// Divides every coefficient by `rational` (the field is commutative).
    pub fn scalar_ldivide_inplace(&mut self, rational: &Scalar)
        ensures
            final(self)@ == divide_spec(old(self)@, rational@),
    {
        self.scalar_rdivide_inplace(rational)
    }

    /// `-self`.
    pub fn uminus(&self) -> (r: Self)
        ensures
            r@ == neg_spec(self@),
    {
        let mut r = self.to_owned();
        r.uminus_inplace();
        r
    }

    /// `self + other`; fails with `SizeMismatch` when `other` is larger.
    pub fn add(&self, other: &Self) -> (r: Result<Self, TensorError>)
        ensures
            other@.len() > self@.len() ==> r is Err && r->Err_0 == TensorError::SizeMismatch,
            other@.len() <= self@.len() ==> r is Ok && r->Ok_0@ == add_spec(self@, other@),
    {
        let mut out = self.to_owned();
        match out.add_inplace(other) {
            Ok(()) => Ok(out),
            Err(e) => Err(e),
        }
    }

    /// `self - other`; fails with `SizeMismatch` when `other` is larger.
    pub fn sub(&self, other: &Self) -> (r: Result<Self, TensorError>)
        ensures
            other@.len() > self@.len() ==> r is Err && r->Err_0 == TensorError::SizeMismatch,
            other@.len() <= self@.len() ==> r is Ok && r->Ok_0@ == sub_spec(self@, other@),
    {
        let mut out = self.to_owned();
        match out.sub_inplace(other) {
            Ok(()) => Ok(out),
            Err(e) => Err(e),
        }
    }

    /// `scalar * self`.
    pub fn scalar_lmultiply(&self, scalar: &Scalar) -> (r: Self)
        ensures
            r@ == scale_spec(self@, scalar@),
    {
        let mut r = self.to_owned();
        r.scalar_lmultiply_inplace(scalar);
        r
    }

    /// `self * scalar`.
    pub fn scalar_rmultiply(&self, scalar: &Scalar) -> (r: Self)
        ensures
            r@ == scale_spec(self@, scalar@),
    {
        self.scalar_lmultiply(scalar)
    }

    /// `self / rational`.
    pub fn scalar_rdivide(&self, rational: &Scalar) -> (r: Self)
        ensures
            r@ == divide_spec(self@, rational@),
    {
        let mut r = self.to_owned();
        r.scalar_rdivide_inplace(rational);
        r
    }

    /// `(1 / rational) * self`.
    pub fn scalar_ldivide(&self, rational: &Scalar) -> (r: Self)
        ensures
            r@ == divide_spec(self@, rational@),
    {
        self.scalar_rdivide(rational)
    }

    /// `self += other * scalar`; fails with `SizeMismatch`, changing nothing, when `other` is larger.
    pub fn add_scalar_rmultiply(&mut self, other: &Self, scalar: &Scalar) -> (r: Result<(), TensorError>)
        ensures
            other@.len() > old(self)@.len() ==> r == Err::<(), TensorError>(TensorError::SizeMismatch) && final(self)@ == old(self)@,
            other@.len() <= old(self)@.len() ==> r is Ok && final(self)@ == add_spec(old(self)@, scale_spec(other@, scalar@)),
    {
        self.add_inplace(&other.scalar_rmultiply(scalar))
    }

    /// `self += scalar * other`; fails with `SizeMismatch`, changing nothing, when `other` is larger.
    pub fn add_scalar_lmultiply(&mut self, other: &Self, scalar: &Scalar) -> (r: Result<(), TensorError>)
        ensures
            other@.len() > old(self)@.len() ==> r == Err::<(), TensorError>(TensorError::SizeMismatch) && final(self)@ == old(self)@,
            other@.len() <= old(self)@.len() ==> r is Ok && final(self)@ == add_spec(old(self)@, scale_spec(other@, scalar@)),
    {
        self.add_inplace(&other.scalar_lmultiply(scalar))
    }

    /// `self -= other * scalar`; fails with `SizeMismatch`, changing nothing, when `other` is larger.
    pub fn sub_scalar_rmultiply(&mut self, other: &Self, scalar: &Scalar) -> (r: Result<(), TensorError>)
        ensures
            other@.len() > old(self)@.len() ==> r == Err::<(), TensorError>(TensorError::SizeMismatch) && final(self)@ == old(self)@,
            other@.len() <= old(self)@.len() ==> r is Ok && final(self)@ == sub_spec(old(self)@, scale_spec(other@, scalar@)),
    {
        self.sub_inplace(&other.scalar_rmultiply(scalar))
    }

    /// `self -= scalar * other`; fails with `SizeMismatch`, changing nothing, when `other` is larger.
    pub fn sub_scalar_lmultiply(&mut self, other: &Self, scalar: &Scalar) -> (r: Result<(), TensorError>)
        ensures
            other@.len() > old(self)@.len() ==> r == Err::<(), TensorError>(TensorError::SizeMismatch) && final(self)@ == old(self)@,
            other@.len() <= old(self)@.len() ==> r is Ok && final(self)@ == sub_spec(old(self)@, scale_spec(other@, scalar@)),
    {
        self.sub_inplace(&other.scalar_lmultiply(scalar))
    }

    /// `self += other / rational`; fails with `SizeMismatch`, changing nothing, when `other` is larger.
    pub fn add_scalar_rdivide(&mut self, other: &Self, rational: &Scalar) -> (r: Result<(), TensorError>)
        ensures
            other@.len() > old(self)@.len() ==> r == Err::<(), TensorError>(TensorError::SizeMismatch) && final(self)@ == old(self)@,
            other@.len() <= old(self)@.len() ==> r is Ok && final(self)@ == add_spec(old(self)@, divide_spec(other@, rational@)),
    {
        self.add_inplace(&other.scalar_rdivide(rational))
    }

    /// `self += (1 / rational) * other`; fails with `SizeMismatch`, changing nothing, when `other` is larger.
    pub fn add_scalar_ldivide(&mut self, other: &Self, rational: &Scalar) -> (r: Result<(), TensorError>)
        ensures
            other@.len() > old(self)@.len() ==> r == Err::<(), TensorError>(TensorError::SizeMismatch) && final(self)@ == old(self)@,
            other@.len() <= old(self)@.len() ==> r is Ok && final(self)@ == add_spec(old(self)@, divide_spec(other@, rational@)),
    {
        self.add_inplace(&other.scalar_ldivide(rational))
    }

    /// `self -= other / rational`; fails with `SizeMismatch`, changing nothing, when `other` is larger.
    pub fn sub_scalar_rdivide(&mut self, other: &Self, rational: &Scalar) -> (r: Result<(), TensorError>)
        ensures
            other@.len() > old(self)@.len() ==> r == Err::<(), TensorError>(TensorError::SizeMismatch) && final(self)@ == old(self)@,
            other@.len() <= old(self)@.len() ==> r is Ok && final(self)@ == sub_spec(old(self)@, divide_spec(other@, rational@)),
    {
        self.sub_inplace(&other.scalar_rdivide(rational))
    }

    /// `self -= (1 / rational) * other`; fails with `SizeMismatch`, changing nothing, when `other` is larger.
    pub fn sub_scalar_ldivide(&mut self, other: &Self, rational: &Scalar) -> (r: Result<(), TensorError>)
        ensures
            other@.len() > old(self)@.len() ==> r == Err::<(), TensorError>(TensorError::SizeMismatch) && final(self)@ == old(self)@,
            other@.len() <= old(self)@.len() ==> r is Ok && final(self)@ == sub_spec(old(self)@, divide_spec(other@, rational@)),
    {
        self.sub_inplace(&other.scalar_ldivide(rational))
    }
    /// The vector with the given coefficients; coefficients of a repeated word are summed.
    /// It holds every degree up to that of the highest position given.
    pub fn from_iterator(pairs: &Vec<(TensorKey<N>, Scalar)>) -> (r: Self)
        requires
            N >= 2,
            forall|m: int| 0 <= m < pairs@.len() ==> (#[trigger] pairs@[m]).0.wf()
                && pairs@[m].0@.len() <= max_depth_spec(N),
            start_of_degree_spec(N as int, max_depth_spec(N) + 1) <= usize::MAX,
        ensures
            pairs@.len() == 0 ==> r@.len() == 0,
            forall|m: int| 0 <= m < pairs@.len() ==> word_index(N as int, (#[trigger] pairs@[m]).0@) < r@.len(),
            forall|i: int| 0 <= i < r@.len() ==> #[trigger] r@[i] == sum_at(pair_indices(pairs@), pair_values(pairs@), i),
            pairs@.len() > 0 ==> exists|m: int| 0 <= m < pairs@.len() && r@.len() == start_of_degree_spec(N as int, (#[trigger] pairs@[m]).0@.len() + 1),
    {
        if pairs.len() == 0 {
            return Self::new();
        }
        let ghost idx = pair_indices(pairs@);
        let ghost vals = pair_values(pairs@);
        let mut best: usize = 0;
        let mut best_len: u32 = 0;
        let mut indices: Vec<usize> = Vec::with_capacity(pairs.len());
        proof {
            crate::tensor_key::lemma_layout(N);
            assert(max_depth_spec(N) <= 64) by (nonlinear_arith)
                requires
                    crate::tensor_key::bits_per_letter_spec(N) * max_depth_spec(N) <= 64,
                    crate::tensor_key::bits_per_letter_spec(N) >= 1,
            ;
        }
        let mut m: usize = 0;
        while m < pairs.len()
            invariant
                N >= 2,
                m <= pairs@.len(),
                pairs@.len() > 0,
                idx == pair_indices(pairs@),
                start_of_degree_spec(N as int, max_depth_spec(N) + 1) <= usize::MAX,
                forall|q: int| 0 <= q < pairs@.len() ==> (#[trigger] pairs@[q]).0.wf()
                    && pairs@[q].0@.len() <= max_depth_spec(N),
                indices@.len() == m,
                forall|q: int| 0 <= q < m ==> #[trigger] indices@[q] == idx[q],
                forall|q: int| 0 <= q < m ==> #[trigger] idx[q] < start_of_degree_spec(N as int, best_len as nat + 1),
                m == 0 ==> best_len == 0 && best == 0,
                m > 0 ==> exists|q: int| 0 <= q < m && best_len == (#[trigger] pairs@[q]).0@.len(),
                best_len <= max_depth_spec(N),
                max_depth_spec(N) <= 64,
            decreases pairs@.len() - m,
        {
            let key = pairs[m].0;
            proof {
                key.lemma_wf();
                lemma_start_of_degree_monotone(N as int, key@.len() + 1, max_depth_spec(N) + 1);
            }
            let i = TensorBasis::<N>::key_to_index(&key);
            indices.push(i);
            let len = key.size();
            if m == 0 || len > best_len {
                proof {
                    assert forall|q: int| 0 <= q < m implies #[trigger] idx[q] < start_of_degree_spec(N as int, len as nat + 1) by {
                        lemma_start_of_degree_monotone(N as int, best_len as nat + 1, len as nat + 1);
                    }
                }
                best_len = len;
                best = i;
            } else {
                proof {
                    lemma_start_of_degree_monotone(N as int, len as nat + 1, best_len as nat + 1);
                }
            }
            m = m + 1;
        }
        proof {
            lemma_start_of_degree_monotone(N as int, best_len as nat + 1, max_depth_spec(N) + 1);
        }
        let dim = TensorBasis::<N>::start_of_degree(best_len + 1);
        let mut result = Self::from_dimension(dim);
        let mut k: usize = 0;
        proof {
            assert forall|i: int| 0 <= i < result@.len() implies #[trigger] result@[i] == sum_at(idx.subrange(0, 0), vals.subrange(0, 0), i) by {}
        }
        while k < pairs.len()
            invariant
                k <= pairs@.len(),
                idx == pair_indices(pairs@),
                vals == pair_values(pairs@),
                indices@.len() == pairs@.len(),
                forall|q: int| 0 <= q < pairs@.len() ==> #[trigger] indices@[q] == idx[q],
                forall|q: int| 0 <= q < pairs@.len() ==> #[trigger] idx[q] < dim,
                result@.len() == dim,
                forall|i: int| 0 <= i < result@.len() ==> #[trigger] result@[i] == sum_at(idx.subrange(0, k as int), vals.subrange(0, k as int), i),
            decreases pairs@.len() - k,
        {
            let i = indices[k];
            let v = pairs[k].1;
            let c = result.data[i].add(&v);
            proof {
                assert(result@[i as int] == result.data@[i as int]@);
                lemma_values_update(result.data@, i as int, c);
                lemma_values_reduced(result.data@);
                assert(idx.subrange(0, k as int + 1).subrange(0, k as int) =~= idx.subrange(0, k as int));
                assert(vals.subrange(0, k as int + 1).subrange(0, k as int) =~= vals.subrange(0, k as int));
                assert forall|j: int| 0 <= j < result@.len() && j != i implies #[trigger] result@[j] == sum_at(idx.subrange(0, k as int + 1), vals.subrange(0, k as int + 1), j) by {
                    lemma_small_mod(result@[j] as nat, MODULUS as nat);
                }
            }
            result.data.set(i, c);
            k = k + 1;
        }
        proof {
            assert(idx.subrange(0, pairs@.len() as int) =~= idx);
            assert(vals.subrange(0, pairs@.len() as int) =~= vals);
            assert forall|m: int| 0 <= m < pairs@.len() implies word_index(N as int, (#[trigger] pairs@[m]).0@) < result@.len() by {
                assert(idx[m] == word_index(N as int, pairs@[m].0@));
            }
        }
        result
    }
    /// Adds `update(coefficient)` to the coefficient of `key`, growing the vector to reach it.
    fn update_key(&mut self, key: &TensorKey<N>, val: &Scalar, subtract: bool)
        requires
            N >= 2,
            key.wf(),
            start_of_degree_spec(N as int, key@.len() + 1) <= usize::MAX,
        ensures
            final(self)@.len() == if word_index(N as int, key@) < old(self)@.len() { old(self)@.len() as int } else { word_index(N as int, key@) + 1 },
            forall|i: int| 0 <= i < final(self)@.len() ==> #[trigger] final(self)@[i] == if i == word_index(N as int, key@) {
                if subtract { fsub(coeff(old(self)@, i), val@) } else { fadd(coeff(old(self)@, i), val@) }
            } else {
                coeff(old(self)@, i)
            },
    {
        let idx = TensorBasis::<N>::key_to_index(key);
        self.resize(idx + 1);
        proof {
            assert(self.data@.len() == self@.len());
            assert(self@[idx as int] == self.data@[idx as int]@);
        }
        let cur = self.data[idx];
        let c = if subtract { cur.sub(val) } else { cur.add(val) };
        proof {
            lemma_values_update(self.data@, idx as int, c);
        }
        self.data.set(idx, c);
    }

    /// `self[key] += val`, growing the vector to reach `key`.
    pub fn add_scalar_multiply(&mut self, key: &TensorKey<N>, val: &Scalar)
        requires
            N >= 2,
            key.wf(),
            start_of_degree_spec(N as int, key@.len() + 1) <= usize::MAX,
        ensures
            final(self)@.len() == if word_index(N as int, key@) < old(self)@.len() { old(self)@.len() as int } else { word_index(N as int, key@) + 1 },
            forall|i: int| 0 <= i < final(self)@.len() ==> #[trigger] final(self)@[i] == if i == word_index(N as int, key@) {
                fadd(coeff(old(self)@, i), val@)
            } else {
                coeff(old(self)@, i)
            },
    {
        self.update_key(key, val, false)
    }

    /// `self[key] -= val`, growing the vector to reach `key`.
    pub fn sub_scalar_multiply(&mut self, key: &TensorKey<N>, val: &Scalar)
        requires
            N >= 2,
            key.wf(),
            start_of_degree_spec(N as int, key@.len() + 1) <= usize::MAX,
        ensures
            final(self)@.len() == if word_index(N as int, key@) < old(self)@.len() { old(self)@.len() as int } else { word_index(N as int, key@) + 1 },
            forall|i: int| 0 <= i < final(self)@.len() ==> #[trigger] final(self)@[i] == if i == word_index(N as int, key@) {
                fsub(coeff(old(self)@, i), val@)
            } else {
                coeff(old(self)@, i)
            },
    {
        self.update_key(key, val, true)
    }

    /// `self[key] += 1 / rational`, growing the vector to reach `key`.
    pub fn add_scalar_divide(&mut self, key: &TensorKey<N>, rational: &Scalar)
        requires
            N >= 2,
            key.wf(),
            start_of_degree_spec(N as int, key@.len() + 1) <= usize::MAX,
        ensures
            final(self)@.len() == if word_index(N as int, key@) < old(self)@.len() { old(self)@.len() as int } else { word_index(N as int, key@) + 1 },
            forall|i: int| 0 <= i < final(self)@.len() ==> #[trigger] final(self)@[i] == if i == word_index(N as int, key@) {
                fadd(coeff(old(self)@, i), fdiv(1, rational@))
            } else {
                coeff(old(self)@, i)
            },
    {
        let sca = Scalar::one().div(rational);
        self.update_key(key, &sca, false)
    }

    /// `self[key] -= 1 / rational`, growing the vector to reach `key`.
    pub fn sub_scalar_divide(&mut self, key: &TensorKey<N>, rational: &Scalar)
        requires
            N >= 2,
            key.wf(),
            start_of_degree_spec(N as int, key@.len() + 1) <= usize::MAX,
        ensures
            final(self)@.len() == if word_index(N as int, key@) < old(self)@.len() { old(self)@.len() as int } else { word_index(N as int, key@) + 1 },
            forall|i: int| 0 <= i < final(self)@.len() ==> #[trigger] final(self)@[i] == if i == word_index(N as int, key@) {
                fsub(coeff(old(self)@, i), fdiv(1, rational@))
            } else {
                coeff(old(self)@, i)
            },
    {
        let sca = Scalar::one().div(rational);
        self.update_key(key, &sca, true)
    }
}

impl<const N: u32> PartialEq for SimpleDenseVector<N> {
    fn eq(&self, other: &Self) -> (r: bool) {
        if self.data.len() != other.data.len() {
            proof {
                assert(self@.len() != other@.len());
            }
            return false;
        }
        let mut i: usize = 0;
        while i < self.data.len()
            invariant
                self.data@.len() == other.data@.len(),
                i <= self.data@.len(),
                forall|j: int| 0 <= j < i ==> #[trigger] self@[j] == other@[j],
            decreases self.data@.len() - i,
        {
            proof {
                self.data@[i as int].lemma_range();
                other.data@[i as int].lemma_range();
            }
            if self.data[i].value() != other.data[i].value() {
                proof {
                    assert(self@[i as int] != other@[i as int]);
                }
                return false;
            }
            i = i + 1;
        }
        proof {
            assert(self@ =~= other@);
        }
        true
    }
}

impl<const N: u32> vstd::std_specs::cmp::PartialEqSpecImpl for SimpleDenseVector<N> {
    open spec fn obeys_eq_spec() -> bool {
        true
    }

    open spec fn eq_spec(&self, other: &Self) -> bool {
        self@ == other@
    }
}

} // verus!
