//! The graded basis of words: a word of length `d` over `N` letters sits at position
//! `start_of_degree(d) + (its letters read as a base-N numeral, first letter most significant)`,
//! so that the words of each degree fill one contiguous block.
use crate::basis::{Basis, BasisWithDegree, OrderedBasis, OrderedBasisWithDegree};
use crate::radix::{letters_in_range, lemma_pack_append, lemma_pack_bound, lemma_pack_update, pack};
use crate::tensor_key::{max_depth_spec, TensorKey};
use crate::{DegreeType, DimensionType, LetterType};
use std::cmp::Ordering;
use std::ops::Range;
use vstd::arithmetic::div_mod::{lemma_fundamental_div_mod, lemma_mod_bound};
use vstd::arithmetic::power::{pow, lemma_pow_positive};
use vstd::arithmetic::power2::{pow2, lemma2_to64, lemma_pow2_unfold, lemma_pow2_strictly_increases};
use vstd::prelude::*;

verus! {

/// The number of words of length below `d` over `n` letters: `n^0 + n^1 + ... + n^(d-1)`.
pub open spec fn start_of_degree_spec(n: int, d: nat) -> int
    decreases d,
{
    if d == 0 {
        0
    } else {
        start_of_degree_spec(n, (d - 1) as nat) + pow(n, (d - 1) as nat)
    }
}

/// The position of the word with letters `w` (by position, as in a key's view) in the basis.
pub open spec fn word_index(n: int, w: Seq<int>) -> int {
    start_of_degree_spec(n, w.len()) + pack(w, n)
}

/// `start_of_degree(d + 1) == n * start_of_degree(d) + 1`.
pub proof fn lemma_start_of_degree_step(n: int, d: nat)
    ensures
        start_of_degree_spec(n, d + 1) == n * start_of_degree_spec(n, d) + 1,
    decreases d,
{
    reveal(pow);
    if d > 0 {
        lemma_start_of_degree_step(n, (d - 1) as nat);
        let s = start_of_degree_spec(n, (d - 1) as nat);
        let p = pow(n, (d - 1) as nat);
        assert(n * (s + p) + 1 == (n * s + 1) + n * p) by (nonlinear_arith);
    }
}

/// The geometric-series identity `(n - 1) * start_of_degree(d) == n^d - 1`.
pub proof fn lemma_start_of_degree_closed_form(n: int, d: nat)
    ensures
        (n - 1) * start_of_degree_spec(n, d) == pow(n, d) - 1,
    decreases d,
{
    reveal(pow);
    if d > 0 {
        lemma_start_of_degree_closed_form(n, (d - 1) as nat);
        let s = start_of_degree_spec(n, (d - 1) as nat);
        let p = pow(n, (d - 1) as nat);
        assert((n - 1) * (s + p) == ((n - 1) * s) + n * p - p) by (nonlinear_arith);
    }
}

/// `start_of_degree` grows strictly with the degree.
pub proof fn lemma_start_of_degree_increasing(n: int, d1: nat, d2: nat)
    requires
        n >= 1,
        d1 < d2,
    ensures
        start_of_degree_spec(n, d1) < start_of_degree_spec(n, d2),
    decreases d2,
{
    lemma_pow_positive(n, (d2 - 1) as nat);
    if d1 < d2 - 1 {
        lemma_start_of_degree_increasing(n, d1, (d2 - 1) as nat);
    }
}

/// `start_of_degree` is monotone.
pub proof fn lemma_start_of_degree_monotone(n: int, d1: nat, d2: nat)
    requires
        n >= 1,
        d1 <= d2,
    ensures
        0 <= start_of_degree_spec(n, d1) <= start_of_degree_spec(n, d2),
{
    if d1 < d2 {
        lemma_start_of_degree_increasing(n, d1, d2);
    }
    if d1 > 0 {
        lemma_start_of_degree_increasing(n, 0, d1);
    }
}

/// With at least two letters, `start_of_degree(d) >= 2^d - 1`.
pub proof fn lemma_start_of_degree_lower(n: int, d: nat)
    requires
        n >= 2,
    ensures
        start_of_degree_spec(n, d) >= pow2(d) - 1,
    decreases d,
{
    lemma2_to64();
    if d > 0 {
        lemma_start_of_degree_lower(n, (d - 1) as nat);
        lemma_start_of_degree_step(n, (d - 1) as nat);
        lemma_pow2_unfold(d);
        lemma_start_of_degree_monotone(n, 0, (d - 1) as nat);
        let s = start_of_degree_spec(n, (d - 1) as nat);
        assert(n * s >= 2 * s) by (nonlinear_arith)
            requires
                n >= 2,
                s >= 0,
        ;
    }
}

/// Positions in the block of degree `d` are the values of the words of length `d`.
pub proof fn lemma_word_index_in_block(n: int, w: Seq<int>)
    requires
        n >= 1,
        letters_in_range(w, n),
    ensures
        start_of_degree_spec(n, w.len()) <= word_index(n, w) < start_of_degree_spec(n, w.len() + 1),
{
    lemma_pack_bound(w, n);
}

/// Distinct words have distinct positions: two well-formed keys share a position exactly when
/// they are equal. With `index_to_key`, which finds a key for every valid position, this makes
/// positions and words two-sided inverses.
pub proof fn lemma_index_bijection<const N: u32>(a: TensorKey<N>, b: TensorKey<N>)
    requires
        N >= 2,
        a.wf(),
        b.wf(),
    ensures
        word_index(N as int, a@) == word_index(N as int, b@) <==> a == b,
{
    a.lemma_wf();
    b.lemma_wf();
    lemma_word_index_in_block(N as int, a@);
    lemma_word_index_in_block(N as int, b@);
    if word_index(N as int, a@) == word_index(N as int, b@) {
        if a@.len() < b@.len() {
            lemma_start_of_degree_monotone(N as int, a@.len() + 1, b@.len());
        } else if b@.len() < a@.len() {
            lemma_start_of_degree_monotone(N as int, b@.len() + 1, a@.len());
        }
        assert(a@.len() == b@.len());
        crate::radix::lemma_unpack_pack(a@, N as int);
        crate::radix::lemma_unpack_pack(b@, N as int);
        assert(a@ =~= b@);
        TensorKey::<N>::lemma_view_injective(a, b);
    }
}

/// Every word of degree `d` has its position in `[start_of_degree(d), start_of_degree(d + 1))`.
pub proof fn lemma_degree_contiguity<const N: u32>(w: TensorKey<N>)
    requires
        N >= 2,
        w.wf(),
    ensures
        start_of_degree_spec(N as int, w@.len()) <= word_index(N as int, w@),
        word_index(N as int, w@) < start_of_degree_spec(N as int, w@.len() + 1),
{
    w.lemma_wf();
    lemma_word_index_in_block(N as int, w@);
}

/// The offset of `a` followed by `b` in its degree block is the offset of `a` times `N^deg(b)`
/// plus the offset of `b`.
pub proof fn lemma_concatenation_index<const N: u32>(a: TensorKey<N>, b: TensorKey<N>)
    requires
        N >= 2,
        a.wf(),
        b.wf(),
        a@.len() + b@.len() <= max_depth_spec(N),
    ensures
        word_index(N as int, b@ + a@) - start_of_degree_spec(N as int, a@.len() + b@.len())
            == (word_index(N as int, a@) - start_of_degree_spec(N as int, a@.len())) * pow(N as int, b@.len())
            + (word_index(N as int, b@) - start_of_degree_spec(N as int, b@.len())),
{
    lemma_pack_append(b@, a@, N as int);
    assert((b@ + a@).len() == a@.len() + b@.len());
    assert(pow(N as int, b@.len()) * pack(a@, N as int) == pack(a@, N as int) * pow(N as int, b@.len())) by (nonlinear_arith);
}

/// The degree whose block holds position `i`.
pub open spec fn index_degree(n: int, i: int) -> nat {
    choose|d: nat| #[trigger] start_of_degree_spec(n, d) <= i < start_of_degree_spec(n, d + 1)
}

/// The block holding a position is unique.
pub proof fn lemma_index_degree(n: int, i: int, d: nat)
    requires
        n >= 2,
        start_of_degree_spec(n, d) <= i < start_of_degree_spec(n, d + 1),
    ensures
        index_degree(n, i) == d,
{
    let e = index_degree(n, i);
    assert(start_of_degree_spec(n, e) <= i < start_of_degree_spec(n, e + 1));
    if e < d {
        lemma_start_of_degree_monotone(n, e + 1, d);
    } else if d < e {
        lemma_start_of_degree_monotone(n, d + 1, e);
    }
}

/// Every position below `start_of_degree(m)` lies in a block of degree below `m`.
pub proof fn lemma_index_degree_exists(n: int, i: int, m: nat)
    requires
        n >= 2,
        0 <= i < start_of_degree_spec(n, m),
    ensures
        index_degree(n, i) < m,
        start_of_degree_spec(n, index_degree(n, i)) <= i < start_of_degree_spec(n, index_degree(n, i) + 1),
    decreases m,
{
    if m > 0 {
        if i >= start_of_degree_spec(n, (m - 1) as nat) {
            lemma_index_degree(n, i, (m - 1) as nat);
        } else {
            lemma_index_degree_exists(n, i, (m - 1) as nat);
        }
    }
}

/// The basis of words over the alphabet `1..=N`.
pub struct TensorBasis<const N: u32>;

impl<const N: u32> TensorBasis<N> {
    /// The longest word the basis can address.
    pub fn max_degree() -> (r: DegreeType)
        ensures
            r == max_depth_spec(N),
    {
        TensorKey::<N>::max_depth()
    }

    /// The position of the first word of length `deg`: `(N^deg - 1) / (N - 1)`.
    pub fn start_of_degree(deg: DegreeType) -> (r: DimensionType)
        requires
            N >= 2,
            start_of_degree_spec(N as int, deg as nat) <= usize::MAX,
        ensures
            r == start_of_degree_spec(N as int, deg as nat),
            (N - 1) * r == pow(N as int, deg as nat) - 1,
    {
        let mut s: usize = 0;
        let mut i: u32 = 0;
        while i < deg
            invariant
                N >= 2,
                i <= deg,
                s == start_of_degree_spec(N as int, i as nat),
                start_of_degree_spec(N as int, deg as nat) <= usize::MAX,
            decreases deg - i,
        {
            proof {
                lemma_start_of_degree_step(N as int, i as nat);
                lemma_start_of_degree_monotone(N as int, (i + 1) as nat, deg as nat);
                lemma_start_of_degree_monotone(N as int, 0, i as nat);
                assert(s * N + 1 == start_of_degree_spec(N as int, (i + 1) as nat)) by (nonlinear_arith)
                    requires
                        start_of_degree_spec(N as int, (i + 1) as nat) == N * s + 1,
                ;
            }
            s = s * (N as usize) + 1;
            i = i + 1;
        }
        proof {
            lemma_start_of_degree_closed_form(N as int, deg as nat);
        }
        s
    }

    /// The positions of the words of length `deg`.
    pub fn degree_range(deg: DegreeType) -> (r: Range<DimensionType>)
        requires
            N >= 2,
            deg < u32::MAX,
            start_of_degree_spec(N as int, deg as nat + 1) <= usize::MAX,
        ensures
            r.start == start_of_degree_spec(N as int, deg as nat),
            r.end == start_of_degree_spec(N as int, deg as nat + 1),
            r.end - r.start == pow(N as int, deg as nat),
    {
        proof {
            lemma_start_of_degree_monotone(N as int, deg as nat, deg as nat + 1);
        }
        Self::start_of_degree(deg)..Self::start_of_degree(deg + 1)
    }

    /// The degree whose block holds position `index`, searching upwards from degree `deg`.
    fn index_to_degree_impl(index: DimensionType, deg: DegreeType) -> (r: DegreeType)
        requires
            N >= 2,
            start_of_degree_spec(N as int, deg as nat) <= index,
        ensures
            start_of_degree_spec(N as int, r as nat) <= index < start_of_degree_spec(N as int, r as nat + 1),
    {
        proof {
            lemma_start_of_degree_monotone(N as int, 0, deg as nat);
        }
        let mut d: u32 = deg;
        let mut cur: usize = Self::start_of_degree(deg);
        while index >= 1 && cur <= (index - 1) / (N as usize)
            invariant
                N >= 2,
                cur == start_of_degree_spec(N as int, d as nat),
                cur <= index,
            decreases index - cur,
        {
            proof {
                lemma_start_of_degree_step(N as int, d as nat);
                lemma_fundamental_div_mod((index - 1) as int, N as int);
                lemma_mod_bound((index - 1) as int, N as int);
                assert(cur * N <= index - 1) by (nonlinear_arith)
                    requires
                        cur <= (index - 1) / (N as int),
                        (index - 1) == N * ((index - 1) / (N as int)) + (index - 1) % (N as int),
                        (index - 1) % (N as int) >= 0,
                        N >= 2,
                ;
                lemma_start_of_degree_lower(N as int, d as nat + 1);
                lemma2_to64();
                if d as nat + 1 > 64 {
                    lemma_pow2_strictly_increases(64, d as nat + 1);
                }
                assert(cur * N + 1 > cur) by (nonlinear_arith)
                    requires
                        N >= 2,
                        cur >= 0,
                ;
                assert(N * cur == cur * N) by (nonlinear_arith);
            }
            cur = cur * (N as usize) + 1;
            d = d + 1;
        }
        proof {
            lemma_start_of_degree_step(N as int, d as nat);
            if index >= 1 {
                lemma_fundamental_div_mod((index - 1) as int, N as int);
                lemma_mod_bound((index - 1) as int, N as int);
                assert(cur * N + 1 > index) by (nonlinear_arith)
                    requires
                        cur > (index - 1) / (N as int),
                        (index - 1) == N * ((index - 1) / (N as int)) + (index - 1) % (N as int),
                        (index - 1) % (N as int) < N,
                        N >= 2,
                ;
            }
        }
        d
    }

    /// The degree whose block holds position `index`.
    pub fn index_to_degree(index: DimensionType) -> (r: DegreeType)
        requires
            N >= 2,
        ensures
            start_of_degree_spec(N as int, r as nat) <= index < start_of_degree_spec(N as int, r as nat + 1),
    {
        proof {
            lemma_start_of_degree_step(N as int, 0);
            lemma_start_of_degree_step(N as int, 1);
            assert(start_of_degree_spec(N as int, 0) == 0);
            assert(start_of_degree_spec(N as int, 1) == 1);
            assert(start_of_degree_spec(N as int, 2) == N + 1);
        }
        if index == 0 {
            0
        } else if index <= N as usize {
            1
        } else {
            Self::index_to_degree_impl(index, 2)
        }
    }

    /// The degree of a word: its length.
    pub fn degree(key: &TensorKey<N>) -> (r: DegreeType)
        ensures
            r == key@.len(),
    {
        key.size()
    }

    /// Orders keys by their packed integers; within one degree this is the basis order.
    pub fn compare(lhs: &TensorKey<N>, rhs: &TensorKey<N>) -> (r: Ordering)
        requires
            lhs.wf(),
            rhs.wf(),
        ensures
            r == Ordering::Less <==> pack(lhs@, crate::tensor_key::letter_base(N) as int) < pack(rhs@, crate::tensor_key::letter_base(N) as int),
            r == Ordering::Equal <==> pack(lhs@, crate::tensor_key::letter_base(N) as int) == pack(rhs@, crate::tensor_key::letter_base(N) as int),
            r == Ordering::Greater <==> pack(lhs@, crate::tensor_key::letter_base(N) as int) > pack(rhs@, crate::tensor_key::letter_base(N) as int),
    {
        let a = lhs.data();
        let b = rhs.data();
        if a < b {
            Ordering::Less
        } else if a == b {
            Ordering::Equal
        } else {
            Ordering::Greater
        }
    }

    /// The position of `key` in the basis.
    pub fn key_to_index(key: &TensorKey<N>) -> (r: DimensionType)
        requires
            N >= 2,
            key.wf(),
            start_of_degree_spec(N as int, key@.len() + 1) <= usize::MAX,
        ensures
            r == word_index(N as int, key@),
            start_of_degree_spec(N as int, key@.len()) <= r < start_of_degree_spec(N as int, key@.len() + 1),
    {
        proof {
            key.lemma_wf();
        }
        let ghost w = key@;
        let size = key.size();
        let mut result: usize = 0;
        let mut i: u32 = size;
        proof {
            assert(w.subrange(size as int, size as int) =~= Seq::<int>::empty());
        }
        while i >= 1
            invariant
                N >= 2,
                key.wf(),
                w == key@,
                size == w.len(),
                letters_in_range(w, N as int),
                i <= size,
                start_of_degree_spec(N as int, w.len() + 1) <= usize::MAX,
                result == word_index(N as int, w.subrange(i as int, size as int)),
            decreases i,
        {
            i = i - 1;
            let ghost rest = w.subrange(i as int + 1, size as int);
            let ghost cur = w.subrange(i as int, size as int);
            let ghost k = rest.len();
            proof {
                assert(cur.drop_first() =~= rest);
                assert(letters_in_range(cur, N as int));
                lemma_start_of_degree_step(N as int, k);
                lemma_word_index_in_block(N as int, cur);
                lemma_start_of_degree_monotone(N as int, k + 2, w.len() + 1);
                assert(result * N == N * result) by (nonlinear_arith);
                assert(N * word_index(N as int, rest) + w[i as int] == word_index(N as int, cur)) by (nonlinear_arith)
                    requires
                        word_index(N as int, rest) == start_of_degree_spec(N as int, k) + pack(rest, N as int),
                        word_index(N as int, cur) == start_of_degree_spec(N as int, k + 1) + pack(cur, N as int),
                        start_of_degree_spec(N as int, k + 1) == N * start_of_degree_spec(N as int, k) + 1,
                        pack(cur, N as int) == (cur[0] - 1) + N * pack(rest, N as int),
                        cur[0] == w[i as int],
                ;
            }
            result = result * (N as usize) + key.get_letter(i) as usize;
        }
        proof {
            assert(w.subrange(0, size as int) =~= w);
            lemma_word_index_in_block(N as int, w);
        }
        result
    }

    /// The word at position `index` in the basis.
    pub fn index_to_key(index: DimensionType) -> (r: TensorKey<N>)
        requires
            N >= 2,
            index < start_of_degree_spec(N as int, max_depth_spec(N) + 1),
        ensures
            r.wf(),
            word_index(N as int, r@) == index,
    {
        proof {
            lemma_start_of_degree_step(N as int, 0);
            reveal(pow);
        }
        if index == 0 {
            return TensorKey::new();
        } else if index <= N as usize {
            let r = TensorKey::from_letter(index as LetterType);
            proof {
                crate::radix::lemma_pack_single(index as int, N as int);
                assert(start_of_degree_spec(N as int, 1) == 1);
            }
            return r;
        }
        let factor: usize = N as usize;
        let mut pos: usize = index;
        let mut result = TensorKey::<N>::new();
        while pos > 0
            invariant
                N >= 2,
                factor == N,
                result.wf(),
                index < start_of_degree_spec(N as int, max_depth_spec(N) + 1),
                index == word_index(N as int, result@) + pow(N as int, result@.len()) * pos,
            decreases pos,
        {
            let ghost k = result@.len();
            let ghost old_view = result@;
            proof {
                reveal(pow);
                result.lemma_wf();
                lemma_pow_positive(N as int, k);
                lemma_word_index_in_block(N as int, result@);
                assert(pow(N as int, k) * pos >= pow(N as int, k)) by (nonlinear_arith)
                    requires
                        pos >= 1,
                        pow(N as int, k) > 0,
                ;
                if k >= max_depth_spec(N) {
                    lemma_start_of_degree_monotone(N as int, max_depth_spec(N) + 1, k + 1);
                }
            }
            pos = pos - 1;
            let digit = (pos % factor) as LetterType;
            let ghost q = pos as int / N as int;
            proof {
                lemma_fundamental_div_mod(pos as int, N as int);
            }
            result.push_front_raw(digit);
            pos = pos / factor;
            proof {
                reveal(pow);
                lemma_pack_append(old_view, seq![digit as int + 1], N as int);
                crate::radix::lemma_pack_single(digit as int + 1, N as int);
                assert(old_view + seq![digit as int + 1] =~= result@);
                let p = pow(N as int, k);
                assert(pow(N as int, k + 1) == N * p);
                assert(p * (q * N + digit + 1) == p * digit + p + (N * p) * q) by (nonlinear_arith);
            }
        }
        result
    }

    /// The size of a vector that holds every word up to the degree of `key`.
    pub fn vector_dimension_for_key(key: &TensorKey<N>) -> (r: DimensionType)
        requires
            N >= 2,
            key.wf(),
            start_of_degree_spec(N as int, key@.len() + 1) <= usize::MAX,
        ensures
            r == start_of_degree_spec(N as int, key@.len() + 1),
    {
        proof {
            key.lemma_wf();
            crate::tensor_key::lemma_layout(N);
            assert(max_depth_spec(N) <= 64) by (nonlinear_arith)
                requires
                    crate::tensor_key::bits_per_letter_spec(N) * max_depth_spec(N) <= 64,
                    crate::tensor_key::bits_per_letter_spec(N) >= 1,
            ;
        }
        Self::start_of_degree(Self::degree(key) + 1)
    }

    /// The size of a vector that holds every word up to the degree of position `index`.
    pub fn vector_dimension_for_index(index: DimensionType) -> (r: DimensionType)
        requires
            N >= 2,
            forall|d: nat| start_of_degree_spec(N as int, d) <= index ==> #[trigger] start_of_degree_spec(N as int, d + 1) <= usize::MAX,
        ensures
            exists|d: nat| #[trigger] start_of_degree_spec(N as int, d) <= index < start_of_degree_spec(N as int, d + 1) && r == start_of_degree_spec(N as int, d + 1),
    {
        let d = Self::index_to_degree(index);
        proof {
            assert(start_of_degree_spec(N as int, d as nat) <= index);
            lemma_start_of_degree_lower(N as int, d as nat + 1);
            lemma2_to64();
            if d as nat + 1 > 64 {
                lemma_pow2_strictly_increases(64, d as nat + 1);
            }
        }
        Self::start_of_degree(d + 1)
    }
}

impl<const N: u32> Basis for TensorBasis<N> {
    type KeyType = TensorKey<N>;
}

impl<const N: u32> BasisWithDegree for TensorBasis<N> {
    open spec fn key_degree(key: &TensorKey<N>) -> nat {
        key@.len()
    }

    fn degree(key: &TensorKey<N>) -> (r: DegreeType) {
        key.size()
    }
}

impl<const N: u32> OrderedBasis for TensorBasis<N> {
    open spec fn valid_key(key: &TensorKey<N>) -> bool {
        N >= 2 && key.wf()
    }

    open spec fn addressable_key(key: &TensorKey<N>) -> bool {
        start_of_degree_spec(N as int, key@.len() + 1) <= usize::MAX
    }

    open spec fn valid_index(index: int) -> bool {
        N >= 2 && 0 <= index < start_of_degree_spec(N as int, max_depth_spec(N) + 1)
    }

    open spec fn position(key: &TensorKey<N>) -> int {
        word_index(N as int, key@)
    }

    open spec fn order_value(key: &TensorKey<N>) -> int {
        pack(key@, crate::tensor_key::letter_base(N) as int)
    }

    fn compare(lhs: &TensorKey<N>, rhs: &TensorKey<N>) -> (r: Ordering) {
        TensorBasis::<N>::compare(lhs, rhs)
    }

    fn key_to_index(key: &TensorKey<N>) -> (r: DimensionType) {
        TensorBasis::<N>::key_to_index(key)
    }

    fn index_to_key(index: DimensionType) -> (r: TensorKey<N>) {
        TensorBasis::<N>::index_to_key(index)
    }
}

impl<const N: u32> OrderedBasisWithDegree for TensorBasis<N> {
    open spec fn start_spec(deg: nat) -> int {
        start_of_degree_spec(N as int, deg)
    }

    open spec fn graded() -> bool {
        N >= 2
    }

    fn start_of_degree(deg: DegreeType) -> (r: DimensionType) {
        TensorBasis::<N>::start_of_degree(deg)
    }

    fn index_to_degree(index: DimensionType) -> (r: DegreeType) {
        TensorBasis::<N>::index_to_degree(index)
    }
}

/// Walks the basis in index order: each word, then the next one, up to the last word of
/// length `max_depth`.
pub struct TensorBasisIterator<const N: u32> {
    current: Option<TensorKey<N>>,
    max_depth: DegreeType,
}

impl<const N: u32> TensorBasisIterator<N> {
    /// The word the next call returns, if any.
    pub closed spec fn current(&self) -> Option<TensorKey<N>> {
        self.current
    }

    pub closed spec fn wf(&self) -> bool {
        &&& self.max_depth == max_depth_spec(N)
        &&& self.current is Some ==> self.current->Some_0.wf()
    }

    /// The word a well-formed iterator holds is well formed.
    pub proof fn lemma_current_wf(&self)
        requires
            self.wf(),
        ensures
            self.current() is Some ==> self.current()->Some_0.wf(),
    {
    }

    /// An iterator starting at the empty word.
    pub fn new() -> (r: Self)
        ensures
            r.wf(),
            r.current() is Some && r.current()->Some_0.wf() && r.current()->Some_0@ == Seq::<int>::empty(),
    {
        TensorBasisIterator { current: Some(TensorKey::new()), max_depth: TensorKey::<N>::max_depth() }
    }

    /// An iterator starting at `key`.
    pub fn starting_from(key: TensorKey<N>) -> (r: Self)
        requires
            key.wf(),
        ensures
            r.wf(),
            r.current() == Some(key),
    {
        TensorBasisIterator { current: Some(key), max_depth: TensorKey::<N>::max_depth() }
    }

    /// Returns the current word and moves to the word at the next position, or to the end
    /// after the last word of length `max_depth`.
    pub fn next(&mut self) -> (r: Option<TensorKey<N>>)
        requires
            N >= 2,
            old(self).wf(),
        ensures
            final(self).wf(),
            r == old(self).current(),
            r is Some ==> r->Some_0.wf(),
            final(self).current() is Some ==> final(self).current()->Some_0.wf(),
            old(self).current() is None ==> final(self).current() is None,
            old(self).current() is Some ==> ({
                let k = old(self).current()->Some_0;
                &&& (final(self).current() is None <==> word_index(N as int, k@) + 1 == start_of_degree_spec(N as int, max_depth_spec(N) + 1))
                &&& (final(self).current() is Some ==> word_index(N as int, final(self).current()->Some_0@) == word_index(N as int, k@) + 1)
            }),
    {
        match self.current {
            None => None,
            Some(this_key) => {
                let mut cur = this_key;
                let ghost orig = this_key@;
                proof {
                    this_key.lemma_wf();
                    lemma_pack_bound(orig, N as int);
                    reveal(pow);
                }
                let size = cur.size();
                let mut i: u32 = 0;
                while i < size && cur.get_letter(i) == N
                    invariant
                        N >= 2,
                        cur == this_key,
                        orig == this_key@,
                        size == orig.len(),
                        this_key.wf(),
                        i <= size,
                        forall|j: int| 0 <= j < i ==> #[trigger] orig[j] == N,
                    decreases size - i,
                {
                    i = i + 1;
                }
                let mut j: u32 = 0;
                while j < i
                    invariant
                        N >= 2,
                        i <= size,
                        size == orig.len(),
                        cur.wf(),
                        cur@.len() == orig.len(),
                        j <= i,
                        forall|m: int| 0 <= m < i ==> #[trigger] orig[m] == N,
                        forall|m: int| 0 <= m < j ==> #[trigger] cur@[m] == 1,
                        forall|m: int| j <= m < size ==> #[trigger] cur@[m] == orig[m],
                        pack(cur@, N as int) + pow(N as int, j as nat) - 1 == pack(orig, N as int),
                    decreases i - j,
                {
                    proof {
                        lemma_pack_update(cur@, j as int, 1, N as int);
                        assert(pow(N as int, (j + 1) as nat) == N * pow(N as int, j as nat)) by {
                            reveal(pow);
                        }
                        assert(cur@[j as int] == N);
                    }
                    let ghost before = cur@;
                    cur.set_letter(j, 1);
                    proof {
                        assert(pack(cur@, N as int) == pack(before, N as int) + (1 - N) * pow(N as int, j as nat));
                        assert((1 - N) * pow(N as int, j as nat) + N * pow(N as int, j as nat) == pow(N as int, j as nat)) by (nonlinear_arith);
                    }
                    j = j + 1;
                }
                if i == size {
                    proof {
                        cur.lemma_wf();
                        lemma_pack_bound(cur@, N as int);
                        lemma_start_of_degree_step(N as int, size as nat);
                        assert(start_of_degree_spec(N as int, size as nat + 1) == start_of_degree_spec(N as int, size as nat) + pow(N as int, size as nat));
                    }
                    assert(pack(orig, N as int) == pow(N as int, size as nat) - 1);
                    assert(word_index(N as int, orig) + 1 == start_of_degree_spec(N as int, size as nat + 1));
                    if size == self.max_depth {
                        self.current = None;
                    } else {
                        let ghost ones = cur@;
                        proof {
                            lemma_start_of_degree_monotone(N as int, size as nat + 1, max_depth_spec(N));
                            lemma_start_of_degree_increasing(N as int, max_depth_spec(N), max_depth_spec(N) + 1);
                        }
                        cur.push_front(1);
                        proof {
                            lemma_pack_append(ones, seq![1int], N as int);
                            crate::radix::lemma_pack_single(1, N as int);
                            assert(ones + seq![1int] =~= cur@);
                            assert(pack(ones, N as int) == 0);
                            assert(pack(seq![1int], N as int) == 0);
                            assert(pow(N as int, ones.len()) * 0 == 0) by (nonlinear_arith);
                            assert(pack(cur@, N as int) == pack(ones, N as int) + pow(N as int, ones.len()) * pack(seq![1int], N as int));
                            assert(pack(cur@, N as int) == 0);
                            assert(word_index(N as int, cur@) == word_index(N as int, orig) + 1);
                            assert(word_index(N as int, orig) + 1 < start_of_degree_spec(N as int, max_depth_spec(N) + 1));
                        }
                        self.current = Some(cur);
                    }
                } else {
                    let letter = cur.get_letter(i);
                    proof {
                        lemma_pack_update(cur@, i as int, letter + 1, N as int);
                        cur.lemma_wf();
                        assert(cur@[i as int] == orig[i as int]);
                        assert(letter < N);
                    }
                    let ghost before = cur@;
                    cur.set_letter(i, letter + 1);
                    proof {
                        assert(cur@ == before.update(i as int, letter + 1));
                        assert((letter + 1 - before[i as int]) * pow(N as int, i as nat) == pow(N as int, i as nat)) by (nonlinear_arith)
                            requires
                                before[i as int] == letter,
                        ;
                        assert(pack(cur@, N as int) == pack(before, N as int) + pow(N as int, i as nat));
                        cur.lemma_wf();
                        lemma_pack_bound(cur@, N as int);
                        lemma_start_of_degree_step(N as int, size as nat);
                        lemma_start_of_degree_monotone(N as int, size as nat + 1, max_depth_spec(N) + 1);
                        assert(word_index(N as int, cur@) == word_index(N as int, orig) + 1);
                        assert(word_index(N as int, cur@) < start_of_degree_spec(N as int, size as nat + 1));
                    }
                    self.current = Some(cur);
                }
                Some(this_key)
            },
        }
    }
}

} // verus!
