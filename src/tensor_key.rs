//! Tensor words packed into one `u64`.
//!
//! A word over the alphabet `1..=N` is stored as its length and a packed integer in which each
//! letter `l` occupies a field of `bits_per_letter` bits holding `l - 1`. Position 0 is the least
//! significant field and holds the letter supplied last, so the model of a key (its view) lists the
//! letters by position: the last letter supplied first.
use crate::bits::{const_logn, log2_floor, lemma_log2_floor_bounds, make_mask};
use crate::radix::{
    letters_in_range, lemma_pack_unpack, lemma_replace_digit, lemma_unpack_append,
    lemma_unpack_cons, lemma_unpack_in_range, lemma_unpack_index, lemma_unpack_len, pack,
    unpack,
};
use crate::{DegreeType, LetterType, TensorError};
use vstd::arithmetic::div_mod::lemma_fundamental_div_mod;
use vstd::arithmetic::power::{pow, lemma_pow_multiplies, lemma_pow_positive, lemma_pow_increases, lemma_pow_adds};
use vstd::arithmetic::power2::{pow2, lemma2_to64, lemma_pow2, lemma_pow2_strictly_increases, lemma_pow2_pos};
use vstd::bits::{low_bits_mask, lemma_u64_low_bits_mask_is_mod, lemma_u64_shl_is_mul, lemma_u64_shr_is_div};
use vstd::prelude::*;

verus! {

/// Width in bits of one letter field: `floor(log2(n)) + 1`.
pub open spec fn bits_per_letter_spec(n: u32) -> nat {
    log2_floor(n as nat) + 1
}

/// Number of header bits the layout reserves: `floor(log2(63 / bits_per_letter))`.
pub open spec fn size_bits_spec(n: u32) -> nat {
    log2_floor(63nat / bits_per_letter_spec(n))
}

/// The longest word the layout can hold.
pub open spec fn max_depth_spec(n: u32) -> nat {
    ((64 - size_bits_spec(n)) as nat) / bits_per_letter_spec(n)
}

/// The base in which the letter fields are written: `2^bits_per_letter`.
pub open spec fn letter_base(n: u32) -> nat {
    pow2(bits_per_letter_spec(n))
}

/// The letters of a word given in reading order, listed by position (last letter first).
pub open spec fn positions_of(letters: Seq<u32>) -> Seq<int> {
    Seq::new(letters.len(), |i: int| letters[letters.len() - 1 - i] as int)
}

/// Arithmetic facts about the layout for an alphabet of width `n`.
pub proof fn lemma_layout(n: u32)
    ensures
        1 <= bits_per_letter_spec(n) <= 32,
        size_bits_spec(n) <= 5,
        1 <= max_depth_spec(n),
        bits_per_letter_spec(n) * max_depth_spec(n) <= 64,
        (n as nat) < letter_base(n),
        letter_base(n) >= 2,
        forall|k: nat| #[trigger] pow(letter_base(n) as int, k) == pow2(bits_per_letter_spec(n) * k),
{
    let b = bits_per_letter_spec(n);
    crate::bits::lemma_log2_floor_u32(n as nat);
    if n >= 1 {
        lemma_log2_floor_bounds(n as nat);
    } else {
        lemma2_to64();
    }
    lemma2_to64();
    let q = 63nat / b;
    lemma_fundamental_div_mod(63, b as int);
    assert(q >= 1) by (nonlinear_arith)
        requires
            63 == b * q + 63int % (b as int),
            63int % (b as int) < b,
            b <= 32,
    ;
    assert(q <= 63);
    lemma_log2_floor_bounds(q);
    if log2_floor(q) > 6 {
        lemma_pow2_strictly_increases(6, log2_floor(q));
    }
    let sb = size_bits_spec(n) as int;
    let md = max_depth_spec(n) as int;
    let bi = b as int;
    assert(md == (64 - sb) / bi);
    lemma_fundamental_div_mod(64 - sb, bi);
    vstd::arithmetic::div_mod::lemma_mod_bound(64 - sb, bi);
    assert(bi * md <= 64);
    assert(md >= 1) by (nonlinear_arith)
        requires
            (64 - sb) == bi * md + (64 - sb) % bi,
            (64 - sb) % bi < bi,
            bi <= 32,
            sb <= 5,
    ;
    lemma_pow2_pos(b);
    assert(pow2(1) == 2);
    if b > 1 {
        lemma_pow2_strictly_increases(1, b);
    }
    assert forall|k: nat| #[trigger] pow(letter_base(n) as int, k) == pow2(b * k) by {
        lemma_pow2(b);
        lemma_pow2(b * k);
        lemma_pow_multiplies(2, b, k);
    }
}

/// A word over the alphabet `1..=N`, packed into a `u64`.
#[derive(Clone, Copy, Debug, PartialEq, Eq)]
pub struct TensorKey<const N: u32> {
    size: DegreeType,
    data: u64,
}

impl<const N: u32> View for TensorKey<N> {
    type V = Seq<int>;

    /// The letters of the word by position: position 0 holds the last letter supplied.
    closed spec fn view(&self) -> Seq<int> {
        unpack(self.data as nat, letter_base(N), self.size as nat)
    }
}

impl<const N: u32> TensorKey<N> {
    /// The key holds a word of at most `max_depth` letters from `1..=N`, with no stray bits.
    pub closed spec fn wf(&self) -> bool {
        &&& self.size <= max_depth_spec(N)
        &&& self.data < pow(letter_base(N) as int, self.size as nat)
        &&& letters_in_range(self@, N as int)
    }

    /// What a well-formed key tells about its letters.
    pub proof fn lemma_wf(&self)
        requires
            self.wf(),
        ensures
            self@.len() <= max_depth_spec(N),
            letters_in_range(self@, N as int),
            N >= 1 || self@.len() == 0,
    {
        lemma_layout(N);
        lemma_unpack_len(self.data as nat, letter_base(N), self.size as nat);
        if self@.len() > 0 {
            assert(1 <= self@[0] <= N);
        }
    }

    /// Two well-formed keys with the same letters are equal.
    pub proof fn lemma_view_injective(a: Self, b: Self)
        requires
            a.wf(),
            b.wf(),
            a@ == b@,
        ensures
            a == b,
    {
        lemma_layout(N);
        lemma_unpack_len(a.data as nat, letter_base(N), a.size as nat);
        lemma_unpack_len(b.data as nat, letter_base(N), b.size as nat);
        lemma_pack_unpack(a.data as nat, letter_base(N), a.size as nat);
        lemma_pack_unpack(b.data as nat, letter_base(N), b.size as nat);
    }

    /// Any in-range sequence of letters no longer than `max_depth` is the view of some key.
    pub proof fn lemma_view_surjective(letters: Seq<int>) -> (k: Self)
        requires
            letters.len() <= max_depth_spec(N),
            letters_in_range(letters, N as int),
        ensures
            k.wf(),
            k@ == letters,
    {
        lemma_layout(N);
        let base = letter_base(N) as int;
        assert(letters_in_range(letters, base));
        crate::radix::lemma_pack_bound(letters, base);
        crate::radix::lemma_unpack_pack(letters, base);
        let len = letters.len() as nat;
        lemma_pow2_pos(bits_per_letter_spec(N) * len);
        assert(bits_per_letter_spec(N) * len <= 64) by (nonlinear_arith)
            requires
                bits_per_letter_spec(N) * max_depth_spec(N) <= 64,
                len <= max_depth_spec(N),
        ;
        if bits_per_letter_spec(N) * len < 64 {
            lemma_pow2_strictly_increases(bits_per_letter_spec(N) * len, 64);
        }
        lemma2_to64();
        TensorKey { size: len as u32, data: pack(letters, base) as u64 }
    }

    /// Width in bits of one letter field.
    pub fn bits_per_letter() -> (r: u32)
        ensures
            r == bits_per_letter_spec(N),
            1 <= r <= 32,
    {
        const_logn(N) + 1
    }

    /// Number of header bits reserved by the layout.
    pub fn size_bits() -> (r: u32)
        ensures
            r == size_bits_spec(N),
    {
        proof {
            lemma_layout(N);
        }
        let b = Self::bits_per_letter();
        const_logn(63 / b)
    }

    /// The mask of one letter field at position 0.
    pub fn letter_mask() -> (r: u64)
        ensures
            r == letter_base(N) - 1,
            r == low_bits_mask(bits_per_letter_spec(N)),
    {
        proof {
            lemma2_to64();
        }
        make_mask(Self::bits_per_letter(), 0)
    }

    /// The mask of the reserved header bits at the top of the `u64`.
    pub fn size_mask() -> (r: u64)
        ensures
            r == (pow2(size_bits_spec(N)) - 1) * pow2((64 - size_bits_spec(N)) as nat),
    {
        proof {
            lemma_layout(N);
        }
        let sb = Self::size_bits();
        make_mask(sb, 64 - sb)
    }

    /// The longest word a key can hold.
    pub fn max_depth() -> (r: DegreeType)
        ensures
            r == max_depth_spec(N),
            r >= 1,
    {
        proof {
            lemma_layout(N);
        }
        (64 - Self::size_bits()) / Self::bits_per_letter()
    }

    /// The empty word.
    pub fn new() -> (r: Self)
        ensures
            r.wf(),
            r@ == Seq::<int>::empty(),
    {
        proof {
            lemma_layout(N);
            assert(pow(letter_base(N) as int, 0) == 1) by {
                reveal(pow);
            }
        }
        TensorKey { size: 0, data: 0 }
    }

    /// The word of one letter.
    pub fn from_letter(letter: LetterType) -> (r: Self)
        requires
            1 <= letter <= N,
        ensures
            r.wf(),
            r@ == seq![letter as int],
    {
        let r = TensorKey { size: 1, data: letter as u64 - 1 };
        proof {
            lemma_layout(N);
            assert(pow(letter_base(N) as int, 1) == letter_base(N)) by {
                reveal(pow);
            }
            assert(unpack((letter - 1) as nat / letter_base(N), letter_base(N), 0) =~= Seq::<int>::empty());
            vstd::arithmetic::div_mod::lemma_small_mod((letter - 1) as nat, letter_base(N));
            vstd::arithmetic::div_mod::lemma_basic_div((letter - 1) as int, letter_base(N) as int);
            assert(r@ =~= seq![letter as int]);
        }
        r
    }

    /// The number of letters.
    pub fn size(&self) -> (r: DegreeType)
        ensures
            r == self@.len(),
    {
        proof {
            lemma_layout(N);
            lemma_unpack_len(self.data as nat, letter_base(N), self.size as nat);
        }
        self.size
    }

    /// The packed integer: letter at position `i` contributes `(letter - 1) * 2^(i * bits_per_letter)`.
    pub fn data(&self) -> (r: u64)
        requires
            self.wf(),
        ensures
            r == pack(self@, letter_base(N) as int),
    {
        proof {
            lemma_layout(N);
            lemma_pack_unpack(self.data as nat, letter_base(N), self.size as nat);
        }
        self.data
    }

    fn update_size(&mut self, new_size: DegreeType)
        ensures
            final(self).size == new_size,
            final(self).data == old(self).data,
    {
        self.size = new_size;
    }

    /// Replaces the letter at position `pos` by `new_val`.
    pub fn set_letter(&mut self, pos: DegreeType, new_val: LetterType)
        requires
            old(self).wf(),
            pos < old(self)@.len(),
            1 <= new_val <= N,
        ensures
            final(self).wf(),
            final(self)@ == old(self)@.update(pos as int, new_val as int),
    {
        proof {
            lemma_layout(N);
            lemma_unpack_len(self.data as nat, letter_base(N), self.size as nat);
        }
        let cur = self.get_letter_unadjusted(pos) as u64;
        proof {
            assert(bits_per_letter_spec(N) * pos < 64) by (nonlinear_arith)
                requires
                    pos < max_depth_spec(N),
                    bits_per_letter_spec(N) * max_depth_spec(N) <= 64,
                    bits_per_letter_spec(N) >= 1,
            ;
        }
        let shift = Self::bits_per_letter() * pos;
        proof {
            lemma_pow2_pos(shift as nat);
            lemma_pow2_strictly_increases(shift as nat, 64);
            lemma2_to64();
            lemma_u64_shl_is_mul(1, shift as u64);
            assert(pow2(shift as nat) == pow(letter_base(N) as int, pos as nat));
            lemma_unpack_index(self.data as nat, letter_base(N), self.size as nat, pos as nat);
            lemma_replace_digit(self.data as nat, letter_base(N), self.size as nat, pos as nat, (new_val - 1) as nat);
            assert(bits_per_letter_spec(N) * self.size <= 64) by (nonlinear_arith)
                requires
                    self.size <= max_depth_spec(N),
                    bits_per_letter_spec(N) * max_depth_spec(N) <= 64,
            ;
            if bits_per_letter_spec(N) * self.size < 64 {
                lemma_pow2_strictly_increases(bits_per_letter_spec(N) * (self.size as nat), 64);
            }
            assert(pow(letter_base(N) as int, self.size as nat) == pow2(bits_per_letter_spec(N) * (self.size as nat)));
        }
        let unit: u64 = 1u64 << shift;
        let cleared = self.data - cur * unit;
        self.data = cleared + (new_val as u64 - 1) * unit;
        proof {
            lemma_unpack_in_range(self.data as nat, letter_base(N), self.size as nat);
            assert(letters_in_range(self@, N as int)) by {
                assert forall|i: int| 0 <= i < self@.len() implies 1 <= #[trigger] self@[i] <= N by {
                    if i != pos {
                        assert(self@[i] == old(self)@[i]);
                    }
                }
            }
        }
    }

    /// Builds the word whose letters are `letters`, in reading order.
    ///
    /// Fails with `LengthExceeded` when there are more letters than `max_depth`.
    pub fn from_letters(letters: &[LetterType]) -> (r: Result<Self, TensorError>)
        requires
            forall|i: int| 0 <= i < letters@.len() ==> 1 <= #[trigger] letters@[i] <= N,
        ensures
            letters@.len() > max_depth_spec(N) <==> r == Err::<Self, TensorError>(TensorError::LengthExceeded),
            letters@.len() <= max_depth_spec(N) ==> r is Ok,
            r is Ok ==> r->Ok_0.wf() && r->Ok_0@ == positions_of(letters@),
    {
        let max = Self::max_depth();
        if letters.len() > max as usize {
            return Err(TensorError::LengthExceeded);
        }
        let bpl = Self::bits_per_letter();
        let ghost base = letter_base(N);
        proof {
            lemma_layout(N);
            reveal(pow);
        }
        let mut data: u64 = 0;
        let mut i: usize = 0;
        while i < letters.len()
            invariant
                i <= letters@.len() <= max_depth_spec(N),
                bpl == bits_per_letter_spec(N),
                base == letter_base(N),
                data < pow(base as int, i as nat),
                unpack(data as nat, base, i as nat) =~= positions_of(letters@.subrange(0, i as int)),
                forall|j: int| 0 <= j < letters@.len() ==> 1 <= #[trigger] letters@[j] <= N,
            decreases letters.len() - i,
        {
            let letter = letters[i];
            proof {
                reveal(pow);
                lemma_layout(N);
                lemma_pow_positive(base as int, i as nat);
                assert(i + 1 <= max_depth_spec(N));
                lemma_pow_increases(base, (i + 1) as nat, max_depth_spec(N));
                assert(bits_per_letter_spec(N) * max_depth_spec(N) <= 64);
                if bits_per_letter_spec(N) * max_depth_spec(N) < 64 {
                    lemma_pow2_strictly_increases(bits_per_letter_spec(N) * max_depth_spec(N), 64);
                }
                lemma2_to64();
                assert(data * base + (letter - 1) < pow(base as int, (i + 1) as nat)) by (nonlinear_arith)
                    requires
                        data < pow(base as int, i as nat),
                        pow(base as int, (i + 1) as nat) == base * pow(base as int, i as nat),
                        base > 0,
                        letter - 1 < base,
                        letter >= 1,
                ;
                lemma_u64_shl_is_mul(data, bpl as u64);
                lemma_unpack_cons(data as nat, base, i as nat, (letter - 1) as nat);
                let prefix = letters@.subrange(0, i as int + 1);
                assert(positions_of(prefix) =~= seq![letter as int] + positions_of(letters@.subrange(0, i as int)));
            }
            data = (data << bpl) + (letter - 1) as u64;
            i = i + 1;
        }
        proof {
            assert(letters@.subrange(0, letters@.len() as int) =~= letters@);
            lemma_unpack_in_range(data as nat, base, i as nat);
        }
        Ok(TensorKey { size: letters.len() as u32, data })
    }

    /// The letter at position `pos`, minus one.
    pub fn get_letter_unadjusted(&self, pos: DegreeType) -> (r: LetterType)
        requires
            self.wf(),
            pos < self@.len(),
        ensures
            r == self@[pos as int] - 1,
    {
        proof {
            lemma_layout(N);
            lemma_unpack_len(self.data as nat, letter_base(N), self.size as nat);
        }
        proof {
            assert(pos * bits_per_letter_spec(N) < 64) by (nonlinear_arith)
                requires
                    pos < max_depth_spec(N),
                    bits_per_letter_spec(N) * max_depth_spec(N) <= 64,
                    bits_per_letter_spec(N) >= 1,
            ;
        }
        let shift = pos * Self::bits_per_letter();
        let mask = Self::letter_mask();
        proof {
            lemma_u64_shr_is_div(self.data, shift as u64);
            lemma_u64_low_bits_mask_is_mod(self.data >> shift, bits_per_letter_spec(N));
            lemma_unpack_index(self.data as nat, letter_base(N), self.size as nat, pos as nat);
            assert(shift == bits_per_letter_spec(N) * pos) by (nonlinear_arith)
                requires
                    shift == pos * bits_per_letter_spec(N),
            ;
            assert(pow2(shift as nat) == pow(letter_base(N) as int, pos as nat));
            assert(1 <= self@[pos as int] <= N);
            if bits_per_letter_spec(N) < 32 {
                lemma_pow2_strictly_increases(bits_per_letter_spec(N), 32);
            }
            lemma2_to64();
            let x = self.data >> shift;
            assert(x == self.data as nat / pow(letter_base(N) as int, pos as nat) as nat);
            assert(x & mask == x % (letter_base(N) as u64));
            assert((x & mask) == self@[pos as int] - 1);
        }
        ((self.data >> shift) & mask) as u32
    }

    /// The letter at position `pos` (position 0 holds the last letter supplied).
    pub fn get_letter(&self, pos: DegreeType) -> (r: LetterType)
        requires
            self.wf(),
            pos < self@.len(),
        ensures
            r == self@[pos as int],
    {
        self.get_letter_unadjusted(pos) + 1
    }

    /// The letter at position `pos`; fails with `IndexOutOfRange` past the end of the word.
    pub fn letter(&self, pos: DegreeType) -> (r: Result<LetterType, TensorError>)
        requires
            self.wf(),
        ensures
            pos >= self@.len() ==> r == Err::<LetterType, TensorError>(TensorError::IndexOutOfRange),
            pos < self@.len() ==> r == Ok::<LetterType, TensorError>(self@[pos as int] as LetterType),
    {
        if pos < self.size() {
            Ok(self.get_letter(pos))
        } else {
            Err(TensorError::IndexOutOfRange)
        }
    }

    /// The word `self` followed by the word `other`.
    pub fn concatenate(&self, other: &Self) -> (r: Self)
        requires
            self.wf(),
            other.wf(),
            self@.len() + other@.len() <= max_depth_spec(N),
        ensures
            r.wf(),
            r@ == other@ + self@,
    {
        proof {
            lemma_layout(N);
            lemma_unpack_len(self.data as nat, letter_base(N), self.size as nat);
            lemma_unpack_len(other.data as nat, letter_base(N), other.size as nat);
        }
        let ghost base = letter_base(N);
        let size = self.size + other.size;
        proof {
            assert(other.size * bits_per_letter_spec(N) <= 64) by (nonlinear_arith)
                requires
                    other.size <= max_depth_spec(N),
                    bits_per_letter_spec(N) * max_depth_spec(N) <= 64,
            ;
        }
        let shift = other.size * Self::bits_per_letter();
        proof {
            assert(bits_per_letter_spec(N) * size <= 64) by (nonlinear_arith)
                requires
                    size <= max_depth_spec(N),
                    bits_per_letter_spec(N) * max_depth_spec(N) <= 64,
            ;
            assert(shift <= bits_per_letter_spec(N) * size) by (nonlinear_arith)
                requires
                    shift == other.size * bits_per_letter_spec(N),
                    size == self.size + other.size,
            ;
            lemma_unpack_append(self.data as nat, other.data as nat, base, other.size as nat, self.size as nat);
            lemma_pow_adds(base as int, other.size as nat, self.size as nat);
            lemma_pow_positive(base as int, other.size as nat);
            assert(self.data * pow(base as int, other.size as nat) + other.data < pow(base as int, size as nat)) by (nonlinear_arith)
                requires
                    self.data < pow(base as int, self.size as nat),
                    other.data < pow(base as int, other.size as nat),
                    pow(base as int, size as nat) == pow(base as int, other.size as nat) * pow(base as int, self.size as nat),
            ;
            lemma2_to64();
            if bits_per_letter_spec(N) * size < 64 {
                lemma_pow2_strictly_increases((bits_per_letter_spec(N) * size) as nat, 64);
            }
        }
        let data = if shift >= 64 {
            proof {
                assert(self.size == 0) by (nonlinear_arith)
                    requires
                        shift == other.size * bits_per_letter_spec(N),
                        shift >= 64,
                        bits_per_letter_spec(N) * (self.size + other.size) <= 64,
                        bits_per_letter_spec(N) >= 1,
                ;
                assert(self.data == 0) by {
                    reveal(pow);
                }
            }
            other.data
        } else {
            proof {
                lemma_u64_shl_is_mul(self.data, shift as u64);
            }
            (self.data << shift) + other.data
        };
        let r = TensorKey { size, data };
        proof {
            assert(r@ =~= other@ + self@);
            lemma_unpack_in_range(data as nat, base, size as nat);
            assert(letters_in_range(r@, N as int)) by {
                assert forall|i: int| 0 <= i < r@.len() implies 1 <= #[trigger] r@[i] <= N by {
                    if i < other@.len() {
                        assert(r@[i] == other@[i]);
                    } else {
                        assert(r@[i] == self@[i - other@.len()]);
                    }
                }
            }
        }
        r
    }

    /// The letters by position: the last letter supplied comes first.
    pub fn to_letters(&self) -> (r: Vec<LetterType>)
        requires
            self.wf(),
        ensures
            r@.len() == self@.len(),
            forall|i: int| 0 <= i < r@.len() ==> r@[i] as int == #[trigger] self@[i],
    {
        let size = self.size();
        let mut result: Vec<LetterType> = Vec::with_capacity(size as usize);
        let mut i: u32 = 0;
        while i < size
            invariant
                self.wf(),
                size == self@.len(),
                i <= size,
                result@.len() == i,
                forall|j: int| 0 <= j < i ==> result@[j] as int == #[trigger] self@[j],
            decreases size - i,
        {
            result.push(self.get_letter(i));
            i = i + 1;
        }
        result
    }

    /// Puts the letter `digit + 1` in front of the word, that is at the next free position.
    pub fn push_front_raw(&mut self, digit: LetterType)
        requires
            old(self).wf(),
            old(self)@.len() < max_depth_spec(N),
            digit < N,
        ensures
            final(self).wf(),
            final(self)@ == old(self)@.push(digit as int + 1),
    {
        proof {
            lemma_layout(N);
            lemma_unpack_len(self.data as nat, letter_base(N), self.size as nat);
        }
        let ghost base = letter_base(N);
        proof {
            assert(self.size * bits_per_letter_spec(N) <= 64) by (nonlinear_arith)
                requires
                    self.size <= max_depth_spec(N),
                    bits_per_letter_spec(N) * max_depth_spec(N) <= 64,
            ;
        }
        let shift = self.size * Self::bits_per_letter();
        proof {
            assert(shift + bits_per_letter_spec(N) <= 64) by (nonlinear_arith)
                requires
                    shift == self.size * bits_per_letter_spec(N),
                    self.size + 1 <= max_depth_spec(N),
                    bits_per_letter_spec(N) * max_depth_spec(N) <= 64,
            ;
            lemma_unpack_append(digit as nat, self.data as nat, base, self.size as nat, 1);
            lemma_pow_positive(base as int, self.size as nat);
            assert(pow(base as int, (self.size + 1) as nat) == base * pow(base as int, self.size as nat)) by {
                reveal(pow);
            }
            assert(digit * pow(base as int, self.size as nat) + self.data < pow(base as int, (self.size + 1) as nat)) by (nonlinear_arith)
                requires
                    self.data < pow(base as int, self.size as nat),
                    digit + 1 <= base,
                    pow(base as int, (self.size + 1) as nat) == base * pow(base as int, self.size as nat),
            ;
            lemma2_to64();
            if shift + bits_per_letter_spec(N) < 64 {
                lemma_pow2_strictly_increases((shift + bits_per_letter_spec(N)) as nat, 64);
            }
            assert(bits_per_letter_spec(N) * (self.size + 1) == shift + bits_per_letter_spec(N)) by (nonlinear_arith)
                requires
                    shift == self.size * bits_per_letter_spec(N),
            ;
            lemma_u64_shl_is_mul(digit as u64, shift as u64);
            assert(unpack(digit as nat, base, 1) =~= seq![digit as int + 1]) by {
                vstd::arithmetic::div_mod::lemma_small_mod(digit as nat, base);
                vstd::arithmetic::div_mod::lemma_basic_div(digit as int, base as int);
                assert(unpack(digit as nat / base, base, 0) =~= Seq::<int>::empty());
            }
        }
        let old_size = self.size;
        self.data = self.data + ((digit as u64) << shift);
        self.update_size(old_size + 1);
        proof {
            assert(self@ =~= old(self)@.push(digit as int + 1));
            assert(letters_in_range(self@, N as int)) by {
                assert forall|i: int| 0 <= i < self@.len() implies 1 <= #[trigger] self@[i] <= N by {
                    if i < old(self)@.len() {
                        assert(self@[i] == old(self)@[i]);
                    }
                }
            }
        }
    }

    /// Puts `letter` in front of the word.
    pub fn push_front(&mut self, letter: LetterType)
        requires
            old(self).wf(),
            old(self)@.len() < max_depth_spec(N),
            1 <= letter <= N,
        ensures
            final(self).wf(),
            final(self)@ == old(self)@.push(letter as int),
    {
        self.push_front_raw(letter - 1);
    }
}

/// Walks the letters of a key by position, from position 0: the last letter supplied first.
pub struct TensorKeyIterator<const N: u32> {
    index: DegreeType,
    key: TensorKey<N>,
}

impl<const N: u32> View for TensorKeyIterator<N> {
    type V = Seq<int>;

    /// The letters still to come, by position.
    closed spec fn view(&self) -> Seq<int> {
        Seq::new((self.key@.len() - self.index) as nat, |i: int| self.key@[self.index + i])
    }
}

impl<const N: u32> TensorKeyIterator<N> {
    pub closed spec fn wf(&self) -> bool {
        self.key.wf() && self.index <= self.key@.len()
    }

    /// An iterator over the letters of `key`, from position 0.
    pub fn new(key: &TensorKey<N>) -> (r: Self)
        requires
            key.wf(),
        ensures
            r.wf(),
            r@ == key@,
    {
        let r = TensorKeyIterator { index: 0, key: *key };
        proof {
            assert(r@ =~= key@);
        }
        r
    }

    /// The next letter, if any.
    pub fn next(&mut self) -> (r: Option<LetterType>)
        requires
            old(self).wf(),
        ensures
            final(self).wf(),
            old(self)@.len() == 0 ==> r is None && final(self)@ == old(self)@,
            old(self)@.len() > 0 ==> r == Some(old(self)@[0] as LetterType) && final(self)@ == old(self)@.drop_first(),
    {
        let size = self.key.size();
        if self.index == size {
            None
        } else {
            let letter = self.key.get_letter(self.index);
            self.index = self.index + 1;
            proof {
                assert(self@ =~= old(self)@.drop_first());
            }
            Some(letter)
        }
    }
}

} // verus!
