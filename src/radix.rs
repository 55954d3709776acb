//! Little-endian digit sequences and their values in a fixed base.
//!
//! A word is modelled by its letters, position 0 first; a letter `l` stands for the digit `l - 1`.
use vstd::arithmetic::div_mod::{lemma_fundamental_div_mod, lemma_fundamental_div_mod_converse, lemma_div_denominator, lemma_multiply_divide_lt};
use vstd::arithmetic::power::{pow, lemma_pow_positive};
use vstd::prelude::*;

verus! {

/// The first `count` letters (digit + 1) of `value` written in base `base`, least significant first.
pub open spec fn unpack(value: nat, base: nat, count: nat) -> Seq<int>
    decreases count,
{
    if count == 0 {
        Seq::empty()
    } else {
        seq![(value % base) as int + 1] + unpack(value / base, base, (count - 1) as nat)
    }
}

/// The value in base `base` of the digits `letters[i] - 1`, position 0 least significant.
pub open spec fn pack(letters: Seq<int>, base: int) -> int
    decreases letters.len(),
{
    if letters.len() == 0 {
        0
    } else {
        (letters[0] - 1) + base * pack(letters.drop_first(), base)
    }
}

/// Every letter lies in `1..=base`.
pub open spec fn letters_in_range(letters: Seq<int>, base: int) -> bool {
    forall|i: int| 0 <= i < letters.len() ==> 1 <= #[trigger] letters[i] <= base
}

pub proof fn lemma_unpack_len(value: nat, base: nat, count: nat)
    requires
        base > 0,
    ensures
        unpack(value, base, count).len() == count,
    decreases count,
{
    if count > 0 {
        lemma_unpack_len(value / base, base, (count - 1) as nat);
        let rest = unpack(value / base, base, (count - 1) as nat);
        assert(unpack(value, base, count) =~= seq![(value % base) as int + 1] + rest);
        assert((seq![(value % base) as int + 1] + rest).len() == 1 + rest.len());
    }
}

/// The letter at position `i` is the `i`-th digit of `value`, plus one.
pub proof fn lemma_unpack_index(value: nat, base: nat, count: nat, i: nat)
    requires
        base > 0,
        i < count,
    ensures
        unpack(value, base, count)[i as int] == (value / (pow(base as int, i) as nat)) % base + 1,
    decreases i,
{
    lemma_unpack_len(value / base, base, (count - 1) as nat);
    reveal(pow);
    if i == 0 {
        assert(value / 1 == value);
    } else {
        lemma_unpack_index(value / base, base, (count - 1) as nat, (i - 1) as nat);
        lemma_pow_positive(base as int, (i - 1) as nat);
        lemma_div_denominator(value as int, base as int, pow(base as int, (i - 1) as nat));
    }
}

/// The letters of a value are in range.
pub proof fn lemma_unpack_in_range(value: nat, base: nat, count: nat)
    requires
        base > 0,
    ensures
        letters_in_range(unpack(value, base, count), base as int),
{
    lemma_unpack_len(value, base, count);
    assert forall|i: int| 0 <= i < unpack(value, base, count).len() implies 1 <= #[trigger] unpack(value, base, count)[i] <= base by {
        lemma_unpack_index(value, base, count, i as nat);
    }
}

/// A value below `base^count` is the value of its own `count` letters.
pub proof fn lemma_pack_unpack(value: nat, base: nat, count: nat)
    requires
        base > 0,
        value < pow(base as int, count),
    ensures
        pack(unpack(value, base, count), base as int) == value,
    decreases count,
{
    reveal(pow);
    if count > 0 {
        lemma_multiply_divide_lt(value as int, base as int, pow(base as int, (count - 1) as nat));
        lemma_pack_unpack(value / base, base, (count - 1) as nat);
        let s = unpack(value, base, count);
        assert(s.drop_first() =~= unpack(value / base, base, (count - 1) as nat));
        lemma_fundamental_div_mod(value as int, base as int);
    }
}

/// The value of in-range letters is below `base^len`.
pub proof fn lemma_pack_bound(letters: Seq<int>, base: int)
    requires
        base > 0,
        letters_in_range(letters, base),
    ensures
        0 <= pack(letters, base) < pow(base, letters.len()),
    decreases letters.len(),
{
    reveal(pow);
    if letters.len() > 0 {
        let rest = letters.drop_first();
        assert(letters_in_range(rest, base)) by {
            assert forall|i: int| 0 <= i < rest.len() implies 1 <= #[trigger] rest[i] <= base by {
                assert(rest[i] == letters[i + 1]);
            }
        }
        lemma_pack_bound(rest, base);
        assert(letters[0] - 1 + base * pack(rest, base) < base * pow(base, rest.len())) by (nonlinear_arith)
            requires
                0 <= letters[0] - 1 < base,
                0 <= pack(rest, base) < pow(base, rest.len()),
        ;
    }
}

/// Unpacking the value of in-range letters gives the letters back.
pub proof fn lemma_unpack_pack(letters: Seq<int>, base: int)
    requires
        base > 0,
        letters_in_range(letters, base),
    ensures
        unpack(pack(letters, base) as nat, base as nat, letters.len()) =~= letters,
    decreases letters.len(),
{
    lemma_pack_bound(letters, base);
    if letters.len() > 0 {
        let rest = letters.drop_first();
        assert(letters_in_range(rest, base)) by {
            assert forall|i: int| 0 <= i < rest.len() implies 1 <= #[trigger] rest[i] <= base by {
                assert(rest[i] == letters[i + 1]);
            }
        }
        lemma_pack_bound(rest, base);
        lemma_unpack_pack(rest, base);
        let v = pack(letters, base);
        assert(v == pack(rest, base) * base + (letters[0] - 1)) by (nonlinear_arith)
            requires
                v == (letters[0] - 1) + base * pack(rest, base),
        ;
        lemma_fundamental_div_mod_converse(v, base, pack(rest, base), letters[0] - 1);
        lemma_unpack_len(pack(rest, base) as nat, base as nat, rest.len());
    }
}

/// Appending a less significant digit `d` puts the letter `d + 1` at position 0.
pub proof fn lemma_unpack_cons(value: nat, base: nat, count: nat, d: nat)
    requires
        d < base,
    ensures
        unpack(value * base + d, base, count + 1) =~= seq![d as int + 1] + unpack(value, base, count),
{
    lemma_fundamental_div_mod_converse((value * base + d) as int, base as int, value as int, d as int);
}

/// Placing `hi` above the `m` low digits of `lo` concatenates their letters.
pub proof fn lemma_unpack_append(hi: nat, lo: nat, base: nat, m: nat, n: nat)
    requires
        base > 0,
        lo < pow(base as int, m),
    ensures
        hi * pow(base as int, m) + lo >= 0,
        unpack((hi * pow(base as int, m) + lo) as nat, base, m + n) =~= unpack(lo, base, m) + unpack(hi, base, n),
    decreases m,
{
    reveal(pow);
    lemma_pow_positive(base as int, m);
    assert(hi * pow(base as int, m) >= 0) by (nonlinear_arith)
        requires
            pow(base as int, m) > 0,
    ;
    if m == 0 {
        assert(lo == 0);
    } else {
        let p = pow(base as int, (m - 1) as nat);
        lemma_pow_positive(base as int, (m - 1) as nat);
        let x = hi * pow(base as int, m) + lo;
        let bi = base as int;
        let ld = lo as int / bi;
        let lm = lo as int % bi;
        let hp = hi * p;
        lemma_fundamental_div_mod(lo as int, bi);
        assert(pow(base as int, m) == bi * p);
        assert(hi * (bi * p) == hp * bi) by (nonlinear_arith)
            requires
                hp == hi * p,
        ;
        assert(x == (hp + ld) * bi + lm) by (nonlinear_arith)
            requires
                x == hi * (bi * p) + lo,
                hi * (bi * p) == hp * bi,
                lo == bi * ld + lm,
        ;
        assert(hi * p >= 0) by (nonlinear_arith)
            requires
                p > 0,
        ;
        lemma_fundamental_div_mod_converse(x, bi, hp + ld, lm);
        lemma_multiply_divide_lt(lo as int, base as int, p);
        lemma_unpack_append(hi, lo / base, base, (m - 1) as nat, n);
        assert(unpack(x as nat, base, m + n) =~= seq![(lo % base) as int + 1] + unpack((hi * p + lo / base) as nat, base, (m - 1 + n) as nat));
    }
}

/// The value of a concatenation: the letters of `high` sit above those of `low`.
pub proof fn lemma_pack_append(low: Seq<int>, high: Seq<int>, base: int)
    ensures
        pack(low + high, base) == pack(low, base) + pow(base, low.len()) * pack(high, base),
    decreases low.len(),
{
    reveal(pow);
    if low.len() == 0 {
        assert(low + high =~= high);
    } else {
        lemma_pack_append(low.drop_first(), high, base);
        assert((low + high).drop_first() =~= low.drop_first() + high);
        let a = pack(low.drop_first(), base);
        let b = pack(high, base);
        let p = pow(base, (low.len() - 1) as nat);
        assert(base * (a + p * b) == base * a + (base * p) * b) by (nonlinear_arith);
    }
}

/// Replacing the digit at position `pos` of a `count`-digit value changes exactly that letter.
pub proof fn lemma_replace_digit(value: nat, base: nat, count: nat, pos: nat, v: nat)
    requires
        base > 0,
        value < pow(base as int, count),
        pos < count,
        v < base,
    ensures
        ({
            let unit = pow(base as int, pos);
            let cur = (value as int / unit) % base as int;
            let new_value = value - cur * unit + v * unit;
            &&& unit > 0
            &&& 0 <= cur * unit <= value
            &&& 0 <= v * unit <= new_value
            &&& new_value < pow(base as int, count)
            &&& unpack(new_value as nat, base, count) =~= unpack(value, base, count).update(pos as int, v as int + 1)
        }),
{
    let unit = pow(base as int, pos);
    lemma_pow_positive(base as int, pos);
    let lo = value as int % unit;
    let q = value as int / unit;
    let cur = q % base as int;
    let hi = q / base as int;
    lemma_fundamental_div_mod(value as int, unit);
    lemma_fundamental_div_mod(q, base as int);
    vstd::arithmetic::power::lemma_pow_adds(base as int, pos, (count - pos) as nat);
    lemma_pow_positive(base as int, (count - pos) as nat);
    assert(value == q * unit + lo) by (nonlinear_arith)
        requires
            value == unit * q + lo,
    ;
    assert(q < pow(base as int, (count - pos) as nat)) by (nonlinear_arith)
        requires
            value == q * unit + lo,
            0 <= lo,
            unit > 0,
            value < unit * pow(base as int, (count - pos) as nat),
    ;
    assert(q >= 0) by (nonlinear_arith)
        requires
            value == q * unit + lo,
            0 <= lo < unit,
            value >= 0,
    ;
    let rest = (count - pos - 1) as nat;
    assert(pow(base as int, (count - pos) as nat) == base * pow(base as int, rest)) by {
        reveal(pow);
    }
    lemma_pow_positive(base as int, rest);
    assert(hi < pow(base as int, rest)) by (nonlinear_arith)
        requires
            q == base * hi + cur,
            0 <= cur,
            q < base * pow(base as int, rest),
            base > 0,
    ;
    assert(hi >= 0) by (nonlinear_arith)
        requires
            q == base * hi + cur,
            0 <= cur < base,
            q >= 0,
    ;
    let q2 = hi * base + v;
    let new_value = value - cur * unit + v * unit;
    assert(new_value == q2 * unit + lo) by (nonlinear_arith)
        requires
            value == q * unit + lo,
            q == base * hi + cur,
            q2 == hi * base + v,
            new_value == value - cur * unit + v * unit,
    ;
    assert(0 <= cur * unit <= value) by (nonlinear_arith)
        requires
            value == q * unit + lo,
            q == base * hi + cur,
            0 <= cur,
            hi >= 0,
            0 <= lo,
            unit > 0,
    ;
    assert(0 <= v * unit <= new_value) by (nonlinear_arith)
        requires
            new_value == q2 * unit + lo,
            q2 == hi * base + v,
            hi >= 0,
            0 <= lo,
            unit > 0,
    ;
    assert(q2 < pow(base as int, (count - pos) as nat)) by (nonlinear_arith)
        requires
            q2 == hi * base + v,
            v < base,
            hi < pow(base as int, rest),
            pow(base as int, (count - pos) as nat) == base * pow(base as int, rest),
    ;
    let top = pow(base as int, (count - pos) as nat);
    assert((q2 + 1) * unit <= top * unit) by (nonlinear_arith)
        requires
            q2 + 1 <= top,
            unit > 0,
    ;
    assert(new_value < pow(base as int, count)) by (nonlinear_arith)
        requires
            new_value == q2 * unit + lo,
            (q2 + 1) * unit <= top * unit,
            lo < unit,
            pow(base as int, count) == unit * top,
    ;
    lemma_unpack_append(q as nat, lo as nat, base, pos, (count - pos) as nat);
    lemma_unpack_append(q2 as nat, lo as nat, base, pos, (count - pos) as nat);
    lemma_fundamental_div_mod_converse(q, base as int, hi, cur);
    lemma_fundamental_div_mod_converse(q2, base as int, hi, v as int);
    lemma_unpack_len(lo as nat, base, pos);
    lemma_unpack_len(value, base, count);
    let a = unpack(q as nat, base, (count - pos) as nat);
    let b = unpack(q2 as nat, base, (count - pos) as nat);
    assert(a =~= seq![cur + 1] + unpack(hi as nat, base, rest));
    assert(b =~= seq![v as int + 1] + unpack(hi as nat, base, rest));
}

/// Changing the letter at position `i` to `v` changes the value by `(v - letters[i]) * base^i`.
pub proof fn lemma_pack_update(letters: Seq<int>, i: int, v: int, base: int)
    requires
        0 <= i < letters.len(),
    ensures
        pack(letters.update(i, v), base) == pack(letters, base) + (v - letters[i]) * pow(base, i as nat),
    decreases i,
{
    reveal(pow);
    let u = letters.update(i, v);
    if i == 0 {
        assert(u.drop_first() =~= letters.drop_first());
    } else {
        assert(u.drop_first() =~= letters.drop_first().update(i - 1, v));
        lemma_pack_update(letters.drop_first(), i - 1, v, base);
        let p = pow(base, (i - 1) as nat);
        let a = pack(letters.drop_first(), base);
        assert(base * (a + (v - letters[i]) * p) == base * a + (v - letters[i]) * (base * p)) by (nonlinear_arith);
    }
}

/// A single letter `x` has value `x - 1`.
pub proof fn lemma_pack_single(x: int, base: int)
    ensures
        pack(seq![x], base) == x - 1,
{
    assert(seq![x].drop_first() =~= Seq::<int>::empty());
    assert(pack(Seq::<int>::empty(), base) == 0);
    assert(base * 0 == 0);
}

} // verus!
