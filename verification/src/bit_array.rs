//! Unsigned integers of a fixed width, seen as natural numbers.

use vstd::arithmetic::power2::{lemma2_to64, lemma2_to64_rest, lemma_pow2_pos, pow2};
use vstd::prelude::*;

verus! {

/// An unsigned integer type of 8, 16, 32 or 64 bits.
///
/// Words of compressed data and coder states are values of such types. The
/// coders compute on the numeric value [`BitArray::as_nat`] of a word; the
/// width [`BitArray::spec_bits`] fixes the modulus of wrapping arithmetic.
pub trait BitArray: Copy + Sized {
    /// The width of the type in bits.
    spec fn spec_bits() -> nat;

    /// The numeric value of `self`.
    spec fn as_nat(self) -> nat;

    /// The width is one of the four supported ones.
    proof fn lemma_width()
        ensures
            Self::spec_bits() == 8 || Self::spec_bits() == 16 || Self::spec_bits() == 32
                || Self::spec_bits() == 64,
    ;

    /// Every value is below two to the width.
    proof fn lemma_value_bound(self)
        ensures
            self.as_nat() < pow2(Self::spec_bits()),
    ;

    /// Two values with the same numeric value are equal.
    proof fn lemma_value_determines(a: Self, b: Self)
        ensures
            a.as_nat() == b.as_nat() ==> a == b,
    ;

    /// The width of the type in bits.
    fn bits() -> (b: usize)
        ensures
            b == Self::spec_bits(),
    ;

    /// The numeric value of `self`.
    fn to_u64(self) -> (r: u64)
        ensures
            r == self.as_nat(),
    ;

    /// The value of this type whose numeric value is `x`.
    fn from_u64(x: u64) -> (r: Self)
        requires
            x < pow2(Self::spec_bits()),
        ensures
            r.as_nat() == x,
    ;
}

impl BitArray for u8 {
    open spec fn spec_bits() -> nat {
        8
    }

    open spec fn as_nat(self) -> nat {
        self as nat
    }

    proof fn lemma_width() {
    }

    proof fn lemma_value_bound(self) {
        lemma2_to64();
    }

    proof fn lemma_value_determines(a: Self, b: Self) {
    }

    fn bits() -> (b: usize) {
        8
    }

    fn to_u64(self) -> (r: u64) {
        self as u64
    }

    fn from_u64(x: u64) -> (r: Self) {
        proof {
            lemma2_to64();
        }
        x as u8
    }
}

impl BitArray for u16 {
    open spec fn spec_bits() -> nat {
        16
    }

    open spec fn as_nat(self) -> nat {
        self as nat
    }

    proof fn lemma_width() {
    }

    proof fn lemma_value_bound(self) {
        lemma2_to64();
    }

    proof fn lemma_value_determines(a: Self, b: Self) {
    }

    fn bits() -> (b: usize) {
        16
    }

    fn to_u64(self) -> (r: u64) {
        self as u64
    }

    fn from_u64(x: u64) -> (r: Self) {
        proof {
            lemma2_to64();
        }
        x as u16
    }
}

impl BitArray for u32 {
    open spec fn spec_bits() -> nat {
        32
    }

    open spec fn as_nat(self) -> nat {
        self as nat
    }

    proof fn lemma_width() {
    }

    proof fn lemma_value_bound(self) {
        lemma2_to64();
    }

    proof fn lemma_value_determines(a: Self, b: Self) {
    }

    fn bits() -> (b: usize) {
        32
    }

    fn to_u64(self) -> (r: u64) {
        self as u64
    }

    fn from_u64(x: u64) -> (r: Self) {
        proof {
            lemma2_to64();
        }
        x as u32
    }
}

impl BitArray for u64 {
    open spec fn spec_bits() -> nat {
        64
    }

    open spec fn as_nat(self) -> nat {
        self as nat
    }

    proof fn lemma_width() {
    }

    proof fn lemma_value_bound(self) {
        lemma2_to64();
        lemma2_to64_rest();
    }

    proof fn lemma_value_determines(a: Self, b: Self) {
    }

    fn bits() -> (b: usize) {
        64
    }

    fn to_u64(self) -> (r: u64) {
        self
    }

    fn from_u64(x: u64) -> (r: Self) {
        x
    }
}

/// The numeric values of a sequence of words.
pub open spec fn word_values<Word: BitArray>(words: Seq<Word>) -> Seq<nat> {
    words.map_values(|word: Word| word.as_nat())
}

/// The values of a sequence with one more word are the values of the
/// sequence with the value of that word.
pub proof fn lemma_word_values_push<Word: BitArray>(words: Seq<Word>, word: Word)
    ensures
        word_values(words.push(word)) == word_values(words).push(word.as_nat()),
{
    assert(word_values(words.push(word)) =~= word_values(words).push(word.as_nat()));
}

/// The values of a sequence without its last word.
pub proof fn lemma_word_values_drop_last<Word: BitArray>(words: Seq<Word>)
    requires
        words.len() > 0,
    ensures
        word_values(words.drop_last()) == word_values(words).drop_last(),
        word_values(words).last() == words.last().as_nat(),
{
    assert(word_values(words.drop_last()) =~= word_values(words).drop_last());
}

/// The values of two sequences in a row.
pub proof fn lemma_word_values_add<Word: BitArray>(a: Seq<Word>, b: Seq<Word>)
    ensures
        word_values(a + b) == word_values(a) + word_values(b),
{
    assert(word_values(a + b) =~= word_values(a) + word_values(b));
}

/// Two to the power `k`, for `k` up to 64.
pub fn pow2_u128(k: usize) -> (r: u128)
    requires
        k <= 64,
    ensures
        r == pow2(k as nat),
        0 < r <= 0x1_0000_0000_0000_0000,
{
    proof {
        lemma2_to64();
        lemma2_to64_rest();
        lemma_pow2_pos(k as nat);
    }
    if k == 64 {
        0x1_0000_0000_0000_0000u128
    } else {
        let one: u64 = 1;
        let shift: u64 = k as u64;
        proof {
            vstd::bits::lemma_u64_pow2_no_overflow(k as nat);
            vstd::bits::lemma_u64_shl_is_mul(one, shift);
            if k < 64 {
                vstd::arithmetic::power2::lemma_pow2_strictly_increases(k as nat, 64);
            }
        }
        (one << shift) as u128
    }
}

/// The quotient of `x` by two to the power `k`.
pub fn div_pow2(x: u64, k: usize) -> (r: u64)
    requires
        k <= 64,
    ensures
        r == (x as nat) / pow2(k as nat),
        r <= x,
{
    let divisor = pow2_u128(k);
    let wide: u128 = x as u128;
    let quotient: u128 = wide / divisor;
    proof {
        vstd::arithmetic::div_mod::lemma_div_nonincreasing(x as int, divisor as int);
    }
    quotient as u64
}

/// The remainder of `x` by two to the power `k`.
pub fn mod_pow2(x: u64, k: usize) -> (r: u64)
    requires
        k <= 64,
    ensures
        r == (x as nat) % pow2(k as nat),
        r < pow2(k as nat),
        r <= x,
{
    let divisor = pow2_u128(k);
    let wide: u128 = x as u128;
    let remainder: u128 = wide % divisor;
    proof {
        vstd::arithmetic::div_mod::lemma_mod_decreases(x as nat, divisor as nat);
    }
    remainder as u64
}

/// Whether `x` is below two to the power `k`.
pub fn below_pow2(x: u64, k: usize) -> (r: bool)
    requires
        k <= 64,
    ensures
        r <==> x < pow2(k as nat),
{
    (x as u128) < pow2_u128(k)
}

/// The product of `a` and `b` plus `c`, which never overflows 128 bits.
pub fn mul_add(a: u64, b: u64, c: u64) -> (r: u128)
    ensures
        r == a * b + c,
{
    proof {
        assert(a * b + c <= 0xffff_ffff_ffff_ffff * 0xffff_ffff_ffff_ffff + 0xffff_ffff_ffff_ffff)
            by (nonlinear_arith)
            requires
                0 <= a <= 0xffff_ffff_ffff_ffff,
                0 <= b <= 0xffff_ffff_ffff_ffff,
                0 <= c <= 0xffff_ffff_ffff_ffff,
        ;
    }
    (a as u128) * (b as u128) + (c as u128)
}

/// `x` times two to the power `k`, plus `y`, where that fits 64 bits.
pub fn mul_pow2_add(x: u64, k: usize, y: u64) -> (r: u64)
    requires
        k <= 64,
        x * pow2(k as nat) + y <= u64::MAX,
    ensures
        r == x * pow2(k as nat) + y,
{
    let factor = pow2_u128(k);
    proof {
        assert(0 <= x * factor) by (nonlinear_arith)
            requires
                0 <= x,
                0 <= factor,
        ;
    }
    if x == 0 {
        proof {
            assert(0 * pow2(k as nat) == 0) by (nonlinear_arith);
        }
        y
    } else {
        proof {
            assert(factor <= x * factor) by (nonlinear_arith)
                requires
                    1 <= x,
                    0 <= factor,
            ;
        }
        let wide: u128 = mul_add(x, factor as u64, y);
        wide as u64
    }
}

} // verus!
