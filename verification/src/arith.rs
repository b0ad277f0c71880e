//! Facts about division, remainders and powers of two that the coders share.

use vstd::arithmetic::div_mod::{
    lemma_fundamental_div_mod,
    lemma_fundamental_div_mod_converse,
    lemma_mod_bound,
};
use vstd::arithmetic::power2::{lemma_pow2_adds, lemma_pow2_pos, lemma_pow2_strictly_increases, pow2};
use vstd::prelude::*;

verus! {

/// A number is its quotient times the divisor plus its remainder.
pub proof fn lemma_div_mod_split(x: nat, d: nat)
    requires
        d > 0,
    ensures
        x == (x / d) * d + x % d,
        x % d < d,
{
    lemma_fundamental_div_mod(x as int, d as int);
    lemma_mod_bound(x as int, d as int);
    assert(d * (x / d) == (x / d) * d) by (nonlinear_arith);
}

/// Quotient and remainder of `q * d + r` for `r < d`.
pub proof fn lemma_mul_add_div_mod(q: nat, d: nat, r: nat)
    requires
        r < d,
    ensures
        (q * d + r) / d == q,
        (q * d + r) % d == r,
{
    lemma_fundamental_div_mod_converse((q * d + r) as int, d as int, q as int, r as int);
}

/// A quotient is below a bound exactly when the number is below the bound
/// times the divisor.
pub proof fn lemma_div_below(x: nat, d: nat, bound: nat)
    requires
        d > 0,
    ensures
        x / d < bound <==> x < bound * d,
{
    lemma_div_mod_split(x, d);
    let q = x / d;
    if q < bound {
        assert((q + 1) * d <= bound * d) by (nonlinear_arith)
            requires
                q + 1 <= bound,
        ;
        assert((q + 1) * d == q * d + d) by (nonlinear_arith);
    } else {
        assert(bound * d <= q * d) by (nonlinear_arith)
            requires
                bound <= q,
        ;
    }
}

/// A power of two splits into two powers of two.
pub proof fn lemma_pow2_split(a: nat, b: nat)
    requires
        b <= a,
    ensures
        pow2(a) == pow2((a - b) as nat) * pow2(b),
        pow2(b) > 0,
        pow2((a - b) as nat) > 0,
        pow2(b) <= pow2(a),
{
    lemma_pow2_adds((a - b) as nat, b);
    lemma_pow2_pos(b);
    lemma_pow2_pos((a - b) as nat);
    let x = pow2((a - b) as nat);
    let y = pow2(b);
    assert(y <= x * y) by (nonlinear_arith)
        requires
            x > 0,
            y > 0,
    ;
}

/// Powers of two grow with the exponent.
pub proof fn lemma_pow2_le(a: nat, b: nat)
    requires
        a <= b,
    ensures
        pow2(a) <= pow2(b),
        pow2(a) > 0,
{
    lemma_pow2_pos(a);
    if a < b {
        lemma_pow2_strictly_increases(a, b);
    }
}

/// A word pushed in below a head: the result is bounded, and quotient and
/// remainder by the word's modulus give the head and the word back.
pub proof fn lemma_shift_in(head: nat, word: nat, a: nat, b: nat)
    requires
        head < pow2(a),
        word < pow2(b),
    ensures
        head * pow2(b) + word < pow2(a + b),
        (head * pow2(b) + word) / pow2(b) == head,
        (head * pow2(b) + word) % pow2(b) == word,
{
    lemma_pow2_adds(a, b);
    lemma_mul_add_div_mod(head, pow2(b), word);
    let m = pow2(b);
    let n = pow2(a);
    assert(head * m + word < n * m) by (nonlinear_arith)
        requires
            head < n,
            word < m,
    ;
}

/// The quotient by a power of two of a number below a larger power of two.
pub proof fn lemma_shift_out(x: nat, a: nat, b: nat)
    requires
        x < pow2(a),
        b <= a,
    ensures
        x / pow2(b) < pow2((a - b) as nat),
        x % pow2(b) < pow2(b),
        x == (x / pow2(b)) * pow2(b) + x % pow2(b),
{
    lemma_pow2_split(a, b);
    lemma_div_mod_split(x, pow2(b));
    lemma_div_below(x, pow2(b), pow2((a - b) as nat));
}

} // verus!
