//! Arithmetic in a prime field of residues modulo `p`, together with
//! the algebraic lemmas used by the chip gates.

use vstd::prelude::*;
use vstd::arithmetic::div_mod::{
    lemma_mod_add_multiples_vanish, lemma_small_mod, lemma_sub_mod_noop,
};

verus! {

/// `p` is the modulus of a prime field: it is at least 2 and the ring
/// of residues modulo `p` has no zero divisors.  For `p >= 2` this
/// holds exactly when `p` is prime, and it is the only form in which
/// primality is used here: a product of nonzero residues is nonzero.
pub open spec fn prime_modulus(p: int) -> bool {
    &&& p >= 2
    &&& forall|a: int, b: int|
        0 <= a < p && 0 <= b < p && #[trigger] ((a * b) % p) == 0 ==> a == 0 || b == 0
}

/// Field addition: the residue of `a + b` modulo `p`.
pub open spec fn add_f(p: int, a: int, b: int) -> int {
    (a + b) % p
}

/// Field subtraction: the residue of `a - b` modulo `p`.
pub open spec fn sub_f(p: int, a: int, b: int) -> int {
    (a - b) % p
}

/// Field multiplication: the residue of `a * b` modulo `p`.
pub open spec fn mul_f(p: int, a: int, b: int) -> int {
    (a * b) % p
}

/// Adds two field elements.
pub fn add_mod(a: u64, b: u64, p: u64) -> (r: u64)
    requires
        p >= 2,
        a < p,
        b < p,
    ensures
        r == add_f(p as int, a as int, b as int),
        r < p,
{
    let s: u128 = a as u128 + b as u128;
    let m: u128 = s % (p as u128);
    assert(m < p as u128);
    m as u64
}

/// Subtracts one field element from another.
pub fn sub_mod(a: u64, b: u64, p: u64) -> (r: u64)
    requires
        p >= 2,
        a < p,
        b < p,
    ensures
        r == sub_f(p as int, a as int, b as int),
        r < p,
{
    let s: u128 = a as u128 + p as u128 - b as u128;
    let m: u128 = s % (p as u128);
    proof {
        lemma_mod_add_multiples_vanish(a as int - b as int, p as int);
    }
    assert(m < p as u128);
    m as u64
}

/// Multiplies two field elements.
pub fn mul_mod(a: u64, b: u64, p: u64) -> (r: u64)
    requires
        p >= 2,
        a < p,
        b < p,
    ensures
        r == mul_f(p as int, a as int, b as int),
        r < p,
{
    proof {
        assert(a as int * b as int <= (p - 1) * (p - 1)) by (nonlinear_arith)
            requires
                0 <= a < p,
                0 <= b < p,
        ;
        assert((p - 1) * (p - 1) < 0x100000000000000000000000000000000) by (nonlinear_arith)
            requires
                2 <= p <= 0x10000000000000000,
        ;
    }
    let s: u128 = a as u128 * b as u128;
    let m: u128 = s % (p as u128);
    assert(m < p as u128);
    m as u64
}

/// Two field elements have a zero difference exactly when they are
/// equal; no primality is needed.
pub proof fn lemma_sub_f_zero(p: int, a: int, b: int)
    requires
        p >= 1,
        0 <= a < p,
        0 <= b < p,
    ensures
        sub_f(p, a, b) == 0 <==> a == b,
{
    if a == b {
        lemma_small_mod(0, p as nat);
    } else if a > b {
        lemma_small_mod((a - b) as nat, p as nat);
    } else {
        lemma_mod_add_multiples_vanish(a - b, p);
        lemma_small_mod((a - b + p) as nat, p as nat);
    }
}

/// In a prime field a product is zero exactly when one factor is.
pub proof fn lemma_mul_f_zero(p: int, a: int, b: int)
    requires
        prime_modulus(p),
        0 <= a < p,
        0 <= b < p,
    ensures
        mul_f(p, a, b) == 0 <==> (a == 0 || b == 0),
{
    if a == 0 || b == 0 {
        assert(a * b == 0);
    }
}

/// Equal residues have a difference divisible by `p`.
pub proof fn lemma_add_cancel(p: int, x: int, s1: int, s2: int)
    requires
        p >= 2,
        0 <= s1 < p,
        0 <= s2 < p,
        s1 != s2,
    ensures
        (x + s1) % p != (x + s2) % p,
{
    if (x + s1) % p == (x + s2) % p {
        lemma_sub_mod_noop(x + s1, x + s2, p);
        lemma_small_mod(0, p as nat);
        assert(((x + s1) - (x + s2)) % p == 0);
        assert((s1 - s2) % p == 0);
        lemma_sub_f_zero(p, s1, s2);
    }
}

} // verus!
