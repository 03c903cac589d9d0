//! Arithmetic in a prime field of u64-sized modulus.
//!
//! A field element is a plain residue `a` with `0 <= a < p`; every operation
//! states its result as the mathematical operation modulo `p`.

use vstd::prelude::*;
use vstd::arithmetic::power::pow;
use vstd::arithmetic::div_mod::{
    lemma_mul_mod_noop_general, lemma_mul_mod_noop_left, lemma_mul_mod_noop_right,
    lemma_add_mod_noop, lemma_mod_add_multiples_vanish, lemma_small_mod, lemma_mod_bound,
};
use vstd::arithmetic::mul::{lemma_mul_is_associative, lemma_mul_is_distributive_add_other_way};
use vstd::arithmetic::power::{lemma_pow_adds, lemma_pow_multiplies, lemma_pow_mod_noop};
use vstd::arithmetic::power2::pow2;

verus! {

/// A residue in the field of integers modulo `p`.
pub open spec fn in_field(p: int, a: int) -> bool {
    0 <= a < p
}

/// `p` is prime: at least 2, with no divisor strictly between 1 and itself.
pub open spec fn is_prime(p: int) -> bool {
    p >= 2 && forall|d: int| 2 <= d < p ==> #[trigger] (p % d) != 0
}

/// Field addition: (a + b) mod p.
pub open spec fn fadd(p: int, a: int, b: int) -> int {
    (a + b) % p
}

/// Field subtraction: (a - b) mod p (Euclidean remainder, so the result is in [0, p)).
pub open spec fn fsub(p: int, a: int, b: int) -> int {
    (a - b) % p
}

/// Field multiplication: (a * b) mod p.
pub open spec fn fmul(p: int, a: int, b: int) -> int {
    (a * b) % p
}

/// Field exponentiation: b^e mod p.
pub open spec fn fpow(p: int, b: int, e: nat) -> int {
    pow(b, e) % p
}

/// `a` has a multiplicative inverse modulo `p`.
pub open spec fn has_inverse(p: int, a: int) -> bool {
    exists|y: int| in_field(p, y) && #[trigger] fmul(p, a, y) == 1
}

/// The multiplicative inverse of `a` modulo `p` (meaningful only when one exists).
pub open spec fn finv(p: int, a: int) -> int {
    choose|y: int| in_field(p, y) && #[trigger] fmul(p, a, y) == 1
}

/// Addition of two residues, in the field.
pub fn add_mod(p: u64, a: u64, b: u64) -> (r: u64)
    requires
        p >= 2,
        a < p,
        b < p,
    ensures
        r == fadd(p as int, a as int, b as int),
        r < p,
{
    let s: u128 = a as u128 + b as u128;
    let r: u128 = s % (p as u128);
    proof {
        lemma_mod_bound(s as int, p as int);
    }
    r as u64
}

/// Subtraction of two residues, in the field.
pub fn sub_mod(p: u64, a: u64, b: u64) -> (r: u64)
    requires
        p >= 2,
        a < p,
        b < p,
    ensures
        r == fsub(p as int, a as int, b as int),
        r < p,
{
    if a >= b {
        proof {
            lemma_small_mod((a - b) as nat, p as nat);
        }
        a - b
    } else {
        proof {
            lemma_mod_add_multiples_vanish(a - b, p as int);
            lemma_small_mod((a - b + p) as nat, p as nat);
        }
        p - b + a
    }
}

/// Multiplication of two residues, in the field.
pub fn mul_mod(p: u64, a: u64, b: u64) -> (r: u64)
    requires
        p >= 2,
        a < p,
        b < p,
    ensures
        r == fmul(p as int, a as int, b as int),
        r < p,
{
    proof {
        assert((a as int) * (b as int) < 0x100000000000000000000000000000000int)
            by (nonlinear_arith)
            requires
                a < 0x10000000000000000,
                b < 0x10000000000000000,
        ;
    }
    let prod: u128 = (a as u128) * (b as u128);
    let r: u128 = prod % (p as u128);
    proof {
        lemma_mod_bound(prod as int, p as int);
    }
    r as u64
}

/// Exponentiation of a residue, in the field.
pub fn pow_mod(p: u64, base: u64, e: u64) -> (r: u64)
    requires
        p >= 2,
        base < p,
    ensures
        r == fpow(p as int, base as int, e as nat),
        r < p,
{
    let mut r: u64 = 1;
    let mut i: u64 = 0;
    proof {
        lemma_small_mod(1nat, p as nat);
        assert(pow(base as int, 0) == 1) by {
            vstd::arithmetic::power::lemma_pow0(base as int);
        }
    }
    while i < e
        invariant
            p >= 2,
            base < p,
            r < p,
            i <= e,
            r == fpow(p as int, base as int, i as nat),
        decreases e - i,
    {
        proof {
            assert(pow(base as int, (i + 1) as nat) == pow(base as int, i as nat) * base) by {
                lemma_pow_adds(base as int, i as nat, 1nat);
                vstd::arithmetic::power::lemma_pow1(base as int);
            }
            lemma_mul_mod_noop_left(pow(base as int, i as nat), base as int, p as int);
        }
        r = mul_mod(p, r, base);
        i = i + 1;
    }
    r
}

/// The multiplicative inverse of `a` modulo `p`, or `None` when no residue
/// inverts `a` (for a prime modulus that happens only at `a == 0`).
pub fn inv_mod(p: u64, a: u64) -> (r: Option<u64>)
    requires
        p >= 2,
        a < p,
    ensures
        match r {
            Option::Some(y) => y < p && fmul(p as int, a as int, y as int) == 1
                && has_inverse(p as int, a as int),
            Option::None => !has_inverse(p as int, a as int),
        },
{
    let mut y: u64 = 0;
    while y < p
        invariant
            p >= 2,
            a < p,
            y <= p,
            forall|z: int| 0 <= z < y ==> #[trigger] fmul(p as int, a as int, z) != 1,
        decreases p - y,
    {
        if mul_mod(p, a, y) == 1 {
            return Some(y);
        }
        y = y + 1;
    }
    None
}

/// Field multiplication commutes.
pub proof fn lemma_fmul_comm(p: int, a: int, b: int)
    ensures
        fmul(p, a, b) == fmul(p, b, a),
{
    assert(a * b == b * a) by {
        vstd::arithmetic::mul::lemma_mul_is_commutative(a, b);
    }
}

/// Field multiplication is associative.
pub proof fn lemma_fmul_assoc(p: int, a: int, b: int, c: int)
    requires
        p >= 2,
    ensures
        fmul(p, fmul(p, a, b), c) == fmul(p, a, fmul(p, b, c)),
{
    lemma_mul_mod_noop_left(a * b, c, p);
    lemma_mul_mod_noop_right(a, b * c, p);
    lemma_mul_is_associative(a, b, c);
}

/// Field multiplication distributes over field addition.
pub proof fn lemma_fmul_distrib(p: int, a: int, b: int, c: int)
    requires
        p >= 2,
    ensures
        fmul(p, fadd(p, a, b), c) == fadd(p, fmul(p, a, c), fmul(p, b, c)),
{
    lemma_mul_mod_noop_left(a + b, c, p);
    lemma_mul_is_distributive_add_other_way(c, a, b);
    lemma_add_mod_noop(a * c, b * c, p);
}

/// Field addition is associative.
pub proof fn lemma_fadd_assoc(p: int, a: int, b: int, c: int)
    requires
        p >= 2,
    ensures
        fadd(p, fadd(p, a, b), c) == fadd(p, a, fadd(p, b, c)),
{
    vstd::arithmetic::div_mod::lemma_add_mod_noop_right(c, a + b, p);
    vstd::arithmetic::div_mod::lemma_add_mod_noop_right(a, b + c, p);
    assert((a + b) % p + c == c + (a + b) % p);
}

/// Adding the residue 0 changes nothing.
pub proof fn lemma_fadd_zero(p: int, a: int)
    requires
        p >= 2,
        in_field(p, a),
    ensures
        fadd(p, a, 0) == a,
        fadd(p, 0, a) == a,
{
    lemma_small_mod(a as nat, p as nat);
}

/// Exponent addition turns into a field product of powers.
pub proof fn lemma_fpow_adds(p: int, b: int, e1: nat, e2: nat)
    requires
        p >= 2,
    ensures
        fpow(p, b, e1 + e2) == fmul(p, fpow(p, b, e1), fpow(p, b, e2)),
{
    lemma_pow_adds(b, e1, e2);
    lemma_mul_mod_noop_general(pow(b, e1), pow(b, e2), p);
}

/// A power of a power is the power of the product of the exponents.
pub proof fn lemma_fpow_multiplies(p: int, b: int, e1: nat, e2: nat)
    requires
        p >= 2,
    ensures
        fpow(p, fpow(p, b, e1), e2) == fpow(p, b, e1 * e2),
{
    lemma_pow_multiplies(b, e1, e2);
    lemma_pow_mod_noop(pow(b, e1), e2, p);
}

/// `d` divides `x`.
pub open spec fn divides(d: int, x: int) -> bool {
    exists|k: int| x == #[trigger] (d * k)
}

/// The greatest common divisor, by Euclid's recursion.
pub open spec fn gcd(a: nat, b: nat) -> nat
    decreases b,
{
    if b == 0 {
        a
    } else {
        gcd(b, a % b)
    }
}

/// The gcd divides both of its arguments.
pub proof fn lemma_gcd_divides(a: nat, b: nat)
    ensures
        divides(gcd(a, b) as int, a as int),
        divides(gcd(a, b) as int, b as int),
    decreases b,
{
    let g = gcd(a, b) as int;
    if b == 0 {
        assert(a as int == g * 1);
        assert(b as int == g * 0);
    } else {
        lemma_gcd_divides(b, a % b);
        let q = a as int / b as int;
        let k1 = choose|k: int| b as int == #[trigger] (g * k);
        let k2 = choose|k: int| (a % b) as int == #[trigger] (g * k);
        vstd::arithmetic::div_mod::lemma_fundamental_div_mod(a as int, b as int);
        assert(a as int == g * (k1 * q + k2)) by (nonlinear_arith)
            requires
                a as int == (b as int) * q + (a % b) as int,
                b as int == g * k1,
                (a % b) as int == g * k2,
        ;
    }
}

/// Bezout's identity: the gcd is an integer linear combination of its
/// arguments; the returned pair holds the two coefficients.
pub proof fn lemma_gcd_bezout(a: nat, b: nat) -> (r: (int, int))
    ensures
        gcd(a, b) as int == (a as int) * r.0 + (b as int) * r.1,
    decreases b,
{
    if b == 0 {
        assert(a as int == (a as int) * 1 + (b as int) * 0);
        (1int, 0int)
    } else {
        let (x, y) = lemma_gcd_bezout(b, a % b);
        let q = a as int / b as int;
        vstd::arithmetic::div_mod::lemma_fundamental_div_mod(a as int, b as int);
        assert(gcd(a, b) as int == (a as int) * y + (b as int) * (x - q * y)) by (nonlinear_arith)
            requires
                gcd(a, b) as int == (b as int) * x + ((a % b) as int) * y,
                (a % b) as int == a as int - (b as int) * q,
        ;
        (y, x - q * y)
    }
}

/// In a prime field every non-zero residue is invertible.
pub proof fn lemma_prime_inverse(p: int, a: int)
    requires
        is_prime(p),
        0 < a < p,
    ensures
        has_inverse(p, a),
{
    let g = gcd(p as nat, a as nat) as int;
    lemma_gcd_divides(p as nat, a as nat);
    let kp = choose|k: int| p == #[trigger] (g * k);
    let ka = choose|k: int| a == #[trigger] (g * k);
    assert(g >= 1) by (nonlinear_arith)
        requires
            p == g * kp,
            p >= 2,
            g >= 0,
    ;
    assert(g <= a) by (nonlinear_arith)
        requires
            a == g * ka,
            a >= 1,
            g >= 1,
    ;
    if g >= 2 {
        vstd::arithmetic::div_mod::lemma_fundamental_div_mod_converse(p, g, kp, 0);
        assert(false);
    }
    let (x, y) = lemma_gcd_bezout(p as nat, a as nat);
    let y0 = y % p;
    lemma_mod_bound(y, p);
    lemma_mul_mod_noop_right(a, y, p);
    assert(a * y == p * (-x) + 1) by (nonlinear_arith)
        requires
            1 == p * x + a * y,
    ;
    vstd::arithmetic::div_mod::lemma_mod_multiples_vanish(-x, 1, p);
    lemma_small_mod(1nat, p as nat);
    assert(fmul(p, a, y0) == 1);
}

/// A prime field has no zero divisors.
pub proof fn lemma_no_zero_divisors(p: int, a: int, b: int)
    requires
        is_prime(p),
        0 < a < p,
        0 < b < p,
    ensures
        fmul(p, a, b) != 0,
{
    lemma_prime_inverse(p, b);
    let bi = finv(p, b);
    assert(in_field(p, bi) && fmul(p, b, bi) == 1);
    lemma_fmul_assoc(p, a, b, bi);
    lemma_fmul_identity(p, a);
    if fmul(p, a, b) == 0 {
        assert(fmul(p, 0, bi) == 0) by {
            lemma_small_mod(0nat, p as nat);
        }
        assert(false);
    }
}

/// In a prime field, 1 has no square roots besides 1 and p - 1.
pub proof fn lemma_square_roots_of_one(p: int, y: int)
    requires
        is_prime(p),
        0 <= y < p,
        fmul(p, y, y) == 1,
    ensures
        y == 1 || y == p - 1,
{
    let u = (y - 1) % p;
    let v = (y + 1) % p;
    lemma_mul_mod_noop_general(y - 1, y + 1, p);
    assert((y - 1) * (y + 1) == y * y - 1) by (nonlinear_arith);
    vstd::arithmetic::div_mod::lemma_fundamental_div_mod(y * y, p);
    let q = y * y / p;
    assert(y * y - 1 == p * q);
    vstd::arithmetic::div_mod::lemma_mod_multiples_vanish(q, 0, p);
    lemma_small_mod(0nat, p as nat);
    assert(fmul(p, u, v) == 0);
    lemma_mod_bound(y - 1, p);
    lemma_mod_bound(y + 1, p);
    if u != 0 && v != 0 {
        lemma_no_zero_divisors(p, u, v);
        assert(false);
    }
    if u == 0 {
        if y == 0 {
            lemma_mod_add_multiples_vanish(-1, p);
            lemma_small_mod((p - 1) as nat, p as nat);
            assert(false);
        }
        lemma_small_mod((y - 1) as nat, p as nat);
        assert(y == 1);
    } else {
        if y + 1 < p {
            lemma_small_mod((y + 1) as nat, p as nat);
            assert(false);
        }
        assert(y == p - 1);
    }
}

/// No power of two vanishes modulo an odd prime.
pub proof fn lemma_pow2_mod_prime_nonzero(p: int, k: nat)
    requires
        is_prime(p),
        p >= 3,
    ensures
        (pow2(k) as int) % p != 0,
    decreases k,
{
    if k == 0 {
        vstd::arithmetic::power2::lemma2_to64();
        lemma_small_mod(1nat, p as nat);
    } else {
        lemma_pow2_mod_prime_nonzero(p, (k - 1) as nat);
        vstd::arithmetic::power2::lemma_pow2_unfold(k);
        let prev = pow2((k - 1) as nat) as int;
        lemma_mod_bound(prev, p);
        lemma_mul_mod_noop_left(prev, 2, p);
        lemma_no_zero_divisors(p, prev % p, 2);
        assert(fmul(p, prev % p, 2) == (pow2(k) as int) % p);
    }
}

/// Multiplying by the residue 1 changes nothing.
pub proof fn lemma_fmul_identity(p: int, a: int)
    requires
        p >= 2,
        in_field(p, a),
    ensures
        fmul(p, 1, a) == a,
        fmul(p, a, 1) == a,
{
    lemma_small_mod(a as nat, p as nat);
}

/// Raising to `e + 1` is one more field multiplication by the base.
pub proof fn lemma_fpow_step(p: int, b: int, e: nat)
    requires
        p >= 2,
    ensures
        fpow(p, b, e + 1) == fmul(p, fpow(p, b, e), b),
{
    assert(pow(b, e + 1) == pow(b, e) * b) by {
        lemma_pow_adds(b, e, 1nat);
        vstd::arithmetic::power::lemma_pow1(b);
    }
    lemma_mul_mod_noop_left(pow(b, e), b, p);
}

/// A residue has at most one inverse: whoever exhibits one has named `finv`.
pub proof fn lemma_finv_unique(p: int, a: int, y: int)
    requires
        p >= 2,
        in_field(p, y),
        fmul(p, a, y) == 1,
    ensures
        has_inverse(p, a),
        finv(p, a) == y,
{
    assert(has_inverse(p, a));
    let y2 = finv(p, a);
    assert(in_field(p, y2) && fmul(p, a, y2) == 1);
    lemma_fmul_identity(p, y);
    lemma_fmul_assoc(p, y, a, y2);
    lemma_fmul_comm(p, y, a);
    lemma_fmul_identity(p, y2);
}

} // verus!
