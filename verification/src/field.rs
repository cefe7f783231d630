//! The scalar field of the prover: integers modulo the NTT-friendly prime
//! 12289 = 3 * 2^12 + 1, whose multiplicative group has two-adicity 12, so
//! every power-of-two domain up to 4096 has a primitive root of unity.
//!
//! Field elements are `u64` values below [`MODULUS`]. The specification-level
//! operations `fadd`, `fsub`, `fmul`, `pow_fr` are ordinary integer
//! arithmetic reduced modulo the prime; every executable operation is proved
//! to agree with them.

use vstd::prelude::*;

verus! {

use vstd::arithmetic::div_mod::{
    lemma_add_mod_noop, lemma_div_nonincreasing, lemma_fundamental_div_mod, lemma_mod_bound,
    lemma_mod_self_0, lemma_mod_sub_multiples_vanish, lemma_mul_mod_noop_general,
    lemma_mul_mod_noop_left, lemma_mul_mod_noop_right, lemma_small_mod, lemma_sub_mod_noop,
    lemma_sub_mod_noop_right,
};
use vstd::arithmetic::mul::{
    lemma_mul_is_associative, lemma_mul_is_distributive_add, lemma_mul_is_distributive_sub_other_way,
};

use crate::errors::SynthesisError;

/// The field modulus, a prime with 2^12 dividing `MODULUS - 1`.
pub const MODULUS: u64 = 12289;

/// A generator of the whole multiplicative group of the field.
pub const MULTIPLICATIVE_GENERATOR: u64 = 11;

/// The inverse of [`MULTIPLICATIVE_GENERATOR`]; checked in `lemma_generator_inverse`.
pub const MULTIPLICATIVE_GENERATOR_INV: u64 = 5586;

/// The largest power-of-two subgroup order available in the field.
pub const MAX_DOMAIN_SIZE: u64 = 4096;

/// The exponent `(MODULUS - 1) / 2` deciding quadratic residuosity.
pub const LEGENDRE_EXPONENT: u64 = 6144;

/// A quadratic non-residue: its Legendre power equals minus one.
#[verifier::opaque]
pub open spec fn is_qnr(c: u64) -> bool {
    pow_fr(c as int, LEGENDRE_EXPONENT as nat) == (MODULUS - 1) as int
}

/// A `u64` is a reduced field element when it lies below the modulus.
pub open spec fn is_fr(x: u64) -> bool {
    x < MODULUS
}

/// Every element of the sequence is a reduced field element.
pub open spec fn all_fr(s: Seq<u64>) -> bool {
    forall|i: int| 0 <= i < s.len() ==> is_fr(#[trigger] s[i])
}

/// Field addition.
pub open spec fn fadd(a: int, b: int) -> int {
    (a + b) % (MODULUS as int)
}

/// Field subtraction.
pub open spec fn fsub(a: int, b: int) -> int {
    (a - b) % (MODULUS as int)
}

/// Field multiplication.
pub open spec fn fmul(a: int, b: int) -> int {
    (a * b) % (MODULUS as int)
}

/// Field exponentiation by a non-negative integer.
pub open spec fn pow_fr(b: int, e: nat) -> int
    decreases e,
{
    if e == 0 {
        1
    } else {
        fmul(b, pow_fr(b, (e - 1) as nat))
    }
}

/// Field multiplication is associative.
pub proof fn lemma_fmul_assoc(a: int, b: int, c: int)
    ensures
        fmul(fmul(a, b), c) == fmul(a, fmul(b, c)),
{
    lemma_mul_mod_noop_left(a * b, c, MODULUS as int);
    lemma_mul_mod_noop_right(a, b * c, MODULUS as int);
    lemma_mul_is_associative(a, b, c);
}

/// Field addition is associative.
pub proof fn lemma_fadd_assoc(a: int, b: int, c: int)
    ensures
        fadd(fadd(a, b), c) == fadd(a, fadd(b, c)),
{
    lemma_add_mod_noop(a + b, c, MODULUS as int);
    lemma_add_mod_noop(a, b + c, MODULUS as int);
    lemma_small_mod((c % (MODULUS as int)) as nat, MODULUS as nat);
    lemma_small_mod((a % (MODULUS as int)) as nat, MODULUS as nat);
    assert(fadd(fadd(a, b), c) == ((a + b) % (MODULUS as int) + c % (MODULUS as int)) % (
    MODULUS as int));
    assert(fadd(a, fadd(b, c)) == (a % (MODULUS as int) + (b + c) % (MODULUS as int)) % (
    MODULUS as int));
}

/// Field multiplication is commutative.
pub proof fn lemma_fmul_comm(a: int, b: int)
    ensures
        fmul(a, b) == fmul(b, a),
{
    assert(a * b == b * a) by (nonlinear_arith);
}

/// Two field sums of the same four terms are equal however the terms are
/// paired.
pub proof fn lemma_fadd_rearrange(a: int, b: int, c: int, d: int)
    ensures
        fadd(fadd(a, b), fadd(c, d)) == fadd(fadd(a, c), fadd(b, d)),
{
    let m = MODULUS as int;
    lemma_add_mod_noop(a + b, c + d, m);
    lemma_add_mod_noop(a + c, b + d, m);
}

/// Field multiplication distributes over field addition.
pub proof fn lemma_fmul_distrib(a: int, b: int, c: int)
    ensures
        fmul(a, fadd(b, c)) == fadd(fmul(a, b), fmul(a, c)),
{
    let m = MODULUS as int;
    lemma_mul_mod_noop_right(a, b + c, m);
    assert(fmul(a, fadd(b, c)) == (a * (b + c)) % m);
    lemma_mul_is_distributive_add(a, b, c);
    assert(a * (b + c) == a * b + a * c);
    lemma_add_mod_noop(a * b, a * c, m);
}

/// Raising to a successor exponent multiplies by the base on the right.
pub proof fn lemma_pow_fr_succ(b: int, e: nat)
    ensures
        pow_fr(b, e + 1) == fmul(pow_fr(b, e), b),
    decreases e,
{
    if e == 0 {
        assert(pow_fr(b, 1) == fmul(b, pow_fr(b, 0)));
        assert(pow_fr(b, 0) == 1);
    } else {
        let p1 = pow_fr(b, (e - 1) as nat);
        lemma_pow_fr_succ(b, (e - 1) as nat);
        assert(pow_fr(b, e) == fmul(b, p1));
        assert(pow_fr(b, e + 1) == fmul(b, pow_fr(b, e)));
        lemma_fmul_assoc(b, p1, b);
    }
}

/// Every field power of a reduced base is reduced.
pub proof fn lemma_pow_fr_bounds(b: int, e: nat)
    ensures
        e == 0 ==> pow_fr(b, e) == 1,
        e > 0 ==> 0 <= pow_fr(b, e) < MODULUS,
    decreases e,
{
}

/// Executable field addition.
pub fn add_fr(a: u64, b: u64) -> (r: u64)
    requires
        is_fr(a),
        is_fr(b),
    ensures
        is_fr(r),
        r as int == fadd(a as int, b as int),
{
    let s = a + b;
    if s >= MODULUS {
        proof {
            lemma_mod_sub_multiples_vanish(s as int, MODULUS as int);
            lemma_small_mod((s - MODULUS) as nat, MODULUS as nat);
        }
        s - MODULUS
    } else {
        proof {
            lemma_small_mod(s as nat, MODULUS as nat);
        }
        s
    }
}

/// Executable field subtraction.
pub fn sub_fr(a: u64, b: u64) -> (r: u64)
    requires
        is_fr(a),
        is_fr(b),
    ensures
        is_fr(r),
        r as int == fsub(a as int, b as int),
{
    if a >= b {
        proof {
            lemma_small_mod((a - b) as nat, MODULUS as nat);
        }
        a - b
    } else {
        let r = a + MODULUS - b;
        proof {
            lemma_mod_sub_multiples_vanish(r as int, MODULUS as int);
            lemma_small_mod(r as nat, MODULUS as nat);
        }
        r
    }
}

/// Executable field multiplication.
pub fn mul_fr(a: u64, b: u64) -> (r: u64)
    requires
        is_fr(a),
        is_fr(b),
    ensures
        is_fr(r),
        r as int == fmul(a as int, b as int),
{
    proof {
        assert(a as int * b as int <= 150994944) by (nonlinear_arith)
            requires
                a < 12289,
                b < 12289,
        ;
    }
    (a * b) % MODULUS
}

/// Executable field exponentiation.
pub fn pow_mod(base: u64, exp: u64) -> (r: u64)
    requires
        is_fr(base),
    ensures
        is_fr(r),
        r as int == pow_fr(base as int, exp as nat),
{
    let mut acc: u64 = 1;
    let mut i: u64 = 0;
    while i < exp
        invariant
            is_fr(base),
            is_fr(acc),
            i <= exp,
            acc as int == pow_fr(base as int, i as nat),
        decreases exp - i,
    {
        proof {
            lemma_pow_fr_succ(base as int, i as nat);
        }
        acc = mul_fr(acc, base);
        i = i + 1;
    }
    acc
}

/// Whether `a` has a multiplicative inverse in the field.
pub open spec fn has_inverse(a: int) -> bool {
    exists|r: int| 0 <= r < MODULUS && fmul(a, r) == 1
}

/// The multiplicative inverse of `a`, meaningful when `has_inverse(a)`.
pub open spec fn finv(a: int) -> int {
    choose|r: int| 0 <= r < MODULUS && fmul(a, r) == 1
}

/// A field element has at most one inverse.
pub proof fn lemma_inverse_unique(a: int, r1: int, r2: int)
    requires
        0 <= r1 < MODULUS,
        0 <= r2 < MODULUS,
        fmul(a, r1) == 1,
        fmul(a, r2) == 1,
    ensures
        r1 == r2,
{
    lemma_fmul_assoc(r1, a, r2);
    assert(fmul(r1, a) == fmul(a, r1));
    assert(fmul(a, r2) == fmul(r2, a));
    lemma_small_mod(r1 as nat, MODULUS as nat);
    lemma_small_mod(r2 as nat, MODULUS as nat);
    assert(fmul(fmul(r1, a), r2) == fmul(1, r2));
    assert(fmul(1, r2) == r2 % (MODULUS as int));
    assert(fmul(r1, fmul(a, r2)) == fmul(r1, 1));
    assert(fmul(r1, 1) == r1 % (MODULUS as int));
}

/// Two field products of the same four factors are equal however the
/// factors are paired.
pub proof fn lemma_fmul_rearrange(a: int, b: int, c: int, d: int)
    ensures
        fmul(fmul(a, b), fmul(c, d)) == fmul(fmul(a, c), fmul(b, d)),
{
    let m = MODULUS as int;
    lemma_mul_mod_noop_general(a * b, c * d, m);
    lemma_mul_mod_noop_general(a * c, b * d, m);
    assert((a * b) * (c * d) == (a * c) * (b * d)) by (nonlinear_arith);
}

/// Powers add: raising to a sum of exponents multiplies the powers.
pub proof fn lemma_pow_fr_add(b: int, e1: nat, e2: nat)
    ensures
        pow_fr(b, e1 + e2) == fmul(pow_fr(b, e1), pow_fr(b, e2)),
    decreases e1,
{
    if e1 == 0 {
        lemma_pow_fr_bounds(b, e2);
        if e2 > 0 {
            lemma_small_mod(pow_fr(b, e2) as nat, MODULUS as nat);
        }
    } else {
        lemma_pow_fr_add(b, (e1 - 1) as nat, e2);
        lemma_fmul_assoc(b, pow_fr(b, (e1 - 1) as nat), pow_fr(b, e2));
    }
}

/// A power of a product is the product of the powers.
pub proof fn lemma_pow_fr_mul_base(a: int, b: int, e: nat)
    ensures
        pow_fr(fmul(a, b), e) == fmul(pow_fr(a, e), pow_fr(b, e)),
    decreases e,
{
    if e == 0 {
    } else {
        lemma_pow_fr_mul_base(a, b, (e - 1) as nat);
        lemma_fmul_rearrange(a, b, pow_fr(a, (e - 1) as nat), pow_fr(b, (e - 1) as nat));
        // pow(ab, e) unfolds through the reduced product; reducing the base
        // does not change the product modulo the prime
        let m = MODULUS as int;
        let rest = pow_fr(fmul(a, b), (e - 1) as nat);
        lemma_mul_mod_noop_left(a * b, rest, m);
    }
}

/// Iterated powers multiply the exponents.
pub proof fn lemma_pow_fr_pow(b: int, e1: nat, e2: nat)
    ensures
        pow_fr(pow_fr(b, e1), e2) == pow_fr(b, e1 * e2),
    decreases e2,
{
    if e2 == 0 {
        assert(e1 * 0 == 0);
    } else {
        lemma_pow_fr_pow(b, e1, (e2 - 1) as nat);
        lemma_pow_fr_add(b, e1, (e1 * (e2 - 1)) as nat);
        assert(e1 + e1 * (e2 - 1) == e1 * e2) by (nonlinear_arith);
    }
}

/// Every power of one is one.
pub proof fn lemma_pow_fr_one_base(e: nat)
    ensures
        pow_fr(1, e) == 1,
    decreases e,
{
    if e > 0 {
        lemma_pow_fr_one_base((e - 1) as nat);
    }
}

/// A common factor with an inverse cancels from an equation of products.
pub proof fn lemma_fmul_cancel(a: int, x: int, y: int)
    requires
        has_inverse(a),
        fmul(a, x) == fmul(a, y),
        0 <= x < MODULUS,
        0 <= y < MODULUS,
    ensures
        x == y,
{
    let r = choose|r: int| 0 <= r < MODULUS && fmul(a, r) == 1;
    lemma_fmul_assoc(r, a, x);
    lemma_fmul_assoc(r, a, y);
    assert(r * a == a * r) by (nonlinear_arith);
    assert(fmul(r, a) == 1);
    lemma_small_mod(x as nat, MODULUS as nat);
    lemma_small_mod(y as nat, MODULUS as nat);
    assert(fmul(fmul(r, a), x) == x);
    assert(fmul(fmul(r, a), y) == y);
}

/// Whether `n` has a divisor `d` with `2 <= d <= k`.
pub open spec fn has_factor_in(n: int, k: int) -> bool
    decreases k,
{
    if k < 2 {
        false
    } else {
        n % k == 0 || has_factor_in(n, k - 1)
    }
}

proof fn lemma_factor_found(n: int, d: int, k: int)
    requires
        2 <= d <= k,
        n % d == 0,
    ensures
        has_factor_in(n, k),
    decreases k,
{
    if k > d {
        lemma_factor_found(n, d, k - 1);
    }
}

proof fn lemma_no_small_factor(n: int, k: int, d: int)
    requires
        !has_factor_in(n, k),
        1 <= k,
        (k + 1) * (k + 1) > n,
        2 <= d < n,
    ensures
        n % d != 0,
{
    if n % d == 0 {
        if d <= k {
            lemma_factor_found(n, d, k);
        } else {
            lemma_fundamental_div_mod(n, d);
            let e = n / d;
            assert(n == d * e);
            assert(e >= 2) by (nonlinear_arith)
                requires
                    n == d * e,
                    2 <= d < n,
            ;
            assert(e <= k) by (nonlinear_arith)
                requires
                    n == d * e,
                    d >= k + 1,
                    (k + 1) * (k + 1) > n,
                    e >= 2,
                    k >= 1,
            ;
            assert(n % e == 0) by (nonlinear_arith)
                requires
                    n == d * e,
                    2 <= e,
                    2 <= d,
            ;
            lemma_factor_found(n, e, k);
        }
    }
}

/// The modulus is prime: it has no divisor strictly between 1 and itself.
#[verifier::rlimit(100)]
pub proof fn lemma_modulus_prime(d: int)
    requires
        2 <= d < MODULUS,
    ensures
        (MODULUS as int) % d != 0,
{
    assert(!has_factor_in(12289, 1));
    assert(!has_factor_in(12289, 2));
    assert(!has_factor_in(12289, 3));
    assert(!has_factor_in(12289, 4));
    assert(!has_factor_in(12289, 5));
    assert(!has_factor_in(12289, 6));
    assert(!has_factor_in(12289, 7));
    assert(!has_factor_in(12289, 8));
    assert(!has_factor_in(12289, 9));
    assert(!has_factor_in(12289, 10));
    assert(!has_factor_in(12289, 11));
    assert(!has_factor_in(12289, 12));
    assert(!has_factor_in(12289, 13));
    assert(!has_factor_in(12289, 14));
    assert(!has_factor_in(12289, 15));
    assert(!has_factor_in(12289, 16));
    assert(!has_factor_in(12289, 17));
    assert(!has_factor_in(12289, 18));
    assert(!has_factor_in(12289, 19));
    assert(!has_factor_in(12289, 20));
    assert(!has_factor_in(12289, 21));
    assert(!has_factor_in(12289, 22));
    assert(!has_factor_in(12289, 23));
    assert(!has_factor_in(12289, 24));
    assert(!has_factor_in(12289, 25));
    assert(!has_factor_in(12289, 26));
    assert(!has_factor_in(12289, 27));
    assert(!has_factor_in(12289, 28));
    assert(!has_factor_in(12289, 29));
    assert(!has_factor_in(12289, 30));
    assert(!has_factor_in(12289, 31));
    assert(!has_factor_in(12289, 32));
    assert(!has_factor_in(12289, 33));
    assert(!has_factor_in(12289, 34));
    assert(!has_factor_in(12289, 35));
    assert(!has_factor_in(12289, 36));
    assert(!has_factor_in(12289, 37));
    assert(!has_factor_in(12289, 38));
    assert(!has_factor_in(12289, 39));
    assert(!has_factor_in(12289, 40));
    assert(!has_factor_in(12289, 41));
    assert(!has_factor_in(12289, 42));
    assert(!has_factor_in(12289, 43));
    assert(!has_factor_in(12289, 44));
    assert(!has_factor_in(12289, 45));
    assert(!has_factor_in(12289, 46));
    assert(!has_factor_in(12289, 47));
    assert(!has_factor_in(12289, 48));
    assert(!has_factor_in(12289, 49));
    assert(!has_factor_in(12289, 50));
    assert(!has_factor_in(12289, 51));
    assert(!has_factor_in(12289, 52));
    assert(!has_factor_in(12289, 53));
    assert(!has_factor_in(12289, 54));
    assert(!has_factor_in(12289, 55));
    assert(!has_factor_in(12289, 56));
    assert(!has_factor_in(12289, 57));
    assert(!has_factor_in(12289, 58));
    assert(!has_factor_in(12289, 59));
    assert(!has_factor_in(12289, 60));
    assert(!has_factor_in(12289, 61));
    assert(!has_factor_in(12289, 62));
    assert(!has_factor_in(12289, 63));
    assert(!has_factor_in(12289, 64));
    assert(!has_factor_in(12289, 65));
    assert(!has_factor_in(12289, 66));
    assert(!has_factor_in(12289, 67));
    assert(!has_factor_in(12289, 68));
    assert(!has_factor_in(12289, 69));
    assert(!has_factor_in(12289, 70));
    assert(!has_factor_in(12289, 71));
    assert(!has_factor_in(12289, 72));
    assert(!has_factor_in(12289, 73));
    assert(!has_factor_in(12289, 74));
    assert(!has_factor_in(12289, 75));
    assert(!has_factor_in(12289, 76));
    assert(!has_factor_in(12289, 77));
    assert(!has_factor_in(12289, 78));
    assert(!has_factor_in(12289, 79));
    assert(!has_factor_in(12289, 80));
    assert(!has_factor_in(12289, 81));
    assert(!has_factor_in(12289, 82));
    assert(!has_factor_in(12289, 83));
    assert(!has_factor_in(12289, 84));
    assert(!has_factor_in(12289, 85));
    assert(!has_factor_in(12289, 86));
    assert(!has_factor_in(12289, 87));
    assert(!has_factor_in(12289, 88));
    assert(!has_factor_in(12289, 89));
    assert(!has_factor_in(12289, 90));
    assert(!has_factor_in(12289, 91));
    assert(!has_factor_in(12289, 92));
    assert(!has_factor_in(12289, 93));
    assert(!has_factor_in(12289, 94));
    assert(!has_factor_in(12289, 95));
    assert(!has_factor_in(12289, 96));
    assert(!has_factor_in(12289, 97));
    assert(!has_factor_in(12289, 98));
    assert(!has_factor_in(12289, 99));
    assert(!has_factor_in(12289, 100));
    assert(!has_factor_in(12289, 101));
    assert(!has_factor_in(12289, 102));
    assert(!has_factor_in(12289, 103));
    assert(!has_factor_in(12289, 104));
    assert(!has_factor_in(12289, 105));
    assert(!has_factor_in(12289, 106));
    assert(!has_factor_in(12289, 107));
    assert(!has_factor_in(12289, 108));
    assert(!has_factor_in(12289, 109));
    assert(!has_factor_in(12289, 110));
    lemma_no_small_factor(12289, 110, d);
}

/// The named generator constants are inverse to each other.
pub proof fn lemma_generator_inverse()
    ensures
        fmul(MULTIPLICATIVE_GENERATOR as int, MULTIPLICATIVE_GENERATOR_INV as int) == 1,
{
    assert(fmul(11, 5586) == 1);
}

/// The pairs `(x, y)` and `(MODULUS, a)` have exactly the same common
/// divisors `d`.
pub open spec fn common_divisors_match(x: int, y: int, a: int, d: int) -> bool {
    (x % d == 0 && y % d == 0) <==> ((MODULUS as int) % d == 0 && a % d == 0)
}

proof fn lemma_euclid_step_divisors(r0: int, r1: int, q: int, r2: int, d: int)
    requires
        r0 == q * r1 + r2,
        d >= 1,
    ensures
        (r1 % d == 0 && r2 % d == 0) ==> r0 % d == 0,
        (r0 % d == 0 && r1 % d == 0) ==> r2 % d == 0,
{
    if r1 % d == 0 {
        lemma_mul_mod_noop_right(q, r1, d);
        assert(q * (r1 % d) % d == (q * r1) % d);
        assert(q * 0 == 0) by (nonlinear_arith);
        lemma_small_mod(0nat, d as nat);
        assert((q * r1) % d == 0);
        lemma_add_mod_noop(q * r1, r2, d);
        assert(((q * r1) % d + r2 % d) % d == (q * r1 + r2) % d);
        if r2 % d == 0 {
            assert((q * r1 + r2) % d == 0);
        }
        if r0 % d == 0 {
            lemma_sub_mod_noop(r0, q * r1, d);
            assert((r0 % d - (q * r1) % d) % d == (r0 - q * r1) % d);
            assert((r0 - q * r1) % d == 0);
            assert(r2 == r0 - q * r1);
        }
    }
}

proof fn lemma_euclid_step_bezout(r0: int, r1: int, q: int, r2: int, t0: int, t1: int, t2: int, a: int)
    requires
        r0 == q * r1 + r2,
        r0 % (MODULUS as int) == fmul(t0, a),
        r1 % (MODULUS as int) == fmul(t1, a),
        t2 == (t0 + MODULUS - ((q * t1) % (MODULUS as int))) % (MODULUS as int),
        0 <= r2 < MODULUS,
    ensures
        r2 % (MODULUS as int) == fmul(t2, a),
{
    let m = MODULUS as int;
    // t2 is congruent to t0 - q * t1
    lemma_mod_sub_multiples_vanish((t0 - (q * t1) % m) as int, m);
    assert(t2 == (t0 - (q * t1) % m) % m);
    lemma_sub_mod_noop_right(t0, q * t1, m);
    assert(t2 == (t0 - q * t1) % m);
    // (t2 * a) % m == ((t0 - q * t1) * a) % m
    lemma_mul_mod_noop_left(t0 - q * t1, a, m);
    lemma_mul_is_distributive_sub_other_way(a, t0, q * t1);
    assert((t0 - q * t1) * a == t0 * a - (q * t1) * a);
    // (q * t1) * a == q * (t1 * a)
    lemma_mul_is_associative(q, t1, a);
    // reduce both summands
    lemma_sub_mod_noop(t0 * a, q * (t1 * a), m);
    lemma_mul_mod_noop_right(q, t1 * a, m);
    assert((q * (t1 * a)) % m == (q * ((t1 * a) % m)) % m);
    assert((q * ((t1 * a) % m)) % m == (q * (r1 % m)) % m);
    lemma_mul_mod_noop_right(q, r1, m);
    assert((q * (r1 % m)) % m == (q * r1) % m);
    lemma_sub_mod_noop(r0, q * r1, m);
    assert((t0 * a - q * (t1 * a)) % m == ((t0 * a) % m - (q * (t1 * a)) % m) % m);
    assert(((t0 * a) % m - (q * r1) % m) % m == (r0 % m - (q * r1) % m) % m);
    assert((r0 - q * r1) % m == r2 % m);
    lemma_small_mod(r2 as nat, MODULUS as nat);
}

/// Executable field inversion by the extended Euclidean algorithm.
///
/// Succeeds exactly on the non-zero elements; the proof that a non-zero
/// element always has an inverse rests on `lemma_modulus_prime`.
pub fn inv_fr(a: u64) -> (res: Result<u64, SynthesisError>)
    requires
        is_fr(a),
    ensures
        match res {
            Ok(r) => a != 0 && is_fr(r) && fmul(a as int, r as int) == 1 && r as int == finv(
                a as int,
            ),
            Err(e) => a == 0 && e == SynthesisError::DivisionByZero,
        },
{
    if a == 0 {
        return Err(SynthesisError::DivisionByZero);
    }
    let mut r0: u64 = MODULUS;
    let mut r1: u64 = a;
    let mut t0: u64 = 0;
    let mut t1: u64 = 1;
    proof {
        lemma_mod_self_0(MODULUS as int);
        lemma_small_mod(a as nat, MODULUS as nat);
    }
    while r1 != 0
        invariant
            1 <= a < MODULUS,
            1 <= r0 <= MODULUS,
            r1 < r0,
            t0 < MODULUS,
            t1 < MODULUS,
            (r0 as int) % (MODULUS as int) == fmul(t0 as int, a as int),
            (r1 as int) % (MODULUS as int) == fmul(t1 as int, a as int),
            forall|d: int|
                1 <= d ==> #[trigger] common_divisors_match(r0 as int, r1 as int, a as int, d),
        decreases r1,
    {
        let q = r0 / r1;
        let r2 = r0 % r1;
        proof {
            lemma_fundamental_div_mod(r0 as int, r1 as int);
            lemma_div_nonincreasing(r0 as int, r1 as int);
            assert(q as int * t1 as int <= 151019521) by (nonlinear_arith)
                requires
                    q <= 12289,
                    t1 < 12289,
            ;
        }
        let qt = (q * t1) % MODULUS;
        let t2 = (t0 + MODULUS - qt) % MODULUS;
        proof {
            lemma_euclid_step_bezout(
                r0 as int,
                r1 as int,
                q as int,
                r2 as int,
                t0 as int,
                t1 as int,
                t2 as int,
                a as int,
            );
            assert forall|d: int| 1 <= d implies #[trigger] common_divisors_match(
                r1 as int,
                r2 as int,
                a as int,
                d,
            ) by {
                assert(common_divisors_match(r0 as int, r1 as int, a as int, d));
                lemma_euclid_step_divisors(r0 as int, r1 as int, q as int, r2 as int, d);
            }
        }
        r0 = r1;
        r1 = r2;
        t0 = t1;
        t1 = t2;
    }
    proof {
        lemma_mod_self_0(r0 as int);
        lemma_small_mod(0nat, r0 as nat);
        assert(common_divisors_match(r0 as int, r1 as int, a as int, r0 as int));
        assert((r0 as int) % (r0 as int) == 0 && (r1 as int) % (r0 as int) == 0);
        assert((MODULUS as int) % (r0 as int) == 0 && (a as int) % (r0 as int) == 0);
        if r0 > a {
            lemma_small_mod(a as nat, r0 as nat);
            assert(false);
        }
        if r0 >= 2 {
            lemma_modulus_prime(r0 as int);
            assert(false);
        }
        assert(r0 == 1);
        lemma_small_mod(1nat, MODULUS as nat);
        assert(fmul(t0 as int, a as int) == 1);
        assert(t0 as int * a as int == a as int * t0 as int);
        assert(fmul(a as int, t0 as int) == 1);
        assert(has_inverse(a as int));
        let w = finv(a as int);
        assert(0 <= w < MODULUS && fmul(a as int, w) == 1);
        lemma_inverse_unique(a as int, t0 as int, w);
    }
    Ok(t0)
}

proof fn lemma_euclid_bezout(r0: int, r1: int, t0: int, t1: int, a: int)
    requires
        1 <= a < MODULUS,
        1 <= r0 <= MODULUS,
        0 <= r1 < r0,
        0 <= t0 < MODULUS,
        0 <= t1 < MODULUS,
        r0 % (MODULUS as int) == fmul(t0, a),
        r1 % (MODULUS as int) == fmul(t1, a),
        forall|d: int| 1 <= d ==> #[trigger] common_divisors_match(r0, r1, a, d),
    ensures
        has_inverse(a),
    decreases r1,
{
    if r1 == 0 {
        lemma_mod_self_0(r0);
        lemma_small_mod(0nat, r0 as nat);
        assert(common_divisors_match(r0, r1, a, r0));
        assert(r0 % r0 == 0 && r1 % r0 == 0);
        assert((MODULUS as int) % r0 == 0 && a % r0 == 0);
        if r0 > a {
            lemma_small_mod(a as nat, r0 as nat);
            assert(false);
        }
        if r0 >= 2 {
            lemma_modulus_prime(r0);
            assert(false);
        }
        assert(r0 == 1);
        lemma_small_mod(1nat, MODULUS as nat);
        assert(fmul(t0, a) == 1);
        assert(t0 * a == a * t0) by (nonlinear_arith);
        assert(fmul(a, t0) == 1);
    } else {
        let m = MODULUS as int;
        let q = r0 / r1;
        let r2 = r0 % r1;
        lemma_fundamental_div_mod(r0, r1);
        lemma_mod_bound(r0, r1);
        let t2 = (t0 + MODULUS - ((q * t1) % m)) % m;
        lemma_mod_bound(q * t1, m);
        lemma_mod_bound(t0 + MODULUS - ((q * t1) % m), m);
        lemma_euclid_step_bezout(r0, r1, q, r2, t0, t1, t2, a);
        assert forall|d: int| 1 <= d implies #[trigger] common_divisors_match(r1, r2, a, d) by {
            assert(common_divisors_match(r0, r1, a, d));
            lemma_euclid_step_divisors(r0, r1, q, r2, d);
        }
        lemma_euclid_bezout(r1, r2, t1, t2, a);
    }
}

/// Every non-zero field element has a multiplicative inverse; the witness
/// comes from the extended Euclidean algorithm and the primality of the
/// modulus.
pub proof fn lemma_nonzero_has_inverse(a: int)
    requires
        1 <= a < MODULUS,
    ensures
        has_inverse(a),
{
    lemma_mod_self_0(MODULUS as int);
    lemma_small_mod(a as nat, MODULUS as nat);
    assert(fmul(0, a) == 0);
    assert(fmul(1, a) == a % (MODULUS as int));
    lemma_euclid_bezout(MODULUS as int, a, 0, 1, a);
}


/// The generator's powers along the two-adic tower, folded from repeated
/// squaring: its order is divisible by the full two-adic part of the
/// group order, so it lies in no proper power-of-two subgroup.
#[verifier::rlimit(100)]
pub proof fn lemma_generator_two_adic_powers()
    ensures
        pow_fr(MULTIPLICATIVE_GENERATOR as int, 4096) == 6240,
        pow_fr(MULTIPLICATIVE_GENERATOR as int, (LEGENDRE_EXPONENT) as nat) == (MODULUS - 1) as int,
        pow_fr(MULTIPLICATIVE_GENERATOR as int, (MODULUS - 1) as nat) == 1,
{
    assert(pow_fr(11, 0) == 1);
    assert(pow_fr(11, 1) == 11) by {
        assert(pow_fr(11, 1) == fmul(11, pow_fr(11, 0)));
        assert(fmul(11, 1) == 11);
    }
    assert(pow_fr(11, 2) == 121) by {
        lemma_pow_fr_add(11, 1, 1);
        assert(fmul(11, 11) == 121);
    }
    assert(pow_fr(11, 4) == 2352) by {
        lemma_pow_fr_add(11, 2, 2);
        assert(fmul(121, 121) == 2352);
    }
    assert(pow_fr(11, 8) == 1854) by {
        lemma_pow_fr_add(11, 4, 4);
        assert(fmul(2352, 2352) == 1854);
    }
    assert(pow_fr(11, 16) == 8685) by {
        lemma_pow_fr_add(11, 8, 8);
        assert(fmul(1854, 1854) == 8685);
    }
    assert(pow_fr(11, 32) == 11632) by {
        lemma_pow_fr_add(11, 16, 16);
        assert(fmul(8685, 8685) == 11632);
    }
    assert(pow_fr(11, 64) == 1534) by {
        lemma_pow_fr_add(11, 32, 32);
        assert(fmul(11632, 11632) == 1534);
    }
    assert(pow_fr(11, 128) == 5957) by {
        lemma_pow_fr_add(11, 64, 64);
        assert(fmul(1534, 1534) == 5957);
    }
    assert(pow_fr(11, 256) == 7506) by {
        lemma_pow_fr_add(11, 128, 128);
        assert(fmul(5957, 5957) == 7506);
    }
    assert(pow_fr(11, 512) == 7260) by {
        lemma_pow_fr_add(11, 256, 256);
        assert(fmul(7506, 7506) == 7260);
    }
    assert(pow_fr(11, 1024) == 79) by {
        lemma_pow_fr_add(11, 512, 512);
        assert(fmul(7260, 7260) == 79);
    }
    assert(pow_fr(11, 2048) == 6241) by {
        lemma_pow_fr_add(11, 1024, 1024);
        assert(fmul(79, 79) == 6241);
    }
    assert(pow_fr(11, 4096) == 6240) by {
        lemma_pow_fr_add(11, 2048, 2048);
        assert(fmul(6241, 6241) == 6240);
    }
    assert(pow_fr(11, 8192) == 6048) by {
        lemma_pow_fr_add(11, 4096, 4096);
        assert(fmul(6240, 6240) == 6048);
    }
    assert(pow_fr(11, 6144) == 12288) by {
        lemma_pow_fr_add(11, 4096, 2048);
        assert(fmul(6240, 6241) == 12288);
    }
    assert(pow_fr(11, 12288) == 1) by {
        lemma_pow_fr_add(11, 8192, 4096);
        assert(fmul(6048, 6240) == 1);
    }
}

/// Nineteen's Legendre power is minus one: it is a quadratic non-residue.
#[verifier::rlimit(100)]
pub proof fn lemma_qnr_power_19()
    ensures
        pow_fr(19, LEGENDRE_EXPONENT as nat) == (MODULUS - 1) as int,
{
    assert(pow_fr(19, 0) == 1);
    assert(pow_fr(19, 1) == 19) by {
        assert(pow_fr(19, 1) == fmul(19, pow_fr(19, 0)));
        assert(fmul(19, 1) == 19);
    }
    assert(pow_fr(19, 2) == 361) by {
        lemma_pow_fr_add(19, 1, 1);
        assert(fmul(19, 19) == 361);
    }
    assert(pow_fr(19, 4) == 7431) by {
        lemma_pow_fr_add(19, 2, 2);
        assert(fmul(361, 361) == 7431);
    }
    assert(pow_fr(19, 8) == 5284) by {
        lemma_pow_fr_add(19, 4, 4);
        assert(fmul(7431, 7431) == 5284);
    }
    assert(pow_fr(19, 16) == 48) by {
        lemma_pow_fr_add(19, 8, 8);
        assert(fmul(5284, 5284) == 48);
    }
    assert(pow_fr(19, 32) == 2304) by {
        lemma_pow_fr_add(19, 16, 16);
        assert(fmul(48, 48) == 2304);
    }
    assert(pow_fr(19, 64) == 11857) by {
        lemma_pow_fr_add(19, 32, 32);
        assert(fmul(2304, 2304) == 11857);
    }
    assert(pow_fr(19, 128) == 2289) by {
        lemma_pow_fr_add(19, 64, 64);
        assert(fmul(11857, 11857) == 2289);
    }
    assert(pow_fr(19, 256) == 4407) by {
        lemma_pow_fr_add(19, 128, 128);
        assert(fmul(2289, 2289) == 4407);
    }
    assert(pow_fr(19, 512) == 5029) by {
        lemma_pow_fr_add(19, 256, 256);
        assert(fmul(4407, 4407) == 5029);
    }
    assert(pow_fr(19, 1024) == 79) by {
        lemma_pow_fr_add(19, 512, 512);
        assert(fmul(5029, 5029) == 79);
    }
    assert(pow_fr(19, 2048) == 6241) by {
        lemma_pow_fr_add(19, 1024, 1024);
        assert(fmul(79, 79) == 6241);
    }
    assert(pow_fr(19, 4096) == 6240) by {
        lemma_pow_fr_add(19, 2048, 2048);
        assert(fmul(6241, 6241) == 6240);
    }
    assert(pow_fr(19, 6144) == 12288) by {
        lemma_pow_fr_add(19, 4096, 2048);
        assert(fmul(6240, 6241) == 12288);
    }
}

/// Twenty-two's Legendre power is minus one: it is a quadratic non-residue.
#[verifier::rlimit(100)]
pub proof fn lemma_qnr_power_22()
    ensures
        pow_fr(22, LEGENDRE_EXPONENT as nat) == (MODULUS - 1) as int,
{
    assert(pow_fr(22, 0) == 1);
    assert(pow_fr(22, 1) == 22) by {
        assert(pow_fr(22, 1) == fmul(22, pow_fr(22, 0)));
        assert(fmul(22, 1) == 22);
    }
    assert(pow_fr(22, 2) == 484) by {
        lemma_pow_fr_add(22, 1, 1);
        assert(fmul(22, 22) == 484);
    }
    assert(pow_fr(22, 4) == 765) by {
        lemma_pow_fr_add(22, 2, 2);
        assert(fmul(484, 484) == 765);
    }
    assert(pow_fr(22, 8) == 7642) by {
        lemma_pow_fr_add(22, 4, 4);
        assert(fmul(765, 765) == 7642);
    }
    assert(pow_fr(22, 16) == 2836) by {
        lemma_pow_fr_add(22, 8, 8);
        assert(fmul(7642, 7642) == 2836);
    }
    assert(pow_fr(22, 32) == 5890) by {
        lemma_pow_fr_add(22, 16, 16);
        assert(fmul(2836, 2836) == 5890);
    }
    assert(pow_fr(22, 64) == 253) by {
        lemma_pow_fr_add(22, 32, 32);
        assert(fmul(5890, 5890) == 253);
    }
    assert(pow_fr(22, 128) == 2564) by {
        lemma_pow_fr_add(22, 64, 64);
        assert(fmul(253, 253) == 2564);
    }
    assert(pow_fr(22, 256) == 11770) by {
        lemma_pow_fr_add(22, 128, 128);
        assert(fmul(2564, 2564) == 11770);
    }
    assert(pow_fr(22, 512) == 11292) by {
        lemma_pow_fr_add(22, 256, 256);
        assert(fmul(11770, 11770) == 11292);
    }
    assert(pow_fr(22, 1024) == 10889) by {
        lemma_pow_fr_add(22, 512, 512);
        assert(fmul(11292, 11292) == 10889);
    }
    assert(pow_fr(22, 2048) == 6049) by {
        lemma_pow_fr_add(22, 1024, 1024);
        assert(fmul(10889, 10889) == 6049);
    }
    assert(pow_fr(22, 4096) == 6048) by {
        lemma_pow_fr_add(22, 2048, 2048);
        assert(fmul(6049, 6049) == 6048);
    }
    assert(pow_fr(22, 6144) == 12288) by {
        lemma_pow_fr_add(22, 4096, 2048);
        assert(fmul(6048, 6049) == 12288);
    }
}

} // verus!
