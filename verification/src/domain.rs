//! Power-of-two evaluation domains.
//!
//! A [`Domain`] carries a multiplicative subgroup of the field: its size, a
//! primitive root of unity of that order, the inverse root, and the inverse
//! of the size. Construction checks every algebraic property at run time, so
//! a well-formed domain is available to every proof downstream.

use vstd::prelude::*;

verus! {

use vstd::arithmetic::div_mod::{lemma_fundamental_div_mod, lemma_mod_bound, lemma_mod_multiples_basic};

use crate::errors::SynthesisError;
use crate::field::{
    finv, fmul, fsub, inv_fr, is_fr, is_qnr, lemma_fmul_comm, lemma_generator_inverse,
    lemma_generator_two_adic_powers, lemma_pow_fr_bounds, lemma_pow_fr_mul_base,
    lemma_pow_fr_one_base, lemma_pow_fr_pow, lemma_pow_fr_succ, lemma_qnr_power_19,
    lemma_qnr_power_22, mul_fr, pow_fr, pow_mod, sub_fr, LEGENDRE_EXPONENT, MAX_DOMAIN_SIZE,
    MODULUS, MULTIPLICATIVE_GENERATOR, MULTIPLICATIVE_GENERATOR_INV,
};

/// Whether `n` is a power of two.
pub open spec fn is_pow2(n: int) -> bool
    decreases n,
{
    if n <= 0 {
        false
    } else if n == 1 {
        true
    } else {
        n % 2 == 0 && is_pow2(n / 2)
    }
}

/// Executable power-of-two test.
pub fn is_power_of_two(n: usize) -> (r: bool)
    ensures
        r == is_pow2(n as int),
{
    if n == 0 {
        return false;
    }
    let mut m = n;
    while m > 1
        invariant
            m >= 1,
            is_pow2(n as int) == is_pow2(m as int),
        decreases m,
    {
        if m % 2 != 0 {
            return false;
        }
        m = m / 2;
    }
    true
}

/// The two-adicity bound itself is a power of two.
pub proof fn lemma_is_pow2_4096()
    ensures
        is_pow2(4096),
{
    assert(is_pow2(1));
    assert(is_pow2(2));
    assert(is_pow2(4));
    assert(is_pow2(8));
    assert(is_pow2(16));
    assert(is_pow2(32));
    assert(is_pow2(64));
    assert(is_pow2(128));
    assert(is_pow2(256));
    assert(is_pow2(512));
    assert(is_pow2(1024));
    assert(is_pow2(2048));
    assert(is_pow2(4096));
}

/// A power of two divides every power of two at least as large.
pub proof fn lemma_pow2_divides(a: int, b: int)
    requires
        is_pow2(a),
        is_pow2(b),
        a <= b,
    ensures
        b % a == 0,
    decreases a,
{
    if a == 1 {
        lemma_fundamental_div_mod(b, 1);
        lemma_mod_bound(b, 1);
    } else {
        let a2 = a / 2;
        let b2 = b / 2;
        lemma_fundamental_div_mod(a, 2);
        lemma_fundamental_div_mod(b, 2);
        assert(a == 2 * a2 && b == 2 * b2);
        lemma_pow2_divides(a2, b2);
        lemma_fundamental_div_mod(b2, a2);
        let q = b2 / a2;
        assert(b2 == a2 * q);
        assert(b == a * q) by (nonlinear_arith)
            requires
                b == 2 * b2,
                a == 2 * a2,
                b2 == a2 * q,
        ;
        assert((q * a) % a == 0) by {
            lemma_mod_multiples_basic(q, a);
        }
        assert(q * a == a * q) by (nonlinear_arith);
    }
}

/// Four times a power of two is a power of two.
pub proof fn lemma_is_pow2_quadruple(n: int)
    requires
        is_pow2(n),
    ensures
        is_pow2(4 * n),
{
    assert((4 * n) / 2 == 2 * n);
    assert((2 * n) / 2 == n);
    assert(is_pow2(2 * n));
}

/// The canonical generator of the multiplicative subgroup of order `n`:
/// the whole group's generator raised to the cofactor.
pub open spec fn domain_generator(n: int) -> int {
    pow_fr(MULTIPLICATIVE_GENERATOR as int, (((MODULUS - 1) as int) / n) as nat)
}

/// Descriptor of a power-of-two evaluation domain: the subgroup generator,
/// its inverse, and the inverse of the domain size.
#[derive(Clone, Copy, Debug, PartialEq, Eq, Structural)]
pub struct Domain {
    pub size: usize,
    pub omega: u64,
    pub omega_inv: u64,
    pub size_inv: u64,
}

/// On a supported size, the run-time checks of domain construction pass:
/// the cofactor is exact, the computed root has order exactly the size,
/// and it is non-zero.
proof fn lemma_supported_size_checks(size: int, cf: int)
    requires
        is_pow2(size),
        size <= MAX_DOMAIN_SIZE,
        cf == 12288int / size,
    ensures
        pow_fr(pow_fr(MULTIPLICATIVE_GENERATOR as int, cf as nat), size as nat) == 1,
        size > 1 ==> pow_fr(
            pow_fr(MULTIPLICATIVE_GENERATOR as int, cf as nat),
            (size / 2) as nat,
        ) == (MODULUS - 1) as int,
        pow_fr(MULTIPLICATIVE_GENERATOR as int, cf as nat) != 0,
{
    let g = MULTIPLICATIVE_GENERATOR as int;
    lemma_generator_two_adic_powers();
    lemma_is_pow2_4096();
    // the size divides the two-adic part of the group order, so the
    // cofactor is exact
    lemma_pow2_divides(size, 4096);
    lemma_fundamental_div_mod(4096, size);
    let q = 4096int / size;
    assert(4096 == size * q);
    assert(12288 == size * (3 * q)) by (nonlinear_arith)
        requires
            4096 == size * q,
    ;
    assert((size * (3 * q)) % size == 0) by {
        lemma_mod_multiples_basic(3 * q, size);
        assert((3 * q) * size == size * (3 * q)) by (nonlinear_arith);
    }
    lemma_fundamental_div_mod(12288, size);
    assert(cf * size == 12288);
    // omega^size == g^12288 == 1
    lemma_pow_fr_pow(g, cf as nat, size as nat);
    assert(cf >= 0) by (nonlinear_arith)
        requires
            cf * size == 12288,
            size >= 1,
    ;
    assert(cf as nat * size as nat == (cf * size) as nat);
    // omega^(size/2) == g^6144 == -1 when the size is even
    if size > 1 {
        let h = size / 2;
        lemma_fundamental_div_mod(size, 2);
        assert(size == 2 * h);
        assert(cf * h == 6144) by (nonlinear_arith)
            requires
                cf * size == 12288,
                size == 2 * h,
        ;
        lemma_pow_fr_pow(g, cf as nat, h as nat);
        assert(cf as nat * h as nat == (cf * h) as nat);
    }
    // omega is invertible, hence non-zero
    lemma_generator_inverse();
    lemma_pow_fr_mul_base(g, MULTIPLICATIVE_GENERATOR_INV as int, cf as nat);
    lemma_pow_fr_one_base(cf as nat);
    assert(fmul(pow_fr(g, cf as nat), pow_fr(MULTIPLICATIVE_GENERATOR_INV as int, cf as nat))
        == 1);
    if pow_fr(g, cf as nat) == 0 {
        assert(fmul(0, pow_fr(MULTIPLICATIVE_GENERATOR_INV as int, cf as nat)) == 0);
        assert(false);
    }
}

/// The unique domain value produced for a given size.
pub open spec fn domain_for_size(n: int) -> Domain {
    Domain {
        size: n as usize,
        omega: domain_generator(n) as u64,
        omega_inv: finv(domain_generator(n)) as u64,
        size_inv: finv(n) as u64,
    }
}

impl Domain {
    /// Algebraic well-formedness: the size is a supported power of two, the
    /// stored root has multiplicative order exactly `size`, and the stored
    /// inverses really invert the root and the size.
    pub open spec fn wf(&self) -> bool {
        &&& 1 <= self.size <= MAX_DOMAIN_SIZE
        &&& is_pow2(self.size as int)
        &&& is_fr(self.omega)
        &&& is_fr(self.omega_inv)
        &&& is_fr(self.size_inv)
        &&& pow_fr(self.omega as int, self.size as nat) == 1
        &&& (self.size > 1 ==> pow_fr(self.omega as int, (self.size / 2) as nat) != 1)
        &&& fmul(self.omega as int, self.omega_inv as int) == 1
        &&& fmul(self.size as int, self.size_inv as int) == 1
    }

    /// Build the domain of the requested power-of-two size.
    ///
    /// Succeeds exactly on the sizes the field supports: the powers of two
    /// up to its two-adicity. The computed root provably has the required
    /// order, because the group generator lies in no proper two-adic
    /// subgroup.
    pub fn new_for_size(size: usize) -> (res: Result<Domain, SynthesisError>)
        ensures
            match res {
                Ok(d) => {
                    &&& d.wf()
                    &&& d.size == size
                    &&& d == domain_for_size(size as int)
                },
                Err(e) => e == SynthesisError::NonPowerOfTwoSize,
            },
            res is Ok <==> (is_pow2(size as int) && size <= MAX_DOMAIN_SIZE),
    {
        if !is_power_of_two(size) || size > MAX_DOMAIN_SIZE as usize {
            return Err(SynthesisError::NonPowerOfTwoSize);
        }
        let cofactor = (MODULUS - 1) / (size as u64);
        let omega = pow_mod(MULTIPLICATIVE_GENERATOR, cofactor);
        proof {
            lemma_supported_size_checks(size as int, cofactor as int);
        }
        if pow_mod(omega, size as u64) != 1 {
            return Err(SynthesisError::NonPowerOfTwoSize);
        }
        if size > 1 && pow_mod(omega, (size / 2) as u64) == 1 {
            return Err(SynthesisError::NonPowerOfTwoSize);
        }
        let omega_inv = match inv_fr(omega) {
            Ok(v) => v,
            Err(_) => {
                return Err(SynthesisError::NonPowerOfTwoSize);
            },
        };
        let size_inv = match inv_fr(size as u64) {
            Ok(v) => v,
            Err(_) => {
                return Err(SynthesisError::NonPowerOfTwoSize);
            },
        };
        let d = Domain { size, omega, omega_inv, size_inv };
        proof {
            assert(d == domain_for_size(size as int));
        }
        Ok(d)
    }

    /// All domain elements `omega^i` in natural enumeration order.
    pub fn materialize_domain_elements(&self) -> (r: Vec<u64>)
        requires
            self.wf(),
        ensures
            r@.len() == self.size,
            forall|i: int| 0 <= i < self.size ==> #[trigger] r@[i] as int == pow_fr(
                self.omega as int,
                i as nat,
            ),
    {
        let mut r: Vec<u64> = Vec::new();
        let mut cur: u64 = 1;
        let mut i: usize = 0;
        while i < self.size
            invariant
                self.wf(),
                i <= self.size,
                r@.len() == i,
                is_fr(cur),
                cur as int == pow_fr(self.omega as int, i as nat),
                forall|k: int| 0 <= k < i ==> #[trigger] r@[k] as int == pow_fr(
                    self.omega as int,
                    k as nat,
                ),
            decreases self.size - i,
        {
            r.push(cur);
            proof {
                lemma_pow_fr_succ(self.omega as int, i as nat);
            }
            cur = mul_fr(cur, self.omega);
            i = i + 1;
        }
        r
    }
}

/// Evaluate the vanishing polynomial `X^n - 1` of a domain of size `n` at a
/// point.
pub fn evaluate_vanishing_for_size(z: u64, n: u64) -> (r: u64)
    requires
        is_fr(z),
    ensures
        is_fr(r),
        r as int == fsub(pow_fr(z as int, n as nat), 1),
{
    let p = pow_mod(z, n);
    sub_fr(p, 1)
}

/// No quadratic non-residue lies in the half-open range `[lo, hi)`.
#[verifier::opaque]
pub open spec fn qnr_free_range(lo: int, hi: int) -> bool {
    forall|x: u64| lo <= x < hi ==> !is_qnr(x)
}

/// `v` is the smallest quadratic non-residue not below `lo`.
pub open spec fn is_least_qnr_from(lo: int, v: u64) -> bool {
    &&& is_qnr(v)
    &&& lo <= v
    &&& qnr_free_range(lo, v as int)
}

/// The lower bound the `i`-th canonical non-residue must be minimal from:
/// two for the first, one past the previous one otherwise.
pub open spec fn qnr_search_floor(s: Seq<u64>, i: int) -> int {
    if i == 0 {
        2
    } else {
        s[i - 1] as int + 1
    }
}

proof fn lemma_empty_qnr_range(lo: int)
    ensures
        qnr_free_range(lo, lo),
{
    reveal(qnr_free_range);
}

proof fn lemma_extend_qnr_range(lo: int, hi: u64)
    requires
        qnr_free_range(lo, hi as int),
        pow_fr(hi as int, LEGENDRE_EXPONENT as nat) != (MODULUS - 1) as int,
    ensures
        qnr_free_range(lo, hi as int + 1),
{
    reveal(qnr_free_range);
    reveal(crate::field::is_qnr);
    assert(!is_qnr(hi));
}

proof fn lemma_qnr_found(lo: int, v: u64)
    requires
        qnr_free_range(lo, v as int),
        lo <= v,
        pow_fr(v as int, LEGENDRE_EXPONENT as nat) == (MODULUS - 1) as int,
    ensures
        is_least_qnr_from(lo, v),
{
    reveal(crate::field::is_qnr);
}

/// The canonical wire-shift constants: the `count` smallest quadratic
/// non-residues, in increasing order. Each sits in its own coset of the
/// domain, keeping the permutation argument's wire identifiers disjoint.
pub fn make_non_residues(count: usize) -> (res: Result<Vec<u64>, SynthesisError>)
    ensures
        match res {
            Ok(r) => {
                &&& r@.len() == count
                &&& forall|i: int| 0 <= i < count ==> is_fr(#[trigger] r@[i])
                &&& forall|i: int|
                    0 <= i < count ==> is_least_qnr_from(qnr_search_floor(r@, i), #[trigger] r@[i])
            },
            Err(e) => e == SynthesisError::SizeMismatch,
        },
        count <= 3 ==> res is Ok,
{
    let mut r: Vec<u64> = Vec::new();
    let mut c: u64 = 2;
    proof {
        lemma_empty_qnr_range(2);
    }
    while r.len() < count
        invariant
            2 <= c <= MODULUS,
            r@.len() <= count,
            forall|i: int| 0 <= i < r@.len() ==> is_fr(#[trigger] r@[i]),
            forall|i: int|
                0 <= i < r@.len() ==> is_least_qnr_from(
                    qnr_search_floor(r@, i),
                    #[trigger] r@[i],
                ),
            qnr_search_floor(r@, r@.len() as int) <= c,
            qnr_free_range(qnr_search_floor(r@, r@.len() as int), c as int),
            r@.len() >= (if c > 11 {
                1int
            } else {
                0int
            }) + (if c > 19 {
                1int
            } else {
                0int
            }) + (if c > 22 {
                1int
            } else {
                0int
            }),
        decreases MODULUS - c,
    {
        if c >= MODULUS {
            proof {
                if count <= 3 {
                    assert(r@.len() >= 3);
                    assert(false);
                }
            }
            return Err(SynthesisError::SizeMismatch);
        }
        let ghost floor = qnr_search_floor(r@, r@.len() as int);
        proof {
            if c == 11 || c == 19 || c == 22 {
                lemma_generator_two_adic_powers();
                lemma_qnr_power_19();
                lemma_qnr_power_22();
            }
        }
        if pow_mod(c, LEGENDRE_EXPONENT) == MODULUS - 1 {
            proof {
                lemma_qnr_found(floor, c);
            }
            r.push(c);
            proof {
                lemma_empty_qnr_range(c as int + 1);
                assert forall|i: int| 0 <= i < r@.len() implies is_least_qnr_from(
                    qnr_search_floor(r@, i),
                    #[trigger] r@[i],
                ) by {
                    if i < r@.len() - 1 {
                        assert(qnr_search_floor(r@, i) == qnr_search_floor(r@.drop_last(), i));
                        assert(r@[i] == r@.drop_last()[i]);
                    }
                }
            }
        } else {
            proof {
                lemma_extend_qnr_range(floor, c);
            }
        }
        c = c + 1;
    }
    Ok(r)
}

/// The value of the first Lagrange basis polynomial of the domain of size
/// `domain_size` at the point `z`:
/// `(z^n - 1) / (n * (z - 1))`. Fails exactly when `z` is one.
pub fn evaluate_l0_at_point(domain_size: u64, z: u64) -> (res: Result<u64, SynthesisError>)
    requires
        is_fr(z),
        1 <= domain_size < MODULUS,
    ensures
        match res {
            Ok(r) => {
                &&& z != 1
                &&& is_fr(r)
                &&& r as int == fmul(
                    fsub(pow_fr(z as int, domain_size as nat), 1),
                    fmul(finv(domain_size as int), finv(fsub(z as int, 1))),
                )
            },
            Err(e) => z == 1 && e == SynthesisError::DivisionByZero,
        },
{
    let size_inv = match inv_fr(domain_size) {
        Ok(v) => v,
        Err(e) => {
            return Err(e);
        },
    };
    let zm1 = sub_fr(z, 1);
    proof {
        if z == 0 {
            assert(fsub(0, 1) == MODULUS - 1);
        }
        if z >= 2 {
            vstd::arithmetic::div_mod::lemma_small_mod((z - 1) as nat, MODULUS as nat);
        }
        assert(zm1 == 0 <==> z == 1);
    }
    let zm1_inv = match inv_fr(zm1) {
        Ok(v) => v,
        Err(e) => {
            return Err(e);
        },
    };
    let num = evaluate_vanishing_for_size(z, domain_size);
    Ok(mul_fr(num, mul_fr(size_inv, zm1_inv)))
}

/// The value of the `poly_number`-th Lagrange basis polynomial of `domain`
/// at the point `z`:
/// `omega^i * (z^n - 1) / (n * (z - omega^i))`. Fails exactly when `z` is
/// the `poly_number`-th domain element.
pub fn evaluate_lagrange_poly_at_point(poly_number: usize, domain: &Domain, z: u64) -> (res: Result<
    u64,
    SynthesisError,
>)
    requires
        is_fr(z),
        domain.wf(),
        poly_number < domain.size,
    ensures
        match res {
            Ok(r) => {
                &&& z as int != pow_fr(domain.omega as int, poly_number as nat)
                &&& is_fr(r)
                &&& r as int == fmul(
                    fmul(
                        pow_fr(domain.omega as int, poly_number as nat),
                        fsub(pow_fr(z as int, domain.size as nat), 1),
                    ),
                    fmul(
                        finv(domain.size as int),
                        finv(fsub(z as int, pow_fr(domain.omega as int, poly_number as nat))),
                    ),
                )
            },
            Err(e) => {
                &&& z as int == pow_fr(domain.omega as int, poly_number as nat)
                &&& e == SynthesisError::DivisionByZero
            },
        },
{
    let om = pow_mod(domain.omega, poly_number as u64);
    let size_inv = match inv_fr(domain.size as u64) {
        Ok(v) => v,
        Err(e) => {
            return Err(e);
        },
    };
    let den = sub_fr(z, om);
    proof {
        if z > om {
            vstd::arithmetic::div_mod::lemma_small_mod((z - om) as nat, MODULUS as nat);
        }
        if z < om {
            let d = z as int - om as int;
            vstd::arithmetic::div_mod::lemma_mod_sub_multiples_vanish(d + MODULUS, MODULUS as int);
            vstd::arithmetic::div_mod::lemma_small_mod((d + MODULUS) as nat, MODULUS as nat);
        }
        assert(den == 0 <==> z == om);
    }
    let den_inv = match inv_fr(den) {
        Ok(v) => v,
        Err(e) => {
            return Err(e);
        },
    };
    let num = evaluate_vanishing_for_size(z, domain.size as u64);
    Ok(mul_fr(mul_fr(om, num), mul_fr(size_inv, den_inv)))
}

} // verus!
