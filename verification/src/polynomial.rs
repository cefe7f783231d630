//! The polynomial engine: dual-representation polynomials over the scalar
//! field, with Horner evaluation, naive DFT-based transforms between
//! coefficient and evaluation form, the factor-4 bitreversed coset LDE,
//! element-wise arithmetic, batch inversion, grand products, synthetic
//! division and chunking.
//!
//! A value vector in "LDE order" stores the evaluation at the `i`-th coset
//! point in slot `lde_index(i, n)`: the fixed combinational mapping
//! `i/4 + rev2(i % 4) * n` for LDE factor 4. Everything that produces or
//! consumes such vectors speaks of the same mapping, so freshly computed
//! LDEs interoperate with precomputed caches without reshuffling.

use vstd::prelude::*;

verus! {

use vstd::arithmetic::div_mod::{
    lemma_div_pos_is_pos, lemma_fundamental_div_mod, lemma_fundamental_div_mod_converse,
    lemma_mod_bound, lemma_small_mod,
};

use crate::domain::{domain_for_size, is_pow2, Domain};
use crate::errors::SynthesisError;
use crate::field::{
    add_fr, all_fr, fadd, finv, fmul, fsub, inv_fr, is_fr, lemma_fmul_assoc, lemma_pow_fr_succ,
    mul_fr, pow_fr, pow_mod, sub_fr, MAX_DOMAIN_SIZE, MODULUS, MULTIPLICATIVE_GENERATOR,
    MULTIPLICATIVE_GENERATOR_INV,
};

/// Horner-form value of the polynomial with coefficient sequence `c`
/// (lowest degree first) at the point `x`.
pub open spec fn eval_poly(c: Seq<u64>, x: int) -> int
    decreases c.len(),
{
    if c.len() == 0 {
        0
    } else {
        fadd(c[0] as int, fmul(x, eval_poly(c.subrange(1, c.len() as int), x)))
    }
}

/// A polynomial value is always a reduced field element.
pub proof fn lemma_eval_poly_is_fr(c: Seq<u64>, x: int)
    ensures
        0 <= eval_poly(c, x) < MODULUS,
    decreases c.len(),
{
    if c.len() != 0 {
        lemma_eval_poly_is_fr(c.subrange(1, c.len() as int), x);
    }
}

/// The `i`-th value of the forward transform: the polynomial evaluated at
/// the `i`-th power of the domain generator.
pub open spec fn dft_at(c: Seq<u64>, d: Domain, i: int) -> int {
    eval_poly(c, pow_fr(d.omega as int, i as nat))
}

/// The `j`-th coefficient of the inverse transform of the value vector `v`.
pub open spec fn idft_at(v: Seq<u64>, d: Domain, j: int) -> int {
    fmul(d.size_inv as int, eval_poly(v, pow_fr(d.omega_inv as int, j as nat)))
}

/// The `i`-th point of the coset of the domain `d`: the field generator
/// times the `i`-th domain element.
pub open spec fn coset_point(d: Domain, i: int) -> int {
    fmul(MULTIPLICATIVE_GENERATOR as int, pow_fr(d.omega as int, i as nat))
}

/// The value of the coefficient polynomial `c` at the `i`-th coset point.
pub open spec fn coset_eval_at(c: Seq<u64>, d: Domain, i: int) -> int {
    eval_poly(c, coset_point(d, i))
}

/// The `j`-th coefficient of the inverse coset transform of the value
/// vector `v`: the plain inverse transform, un-shifted by the generator.
pub open spec fn icoset_idft_at(v: Seq<u64>, d: Domain, j: int) -> int {
    fmul(pow_fr(MULTIPLICATIVE_GENERATOR_INV as int, j as nat), idft_at(v, d, j))
}

/// Reversal of a two-bit value.
pub open spec fn rev2(b: int) -> int {
    if b == 1 {
        2
    } else if b == 2 {
        1
    } else {
        b
    }
}

/// Destination slot of the `i`-th coset point in a factor-4 LDE vector over
/// a base domain of size `n`.
pub open spec fn lde_index(i: int, n: int) -> int {
    i / 4 + rev2(i % 4) * n
}

/// Coset-point index stored in slot `j` of a factor-4 LDE vector over a
/// base domain of size `n`; the inverse of `lde_index`.
pub open spec fn lde_source(j: int, n: int) -> int {
    4 * (j % n) + rev2(j / n)
}

/// The two slot mappings invert each other on a factor-4 LDE vector.
pub proof fn lemma_lde_maps(i: int, n: int)
    requires
        n >= 1,
        0 <= i < 4 * n,
    ensures
        0 <= lde_index(i, n) < 4 * n,
        lde_source(lde_index(i, n), n) == i,
{
    let a = i / 4;
    let b = i % 4;
    assert(0 <= b < 4);
    assert(0 <= a < n);
    let j = a + rev2(b) * n;
    assert(0 <= j < 4 * n) by (nonlinear_arith)
        requires
            0 <= a < n,
            0 <= rev2(b) <= 3,
            j == a + rev2(b) * n,
    ;
    lemma_fundamental_div_mod_converse(j, n, rev2(b), a);
    assert(j % n == a && j / n == rev2(b));
    assert(rev2(rev2(b)) == b);
}

/// Any LDE slot draws from a coset point in range.
pub proof fn lemma_lde_source_range(j: int, n: int)
    requires
        n >= 1,
        0 <= j < 4 * n,
    ensures
        0 <= lde_source(j, n) < 4 * n,
{
    lemma_fundamental_div_mod(j, n);
    lemma_mod_bound(j, n);
    lemma_div_pos_is_pos(j, n);
    let q = j / n;
    let m = j % n;
    assert(n * q == q * n) by (nonlinear_arith);
    assert(q <= 3) by (nonlinear_arith)
        requires
            j == q * n + m,
            0 <= m < n,
            j < 4 * n,
            q >= 0,
    ;
    assert(rev2(q) <= 3);
}

/// The vanishing polynomial of the base domain is non-zero at every point
/// of the generator coset of the four-times-larger domain: the generator
/// lies in no two-adic subgroup, so no coset point is an `n1`-th root of
/// unity.
pub proof fn lemma_coset_vanishing_nonzero(d4: Domain, n1: int, i: int)
    requires
        d4.wf(),
        d4.size == 4 * n1,
        1 <= n1,
        i >= 0,
    ensures
        fsub(pow_fr(coset_point(d4, i), n1 as nat), 1) != 0,
{
    let g = MULTIPLICATIVE_GENERATOR as int;
    let w = d4.omega as int;
    let x = coset_point(d4, i);
    let p = pow_fr(x, n1 as nat);
    crate::field::lemma_pow_fr_bounds(x, n1 as nat);
    if p == 1 {
        // raise to the fourth power: x^(4*n1) == 1
        crate::field::lemma_pow_fr_pow(x, n1 as nat, 4);
        crate::field::lemma_pow_fr_one_base(4);
        assert(n1 as nat * 4 == (4 * n1) as nat);
        assert(pow_fr(pow_fr(x, n1 as nat), 4) == 1) by {
            crate::field::lemma_pow_fr_one_base(4);
        }
        assert(pow_fr(x, (4 * n1) as nat) == 1);
        // but x^(4*n1) == g^(4*n1), since omega has order 4*n1
        crate::field::lemma_pow_fr_mul_base(g, pow_fr(w, i as nat), (4 * n1) as nat);
        crate::field::lemma_pow_fr_pow(w, i as nat, (4 * n1) as nat);
        crate::field::lemma_pow_fr_pow(w, (4 * n1) as nat, i as nat);
        assert(i as nat * ((4 * n1) as nat) == ((4 * n1) as nat) * (i as nat))
            by (nonlinear_arith);
        crate::field::lemma_pow_fr_one_base(i as nat);
        assert(pow_fr(pow_fr(w, i as nat), (4 * n1) as nat) == 1);
        crate::field::lemma_pow_fr_bounds(g, (4 * n1) as nat);
        lemma_small_mod(pow_fr(g, (4 * n1) as nat) as nat, MODULUS as nat);
        assert(pow_fr(g, (4 * n1) as nat) == 1);
        // so the generator would sit in a two-adic subgroup
        crate::domain::lemma_is_pow2_4096();
        crate::domain::lemma_pow2_divides(4 * n1, 4096);
        lemma_fundamental_div_mod(4096, 4 * n1);
        let q = 4096int / (4 * n1);
        assert(4096 == (4 * n1) * q);
        crate::field::lemma_pow_fr_pow(g, (4 * n1) as nat, q as nat);
        assert(q >= 0) by (nonlinear_arith)
            requires
                4096 == (4 * n1) * q,
                n1 >= 1,
        ;
        assert((4 * n1) as nat * (q as nat) == ((4 * n1) * q) as nat);
        crate::field::lemma_pow_fr_one_base(q as nat);
        crate::field::lemma_generator_two_adic_powers();
        assert(false);
    }
    if p == 0 {
        assert(fsub(0, 1) == MODULUS - 1);
    }
    if p >= 2 {
        lemma_small_mod((p - 1) as nat, MODULUS as nat);
    }
}

/// Tag distinguishing the two representations a backing array can carry.
#[derive(Clone, Copy, Debug, PartialEq, Eq, Structural)]
pub enum PolynomialForm {
    /// Evaluations over the domain (or a coset of a larger domain).
    Values,
    /// Monomial coefficients, lowest degree first.
    Coefficients,
}

/// A polynomial: a backing array of field elements tagged with its
/// representation and the descriptor of its domain.
#[derive(Debug)]
pub struct Polynomial {
    pub form: PolynomialForm,
    pub elems: Vec<u64>,
    pub domain: Domain,
}

impl Polynomial {
    /// Well-formedness: the domain is valid, every element is reduced, and
    /// the array does not exceed the domain.
    pub open spec fn wf(&self) -> bool {
        &&& self.domain.wf()
        &&& all_fr(self.elems@)
        &&& self.elems@.len() <= self.domain.size
    }

    /// The array fills its domain completely.
    pub open spec fn padded(&self) -> bool {
        self.elems@.len() == self.domain.size
    }

    pub open spec fn is_values(&self) -> bool {
        self.form == PolynomialForm::Values
    }

    pub open spec fn is_coeffs(&self) -> bool {
        self.form == PolynomialForm::Coefficients
    }

    /// Number of stored elements.
    pub fn size(&self) -> (r: usize)
        ensures
            r == self.elems@.len(),
    {
        self.elems.len()
    }

    /// Borrow the backing array.
    pub fn as_ref(&self) -> (r: &Vec<u64>)
        ensures
            r@ == self.elems@,
    {
        &self.elems
    }

    /// Consume the polynomial and keep only the backing array.
    pub fn into_coeffs(self) -> (r: Vec<u64>)
        ensures
            r@ == self.elems@,
    {
        self.elems
    }

    /// An element-for-element copy.
    pub fn fast_clone(&self) -> (r: Polynomial)
        ensures
            r.form == self.form,
            r.domain == self.domain,
            r.elems@ == self.elems@,
    {
        let mut elems: Vec<u64> = Vec::new();
        let n = self.elems.len();
        let mut i: usize = 0;
        while i < n
            invariant
                i <= n,
                n == self.elems@.len(),
                elems@.len() == i,
                forall|k: int| 0 <= k < i ==> #[trigger] elems@[k] == self.elems@[k],
            decreases n - i,
        {
            elems.push(self.elems[i]);
            i = i + 1;
        }
        proof {
            assert(elems@ =~= self.elems@);
        }
        Polynomial { form: self.form, elems, domain: self.domain }
    }

    /// An evaluation-form polynomial from a full-length value vector.
    pub fn from_values(v: Vec<u64>) -> (res: Result<Polynomial, SynthesisError>)
        requires
            all_fr(v@),
        ensures
            match res {
                Ok(p) => {
                    &&& p.wf()
                    &&& p.padded()
                    &&& p.is_values()
                    &&& p.elems@ == v@
                    &&& p.domain == domain_for_size(v@.len() as int)
                },
                Err(e) => e == SynthesisError::NonPowerOfTwoSize,
            },
            res is Ok <==> (is_pow2(v@.len() as int) && v@.len() <= MAX_DOMAIN_SIZE),
    {
        let domain = Domain::new_for_size(v.len())?;
        Ok(Polynomial { form: PolynomialForm::Values, elems: v, domain })
    }

    /// An evaluation-form polynomial over the smallest domain holding the
    /// vector; the array keeps its unpadded length.
    pub fn from_values_unpadded(v: Vec<u64>) -> (res: Result<Polynomial, SynthesisError>)
        requires
            all_fr(v@),
            v@.len() >= 1,
        ensures
            match res {
                Ok(p) => {
                    &&& p.wf()
                    &&& p.is_values()
                    &&& p.elems@ == v@
                    &&& p.domain == domain_for_size(p.domain.size as int)
                    &&& v@.len() <= p.domain.size < 2 * v@.len()
                },
                Err(e) => e == SynthesisError::NonPowerOfTwoSize,
            },
            res is Ok <==> v@.len() <= MAX_DOMAIN_SIZE,
    {
        let mut m: usize = 1;
        while m < v.len()
            invariant
                1 <= m,
                is_pow2(m as int),
                m < 2 * v@.len(),
                v@.len() <= MAX_DOMAIN_SIZE ==> m <= MAX_DOMAIN_SIZE,
            decreases 2 * v@.len() - m,
        {
            if m > MAX_DOMAIN_SIZE as usize {
                return Err(SynthesisError::NonPowerOfTwoSize);
            }
            proof {
                if v@.len() <= MAX_DOMAIN_SIZE {
                    crate::domain::lemma_is_pow2_4096();
                    crate::domain::lemma_pow2_divides(m as int, 4096);
                    vstd::arithmetic::div_mod::lemma_fundamental_div_mod(4096, m as int);
                    let q = 4096int / (m as int);
                    assert(2 * m <= 4096) by (nonlinear_arith)
                        requires
                            4096 == (m as int) * q,
                            m < 4096,
                            q >= 0,
                            m >= 1,
                    ;
                }
            }
            m = m * 2;
        }
        let domain = Domain::new_for_size(m)?;
        Ok(Polynomial { form: PolynomialForm::Values, elems: v, domain })
    }

    /// A coefficient-form polynomial from a full-length coefficient vector.
    pub fn from_coeffs(v: Vec<u64>) -> (res: Result<Polynomial, SynthesisError>)
        requires
            all_fr(v@),
        ensures
            match res {
                Ok(p) => {
                    &&& p.wf()
                    &&& p.padded()
                    &&& p.is_coeffs()
                    &&& p.elems@ == v@
                    &&& p.domain == domain_for_size(v@.len() as int)
                },
                Err(e) => e == SynthesisError::NonPowerOfTwoSize,
            },
            res is Ok <==> (is_pow2(v@.len() as int) && v@.len() <= MAX_DOMAIN_SIZE),
    {
        let domain = Domain::new_for_size(v.len())?;
        Ok(Polynomial { form: PolynomialForm::Coefficients, elems: v, domain })
    }

    /// An all-zero evaluation-form polynomial over the domain of the given
    /// size.
    pub fn new_for_size(size: usize) -> (res: Result<Polynomial, SynthesisError>)
        ensures
            match res {
                Ok(p) => {
                    &&& p.wf()
                    &&& p.padded()
                    &&& p.is_values()
                    &&& p.domain == domain_for_size(size as int)
                    &&& p.elems@.len() == size
                    &&& forall|i: int| 0 <= i < size ==> #[trigger] p.elems@[i] == 0
                },
                Err(e) => e == SynthesisError::NonPowerOfTwoSize,
            },
            res is Ok <==> (is_pow2(size as int) && size <= MAX_DOMAIN_SIZE),
    {
        let domain = Domain::new_for_size(size)?;
        let mut elems: Vec<u64> = Vec::new();
        let mut i: usize = 0;
        while i < size
            invariant
                i <= size,
                elems@.len() == i,
                forall|k: int| 0 <= k < i ==> #[trigger] elems@[k] == 0,
            decreases size - i,
        {
            elems.push(0);
            i = i + 1;
        }
        Ok(Polynomial { form: PolynomialForm::Values, elems, domain })
    }
    /// Element-wise addition: `self[i] + other[i]`.
    pub fn add_assign(&mut self, other: &Polynomial)
        requires
            old(self).wf(),
            other.wf(),
            old(self).elems@.len() == other.elems@.len(),
            old(self).form == other.form,
            old(self).domain == other.domain,
        ensures
            final(self).wf(),
            final(self).form == old(self).form,
            final(self).domain == old(self).domain,
            final(self).elems@.len() == old(self).elems@.len(),
            forall|i: int|
                0 <= i < old(self).elems@.len() ==> #[trigger] final(self).elems@[i] as int
                    == fadd(old(self).elems@[i] as int, other.elems@[i] as int),
    {
        let ghost orig = *self;
        let n = self.elems.len();
        let mut i: usize = 0;
        while i < n
            invariant
                self.wf(),
                other.wf(),
                self.domain == orig.domain,
                self.form == orig.form,
                n == self.elems@.len(),
                n == other.elems@.len(),
                n == orig.elems@.len(),
                i <= n,
                forall|k: int|
                    0 <= k < i ==> #[trigger] self.elems@[k] as int == fadd(
                        orig.elems@[k] as int,
                        other.elems@[k] as int,
                    ),
                forall|k: int| i <= k < n ==> #[trigger] self.elems@[k] == orig.elems@[k],
            decreases n - i,
        {
            let v = add_fr(self.elems[i], other.elems[i]);
            self.elems[i] = v;
            i = i + 1;
        }
    }

    /// Element-wise subtraction: `self[i] - other[i]`.
    pub fn sub_assign(&mut self, other: &Polynomial)
        requires
            old(self).wf(),
            other.wf(),
            old(self).elems@.len() == other.elems@.len(),
            old(self).form == other.form,
            old(self).domain == other.domain,
        ensures
            final(self).wf(),
            final(self).form == old(self).form,
            final(self).domain == old(self).domain,
            final(self).elems@.len() == old(self).elems@.len(),
            forall|i: int|
                0 <= i < old(self).elems@.len() ==> #[trigger] final(self).elems@[i] as int
                    == fsub(old(self).elems@[i] as int, other.elems@[i] as int),
    {
        let ghost orig = *self;
        let n = self.elems.len();
        let mut i: usize = 0;
        while i < n
            invariant
                self.wf(),
                other.wf(),
                self.domain == orig.domain,
                self.form == orig.form,
                n == self.elems@.len(),
                n == other.elems@.len(),
                n == orig.elems@.len(),
                i <= n,
                forall|k: int|
                    0 <= k < i ==> #[trigger] self.elems@[k] as int == fsub(
                        orig.elems@[k] as int,
                        other.elems@[k] as int,
                    ),
                forall|k: int| i <= k < n ==> #[trigger] self.elems@[k] == orig.elems@[k],
            decreases n - i,
        {
            let v = sub_fr(self.elems[i], other.elems[i]);
            self.elems[i] = v;
            i = i + 1;
        }
    }

    /// Element-wise product: `self[i] * other[i]`.
    pub fn mul_assign(&mut self, other: &Polynomial)
        requires
            old(self).wf(),
            other.wf(),
            old(self).elems@.len() == other.elems@.len(),
            old(self).form == other.form,
            old(self).domain == other.domain,
        ensures
            final(self).wf(),
            final(self).form == old(self).form,
            final(self).domain == old(self).domain,
            final(self).elems@.len() == old(self).elems@.len(),
            forall|i: int|
                0 <= i < old(self).elems@.len() ==> #[trigger] final(self).elems@[i] as int
                    == fmul(old(self).elems@[i] as int, other.elems@[i] as int),
    {
        let ghost orig = *self;
        let n = self.elems.len();
        let mut i: usize = 0;
        while i < n
            invariant
                self.wf(),
                other.wf(),
                self.domain == orig.domain,
                self.form == orig.form,
                n == self.elems@.len(),
                n == other.elems@.len(),
                n == orig.elems@.len(),
                i <= n,
                forall|k: int|
                    0 <= k < i ==> #[trigger] self.elems@[k] as int == fmul(
                        orig.elems@[k] as int,
                        other.elems@[k] as int,
                    ),
                forall|k: int| i <= k < n ==> #[trigger] self.elems@[k] == orig.elems@[k],
            decreases n - i,
        {
            let v = mul_fr(self.elems[i], other.elems[i]);
            self.elems[i] = v;
            i = i + 1;
        }
    }

    /// Add a scalar multiple of another polynomial: `self[i] + c * other[i]`.
    pub fn add_assign_scaled(&mut self, other: &Polynomial, c: u64)
        requires
            old(self).wf(),
            other.wf(),
            is_fr(c),
            old(self).elems@.len() == other.elems@.len(),
            old(self).form == other.form,
            old(self).domain == other.domain,
        ensures
            final(self).wf(),
            final(self).form == old(self).form,
            final(self).domain == old(self).domain,
            final(self).elems@.len() == old(self).elems@.len(),
            forall|i: int|
                0 <= i < old(self).elems@.len() ==> #[trigger] final(self).elems@[i] as int
                    == fadd(old(self).elems@[i] as int, fmul(c as int, other.elems@[i] as int)),
    {
        let ghost orig = *self;
        let n = self.elems.len();
        let mut i: usize = 0;
        while i < n
            invariant
                self.wf(),
                other.wf(),
                is_fr(c),
                self.domain == orig.domain,
                self.form == orig.form,
                n == self.elems@.len(),
                n == other.elems@.len(),
                n == orig.elems@.len(),
                i <= n,
                forall|k: int|
                    0 <= k < i ==> #[trigger] self.elems@[k] as int == fadd(
                        orig.elems@[k] as int,
                        fmul(c as int, other.elems@[k] as int),
                    ),
                forall|k: int| i <= k < n ==> #[trigger] self.elems@[k] == orig.elems@[k],
            decreases n - i,
        {
            let v = add_fr(self.elems[i], mul_fr(c, other.elems[i]));
            self.elems[i] = v;
            i = i + 1;
        }
    }

    /// Subtract a scalar multiple of another polynomial:
    /// `self[i] - c * other[i]`.
    pub fn sub_assign_scaled(&mut self, other: &Polynomial, c: u64)
        requires
            old(self).wf(),
            other.wf(),
            is_fr(c),
            old(self).elems@.len() == other.elems@.len(),
            old(self).form == other.form,
            old(self).domain == other.domain,
        ensures
            final(self).wf(),
            final(self).form == old(self).form,
            final(self).domain == old(self).domain,
            final(self).elems@.len() == old(self).elems@.len(),
            forall|i: int|
                0 <= i < old(self).elems@.len() ==> #[trigger] final(self).elems@[i] as int
                    == fsub(old(self).elems@[i] as int, fmul(c as int, other.elems@[i] as int)),
    {
        let ghost orig = *self;
        let n = self.elems.len();
        let mut i: usize = 0;
        while i < n
            invariant
                self.wf(),
                other.wf(),
                is_fr(c),
                self.domain == orig.domain,
                self.form == orig.form,
                n == self.elems@.len(),
                n == other.elems@.len(),
                n == orig.elems@.len(),
                i <= n,
                forall|k: int|
                    0 <= k < i ==> #[trigger] self.elems@[k] as int == fsub(
                        orig.elems@[k] as int,
                        fmul(c as int, other.elems@[k] as int),
                    ),
                forall|k: int| i <= k < n ==> #[trigger] self.elems@[k] == orig.elems@[k],
            decreases n - i,
        {
            let v = sub_fr(self.elems[i], mul_fr(c, other.elems[i]));
            self.elems[i] = v;
            i = i + 1;
        }
    }

    /// Multiply every element by a scalar.
    pub fn scale(&mut self, c: u64)
        requires
            old(self).wf(),
            is_fr(c),
        ensures
            final(self).wf(),
            final(self).form == old(self).form,
            final(self).domain == old(self).domain,
            final(self).elems@.len() == old(self).elems@.len(),
            forall|i: int|
                0 <= i < old(self).elems@.len() ==> #[trigger] final(self).elems@[i] as int
                    == fmul(c as int, old(self).elems@[i] as int),
    {
        let ghost orig = *self;
        let n = self.elems.len();
        let mut i: usize = 0;
        while i < n
            invariant
                self.wf(),
                is_fr(c),
                self.domain == orig.domain,
                self.form == orig.form,
                n == self.elems@.len(),
                n == orig.elems@.len(),
                i <= n,
                forall|k: int|
                    0 <= k < i ==> #[trigger] self.elems@[k] as int == fmul(
                        c as int,
                        orig.elems@[k] as int,
                    ),
                forall|k: int| i <= k < n ==> #[trigger] self.elems@[k] == orig.elems@[k],
            decreases n - i,
        {
            let v = mul_fr(c, self.elems[i]);
            self.elems[i] = v;
            i = i + 1;
        }
    }

    /// Add a constant to every element.
    pub fn add_constant(&mut self, c: u64)
        requires
            old(self).wf(),
            is_fr(c),
        ensures
            final(self).wf(),
            final(self).form == old(self).form,
            final(self).domain == old(self).domain,
            final(self).elems@.len() == old(self).elems@.len(),
            forall|i: int|
                0 <= i < old(self).elems@.len() ==> #[trigger] final(self).elems@[i] as int
                    == fadd(old(self).elems@[i] as int, c as int),
    {
        let ghost orig = *self;
        let n = self.elems.len();
        let mut i: usize = 0;
        while i < n
            invariant
                self.wf(),
                is_fr(c),
                self.domain == orig.domain,
                self.form == orig.form,
                n == self.elems@.len(),
                n == orig.elems@.len(),
                i <= n,
                forall|k: int|
                    0 <= k < i ==> #[trigger] self.elems@[k] as int == fadd(
                        orig.elems@[k] as int,
                        c as int,
                    ),
                forall|k: int| i <= k < n ==> #[trigger] self.elems@[k] == orig.elems@[k],
            decreases n - i,
        {
            let v = add_fr(self.elems[i], c);
            self.elems[i] = v;
            i = i + 1;
        }
    }

    /// Subtract a constant from every element.
    pub fn sub_constant(&mut self, c: u64)
        requires
            old(self).wf(),
            is_fr(c),
        ensures
            final(self).wf(),
            final(self).form == old(self).form,
            final(self).domain == old(self).domain,
            final(self).elems@.len() == old(self).elems@.len(),
            forall|i: int|
                0 <= i < old(self).elems@.len() ==> #[trigger] final(self).elems@[i] as int
                    == fsub(old(self).elems@[i] as int, c as int),
    {
        let ghost orig = *self;
        let n = self.elems.len();
        let mut i: usize = 0;
        while i < n
            invariant
                self.wf(),
                is_fr(c),
                self.domain == orig.domain,
                self.form == orig.form,
                n == self.elems@.len(),
                n == orig.elems@.len(),
                i <= n,
                forall|k: int|
                    0 <= k < i ==> #[trigger] self.elems@[k] as int == fsub(
                        orig.elems@[k] as int,
                        c as int,
                    ),
                forall|k: int| i <= k < n ==> #[trigger] self.elems@[k] == orig.elems@[k],
            decreases n - i,
        {
            let v = sub_fr(self.elems[i], c);
            self.elems[i] = v;
            i = i + 1;
        }
    }

    /// Multiply element `i` by the `i`-th power of `base`. On coefficients
    /// this substitutes `base * X` for `X`; the prover uses it to form the
    /// next-row shift of a polynomial.
    pub fn distribute_powers(&mut self, base: u64)
        requires
            old(self).wf(),
            is_fr(base),
        ensures
            final(self).wf(),
            final(self).form == old(self).form,
            final(self).domain == old(self).domain,
            final(self).elems@.len() == old(self).elems@.len(),
            forall|i: int|
                0 <= i < old(self).elems@.len() ==> #[trigger] final(self).elems@[i] as int
                    == fmul(old(self).elems@[i] as int, pow_fr(base as int, i as nat)),
    {
        let ghost orig = *self;
        let n = self.elems.len();
        let mut cur: u64 = 1;
        let mut i: usize = 0;
        while i < n
            invariant
                self.wf(),
                is_fr(base),
                is_fr(cur),
                cur as int == pow_fr(base as int, i as nat),
                self.domain == orig.domain,
                self.form == orig.form,
                n == self.elems@.len(),
                n == orig.elems@.len(),
                i <= n,
                forall|k: int|
                    0 <= k < i ==> #[trigger] self.elems@[k] as int == fmul(
                        orig.elems@[k] as int,
                        pow_fr(base as int, k as nat),
                    ),
                forall|k: int| i <= k < n ==> #[trigger] self.elems@[k] == orig.elems@[k],
            decreases n - i,
        {
            let v = mul_fr(self.elems[i], cur);
            self.elems[i] = v;
            proof {
                lemma_pow_fr_succ(base as int, i as nat);
            }
            cur = mul_fr(cur, base);
            i = i + 1;
        }
    }

    /// Replace every element by its inverse. Fails exactly when some
    /// element is zero, and then leaves the polynomial unchanged: it never
    /// returns silently wrong data.
    pub fn batch_inversion(&mut self) -> (res: Result<(), SynthesisError>)
        requires
            old(self).wf(),
        ensures
            match res {
                Ok(()) => {
                    &&& final(self).wf()
                    &&& final(self).form == old(self).form
                    &&& final(self).domain == old(self).domain
                    &&& final(self).elems@.len() == old(self).elems@.len()
                    &&& forall|i: int|
                        0 <= i < old(self).elems@.len() ==> fmul(
                            old(self).elems@[i] as int,
                            #[trigger] final(self).elems@[i] as int,
                        ) == 1
                    &&& forall|i: int|
                        0 <= i < old(self).elems@.len() ==> #[trigger] old(self).elems@[i] != 0
                },
                Err(e) => {
                    &&& e == SynthesisError::DivisionByZero
                    &&& *final(self) == *old(self)
                    &&& exists|i: int|
                        0 <= i < old(self).elems@.len() && old(self).elems@[i] == 0
                },
            },
    {
        let n = self.elems.len();
        let mut out: Vec<u64> = Vec::new();
        let mut i: usize = 0;
        while i < n
            invariant
                self.wf(),
                self == old(self),
                n == self.elems@.len(),
                i <= n,
                out@.len() == i,
                forall|k: int|
                    0 <= k < i ==> fmul(self.elems@[k] as int, #[trigger] out@[k] as int) == 1,
                forall|k: int| 0 <= k < i ==> is_fr(#[trigger] out@[k]),
                forall|k: int| 0 <= k < i ==> #[trigger] self.elems@[k] != 0,
            decreases n - i,
        {
            match inv_fr(self.elems[i]) {
                Ok(v) => out.push(v),
                Err(e) => {
                    return Err(e);
                },
            }
            i = i + 1;
        }
        self.elems = out;
        Ok(())
    }

    /// Horner evaluation of a coefficient polynomial at a point.
    pub fn evaluate_at(&self, x: u64) -> (r: u64)
        requires
            self.wf(),
            self.is_coeffs(),
            is_fr(x),
        ensures
            is_fr(r),
            r as int == eval_poly(self.elems@, x as int),
    {
        horner_eval(&self.elems, x)
    }

    /// The shifted grand product of a value vector `v`: one element longer,
    /// starting at the multiplicative identity, with `p[i+1] = p[i] * v[i]`,
    /// so that `p[i]` is the product of all `v[j]` with `j < i`.
    pub fn calculate_shifted_grand_product(&self) -> (res: Result<Polynomial, SynthesisError>)
        requires
            self.wf(),
            self.is_values(),
        ensures
            match res {
                Ok(z) => {
                    &&& z.wf()
                    &&& z.padded()
                    &&& z.is_values()
                    &&& z.elems@.len() == self.elems@.len() + 1
                    &&& z.domain == domain_for_size(self.elems@.len() as int + 1)
                    &&& z.elems@[0] == 1
                    &&& forall|i: int|
                        0 <= i < self.elems@.len() ==> #[trigger] z.elems@[i + 1] as int == fmul(
                            z.elems@[i] as int,
                            self.elems@[i] as int,
                        )
                },
                Err(e) => e == SynthesisError::NonPowerOfTwoSize,
            },
            res is Ok <==> (is_pow2(self.elems@.len() as int + 1) && self.elems@.len() + 1
                <= MAX_DOMAIN_SIZE),
    {
        let n = self.elems.len();
        let mut p: Vec<u64> = Vec::new();
        p.push(1);
        let mut i: usize = 0;
        while i < n
            invariant
                self.wf(),
                n == self.elems@.len(),
                i <= n,
                p@.len() == i + 1,
                all_fr(p@),
                p@[0] == 1,
                forall|k: int|
                    0 <= k < i ==> #[trigger] p@[k + 1] as int == fmul(
                        p@[k] as int,
                        self.elems@[k] as int,
                    ),
            decreases n - i,
        {
            let v = mul_fr(p[i], self.elems[i]);
            p.push(v);
            i = i + 1;
        }
        Polynomial::from_values(p)
    }
}

impl Polynomial {
    /// Forward transform of a coefficient polynomial: its evaluations at
    /// all powers of the domain generator, in natural order.
    pub fn fft(self) -> (r: Polynomial)
        requires
            self.wf(),
            self.padded(),
            self.is_coeffs(),
        ensures
            r.wf(),
            r.padded(),
            r.is_values(),
            r.domain == self.domain,
            r.elems@.len() == self.elems@.len(),
            forall|i: int|
                0 <= i < r.elems@.len() ==> #[trigger] r.elems@[i] as int == dft_at(
                    self.elems@,
                    self.domain,
                    i,
                ),
    {
        let n = self.elems.len();
        let vals = eval_at_powers(&self.elems, self.domain.omega, 1, n);
        proof {
            assert forall|i: int| 0 <= i < vals@.len() implies #[trigger] vals@[i] as int
                == dft_at(self.elems@, self.domain, i) by {
                let v = eval_poly(self.elems@, pow_fr(self.domain.omega as int, i as nat));
                lemma_eval_poly_is_fr(self.elems@, pow_fr(self.domain.omega as int, i as nat));
                lemma_small_mod(v as nat, MODULUS as nat);
            }
        }
        Polynomial { form: PolynomialForm::Values, elems: vals, domain: self.domain }
    }

    /// Inverse transform of a value vector: the unique coefficients of the
    /// interpolating polynomial, each stated as the size-normalized
    /// evaluation of the values at powers of the inverse generator.
    pub fn ifft(self) -> (r: Polynomial)
        requires
            self.wf(),
            self.padded(),
            self.is_values(),
        ensures
            r.wf(),
            r.padded(),
            r.is_coeffs(),
            r.domain == self.domain,
            r.elems@.len() == self.elems@.len(),
            forall|j: int|
                0 <= j < r.elems@.len() ==> #[trigger] r.elems@[j] as int == idft_at(
                    self.elems@,
                    self.domain,
                    j,
                ),
    {
        let n = self.elems.len();
        let coeffs = eval_at_powers(&self.elems, self.domain.omega_inv, self.domain.size_inv, n);
        Polynomial { form: PolynomialForm::Coefficients, elems: coeffs, domain: self.domain }
    }

    /// Factor-4 coset LDE in bitreversed order: evaluate the coefficient
    /// polynomial on the generator coset of the four-times-larger domain,
    /// storing the value at coset point `i` in slot `lde_index(i, n)`.
    pub fn bitreversed_coset_lde(self) -> (res: Result<Polynomial, SynthesisError>)
        requires
            self.wf(),
            self.padded(),
            self.is_coeffs(),
        ensures
            match res {
                Ok(r) => {
                    &&& r.wf()
                    &&& r.padded()
                    &&& r.is_values()
                    &&& r.domain == domain_for_size(4 * self.domain.size as int)
                    &&& r.elems@.len() == 4 * self.domain.size
                    &&& forall|j: int|
                        0 <= j < r.elems@.len() ==> #[trigger] r.elems@[j] as int == coset_eval_at(
                            self.elems@,
                            r.domain,
                            lde_source(j, self.domain.size as int),
                        )
                },
                Err(e) => e == SynthesisError::NonPowerOfTwoSize,
            },
            res is Ok <==> 4 * self.domain.size <= MAX_DOMAIN_SIZE,
    {
        let n = self.elems.len();
        proof {
            crate::domain::lemma_is_pow2_quadruple(self.domain.size as int);
        }
        let d4 = Domain::new_for_size(4 * n)?;
        let mut nat_vals: Vec<u64> = Vec::new();
        let mut cur: u64 = MULTIPLICATIVE_GENERATOR;
        let mut i: usize = 0;
        proof {
            lemma_small_mod(MULTIPLICATIVE_GENERATOR as nat, MODULUS as nat);
        }
        while i < 4 * n
            invariant
                self.wf(),
                self.padded(),
                d4.wf(),
                n == self.elems@.len(),
                i <= 4 * n,
                is_fr(cur),
                cur as int == coset_point(d4, i as int),
                nat_vals@.len() == i,
                all_fr(nat_vals@),
                forall|k: int|
                    0 <= k < i ==> #[trigger] nat_vals@[k] as int == coset_eval_at(
                        self.elems@,
                        d4,
                        k,
                    ),
            decreases 4 * n - i,
        {
            let v = horner_eval(&self.elems, cur);
            nat_vals.push(v);
            proof {
                lemma_pow_fr_succ(d4.omega as int, i as nat);
                lemma_fmul_assoc(
                    MULTIPLICATIVE_GENERATOR as int,
                    pow_fr(d4.omega as int, i as nat),
                    d4.omega as int,
                );
            }
            cur = mul_fr(cur, d4.omega);
            i = i + 1;
        }
        let shuffled = lde_shuffle(&nat_vals, n);
        proof {
            assert forall|j: int| 0 <= j < shuffled@.len() implies #[trigger] shuffled@[j] as int
                == coset_eval_at(self.elems@, d4, lde_source(j, self.domain.size as int)) by {
                lemma_lde_source_range(j, n as int);
            }
        }
        Ok(Polynomial { form: PolynomialForm::Values, elems: shuffled, domain: d4 })
    }

    /// Undo the factor-4 LDE slot mapping: return the same values in
    /// natural coset-point order over a base domain of size `base_size`.
    pub fn unshuffle_lde_enumeration(self, base_size: usize) -> (r: Polynomial)
        requires
            self.wf(),
            base_size >= 1,
            self.elems@.len() == 4 * base_size,
        ensures
            r.wf(),
            r.form == self.form,
            r.domain == self.domain,
            r.elems@.len() == self.elems@.len(),
            forall|i: int|
                0 <= i < r.elems@.len() ==> #[trigger] r.elems@[i] == self.elems@[lde_index(
                    i,
                    base_size as int,
                )],
    {
        let n = base_size;
        let mut out: Vec<u64> = Vec::new();
        let mut i: usize = 0;
        while i < 4 * n
            invariant
                self.wf(),
                n >= 1,
                self.elems@.len() == 4 * n,
                i <= 4 * n,
                out@.len() == i,
                all_fr(out@),
                forall|k: int|
                    0 <= k < i ==> #[trigger] out@[k] == self.elems@[lde_index(k, n as int)],
            decreases 4 * n - i,
        {
            let a = i / 4;
            let b = i % 4;
            let bb: usize = if b == 1 {
                2
            } else if b == 2 {
                1
            } else {
                b
            };
            proof {
                assert(a + bb * n < 4 * n) by (nonlinear_arith)
                    requires
                        0 <= a < n,
                        0 <= bb <= 3,
                ;
            }
            let idx = a + bb * n;
            out.push(self.elems[idx]);
            i = i + 1;
        }
        Polynomial { form: self.form, elems: out, domain: self.domain }
    }

    /// Inverse coset transform: recover the coefficients of a polynomial
    /// from its natural-order evaluations on the generator coset.
    pub fn icoset_fft_for_generator(self) -> (r: Polynomial)
        requires
            self.wf(),
            self.padded(),
            self.is_values(),
        ensures
            r.wf(),
            r.padded(),
            r.is_coeffs(),
            r.domain == self.domain,
            r.elems@.len() == self.elems@.len(),
            forall|j: int|
                0 <= j < r.elems@.len() ==> #[trigger] r.elems@[j] as int == icoset_idft_at(
                    self.elems@,
                    self.domain,
                    j,
                ),
    {
        let n = self.elems.len();
        let tmp = eval_at_powers(&self.elems, self.domain.omega_inv, self.domain.size_inv, n);
        let mut out: Vec<u64> = Vec::new();
        let mut gcur: u64 = 1;
        let mut j: usize = 0;
        while j < n
            invariant
                n == tmp@.len(),
                n == self.elems@.len(),
                all_fr(tmp@),
                forall|k: int|
                    0 <= k < n ==> #[trigger] tmp@[k] as int == idft_at(
                        self.elems@,
                        self.domain,
                        k,
                    ),
                j <= n,
                is_fr(gcur),
                gcur as int == pow_fr(MULTIPLICATIVE_GENERATOR_INV as int, j as nat),
                out@.len() == j,
                all_fr(out@),
                forall|k: int|
                    0 <= k < j ==> #[trigger] out@[k] as int == icoset_idft_at(
                        self.elems@,
                        self.domain,
                        k,
                    ),
            decreases n - j,
        {
            out.push(mul_fr(gcur, tmp[j]));
            proof {
                lemma_pow_fr_succ(MULTIPLICATIVE_GENERATOR_INV as int, j as nat);
            }
            gcur = mul_fr(gcur, MULTIPLICATIVE_GENERATOR_INV);
            j = j + 1;
        }
        Polynomial { form: PolynomialForm::Coefficients, elems: out, domain: self.domain }
    }

    /// Split a coefficient polynomial into chunks of `chunk_size`
    /// coefficients each; the last chunk is padded with zeros.
    pub fn break_into_multiples(self, chunk_size: usize) -> (res: Result<
        Vec<Polynomial>,
        SynthesisError,
    >)
        requires
            self.wf(),
            self.is_coeffs(),
            self.elems@.len() >= 1,
            chunk_size >= 1,
        ensures
            match res {
                Ok(parts) => {
                    &&& parts@.len() >= 1
                    &&& parts@.len() * chunk_size >= self.elems@.len()
                    &&& (parts@.len() - 1) * chunk_size < self.elems@.len()
                    &&& forall|k: int|
                        0 <= k < parts@.len() ==> {
                            &&& (#[trigger] parts@[k]).wf()
                            &&& parts@[k].padded()
                            &&& parts@[k].is_coeffs()
                            &&& parts@[k].domain == domain_for_size(chunk_size as int)
                            &&& parts@[k].elems@.len() == chunk_size
                        }
                    &&& forall|k: int, i: int|
                        0 <= k < parts@.len() && 0 <= i < chunk_size
                            ==> #[trigger] parts@[k].elems@[i] == (if k * chunk_size + i
                            < self.elems@.len() {
                            self.elems@[k * chunk_size + i]
                        } else {
                            0u64
                        })
                },
                Err(e) => e == SynthesisError::NonPowerOfTwoSize,
            },
            res is Ok <==> (is_pow2(chunk_size as int) && chunk_size <= MAX_DOMAIN_SIZE),
    {
        let len = self.elems.len();
        let dc = Domain::new_for_size(chunk_size)?;
        let mut parts: Vec<Polynomial> = Vec::new();
        let mut start: usize = 0;
        while start < len
            invariant
                self.wf(),
                dc.wf(),
                dc == domain_for_size(chunk_size as int),
                dc.size == chunk_size,
                1 <= chunk_size <= MAX_DOMAIN_SIZE,
                len == self.elems@.len(),
                1 <= len <= MAX_DOMAIN_SIZE,
                start == parts@.len() * chunk_size,
                parts@.len() >= 1 ==> (parts@.len() - 1) * chunk_size < len,
                forall|k: int|
                    0 <= k < parts@.len() ==> {
                        &&& (#[trigger] parts@[k]).wf()
                        &&& parts@[k].padded()
                        &&& parts@[k].is_coeffs()
                        &&& parts@[k].domain == domain_for_size(chunk_size as int)
                        &&& parts@[k].elems@.len() == chunk_size
                    },
                forall|k: int, i: int|
                    0 <= k < parts@.len() && 0 <= i < chunk_size
                        ==> #[trigger] parts@[k].elems@[i] == (if k * chunk_size + i < len {
                        self.elems@[k * chunk_size + i]
                    } else {
                        0u64
                    }),
                start <= len + chunk_size,
            decreases len + chunk_size - start,
        {
            let mut chunk: Vec<u64> = Vec::new();
            let mut i: usize = 0;
            while i < chunk_size
                invariant
                    self.wf(),
                    len == self.elems@.len(),
                    len <= MAX_DOMAIN_SIZE,
                    start < len,
                    chunk_size <= MAX_DOMAIN_SIZE,
                    i <= chunk_size,
                    chunk@.len() == i,
                    all_fr(chunk@),
                    forall|t: int|
                        0 <= t < i ==> #[trigger] chunk@[t] == (if start + t < len {
                            self.elems@[start + t]
                        } else {
                            0u64
                        }),
                decreases chunk_size - i,
            {
                if start + i < len {
                    chunk.push(self.elems[start + i]);
                } else {
                    chunk.push(0);
                }
                i = i + 1;
            }
            let part = Polynomial { form: PolynomialForm::Coefficients, elems: chunk, domain: dc };
            parts.push(part);
            proof {
                assert(parts@.len() * chunk_size as int == start + chunk_size) by (nonlinear_arith)
                    requires
                        start == (parts@.len() - 1) * chunk_size as int,
                ;
            }
            start = start + chunk_size;
        }
        Ok(parts)
    }
}

/// Executable Horner evaluation of a coefficient vector at a point.
pub fn horner_eval(c: &Vec<u64>, x: u64) -> (r: u64)
    requires
        all_fr(c@),
        is_fr(x),
    ensures
        is_fr(r),
        r as int == eval_poly(c@, x as int),
{
    let n = c.len();
    let mut r: u64 = 0;
    let mut i: usize = n;
    while i > 0
        invariant
            all_fr(c@),
            is_fr(x),
            is_fr(r),
            i <= n,
            n == c@.len(),
            r as int == eval_poly(c@.subrange(i as int, n as int), x as int),
        decreases i,
    {
        i = i - 1;
        r = add_fr(c[i], mul_fr(x, r));
        proof {
            let tail = c@.subrange(i as int, n as int);
            assert(tail.len() >= 1);
            assert(tail[0] == c@[i as int]);
            assert(tail.subrange(1, tail.len() as int) =~= c@.subrange(i + 1, n as int));
        }
    }
    proof {
        assert(c@.subrange(0, n as int) =~= c@);
    }
    r
}

/// Evaluations of `c` at the first `count` powers of `base`, each scaled by
/// the constant `scale`.
fn eval_at_powers(c: &Vec<u64>, base: u64, scale: u64, count: usize) -> (r: Vec<u64>)
    requires
        all_fr(c@),
        is_fr(base),
        is_fr(scale),
    ensures
        r@.len() == count,
        all_fr(r@),
        forall|j: int|
            0 <= j < count ==> #[trigger] r@[j] as int == fmul(
                scale as int,
                eval_poly(c@, pow_fr(base as int, j as nat)),
            ),
{
    let mut r: Vec<u64> = Vec::new();
    let mut cur: u64 = 1;
    let mut j: usize = 0;
    while j < count
        invariant
            all_fr(c@),
            is_fr(base),
            is_fr(scale),
            is_fr(cur),
            j <= count,
            cur as int == pow_fr(base as int, j as nat),
            r@.len() == j,
            all_fr(r@),
            forall|k: int|
                0 <= k < j ==> #[trigger] r@[k] as int == fmul(
                    scale as int,
                    eval_poly(c@, pow_fr(base as int, k as nat)),
                ),
        decreases count - j,
    {
        let v = horner_eval(c, cur);
        r.push(mul_fr(scale, v));
        proof {
            lemma_pow_fr_succ(base as int, j as nat);
        }
        cur = mul_fr(cur, base);
        j = j + 1;
    }
    r
}

/// Rearrange a natural-order factor-4 LDE value vector into LDE slot
/// order: slot `j` receives the value of coset point `lde_source(j, n)`.
pub(crate) fn lde_shuffle(src: &Vec<u64>, n: usize) -> (r: Vec<u64>)
    requires
        1 <= n <= MAX_DOMAIN_SIZE,
        src@.len() == 4 * n,
        all_fr(src@),
    ensures
        r@.len() == 4 * n,
        all_fr(r@),
        forall|j: int| 0 <= j < 4 * n ==> #[trigger] r@[j] == src@[lde_source(j, n as int)],
{
    let mut r: Vec<u64> = Vec::new();
    let mut j: usize = 0;
    while j < 4 * n
        invariant
            1 <= n <= MAX_DOMAIN_SIZE,
            src@.len() == 4 * n,
            all_fr(src@),
            j <= 4 * n,
            r@.len() == j,
            all_fr(r@),
            forall|k: int| 0 <= k < j ==> #[trigger] r@[k] == src@[lde_source(k, n as int)],
        decreases 4 * n - j,
    {
        let q = j / n;
        let m = j % n;
        proof {
            lemma_fundamental_div_mod(j as int, n as int);
            assert(n as int * (j as int / n as int) == (j as int / n as int) * n as int)
                by (nonlinear_arith);
            assert(q <= 3) by (nonlinear_arith)
                requires
                    j as int == q as int * n as int + m as int,
                    0 <= m < n,
                    j < 4 * n,
                    q >= 0,
            ;
        }
        let qq: usize = if q == 1 {
            2
        } else if q == 2 {
            1
        } else {
            q
        };
        let s = 4 * m + qq;
        r.push(src[s]);
        j = j + 1;
    }
    r
}

/// The `i`-th coefficient of the synthetic quotient of `c` by `(X - at)`:
/// the standard descending recurrence, with the top coefficient of the
/// quotient equal to the top coefficient of the dividend.
pub open spec fn synth_div_coeff(c: Seq<u64>, at: int, i: int) -> int
    decreases c.len() - i,
{
    if i >= c.len() - 2 {
        c[c.len() - 1] as int
    } else {
        fadd(c[i + 1] as int, fmul(at, synth_div_coeff(c, at, i + 1)))
    }
}

/// Synthetic division of a coefficient polynomial by `(X - at)`: the
/// quotient's coefficients by the standard descending recurrence. The
/// remainder — the dividend's value at `at` — is discarded; the caller
/// guarantees the dividend vanishes there.
pub fn divide_single(c: &Vec<u64>, at: u64) -> (r: Vec<u64>)
    requires
        all_fr(c@),
        is_fr(at),
        c@.len() >= 1,
    ensures
        r@.len() == c@.len() - 1,
        all_fr(r@),
        forall|i: int|
            0 <= i < c@.len() - 1 ==> #[trigger] r@[i] as int == synth_div_coeff(c@, at as int, i),
{
    let n = c.len();
    let mut r: Vec<u64> = Vec::new();
    let mut i: usize = 0;
    while i < n - 1
        invariant
            n == c@.len(),
            n >= 1,
            i <= n - 1,
            r@.len() == i,
            forall|k: int| 0 <= k < i ==> #[trigger] r@[k] == 0u64,
        decreases n - 1 - i,
    {
        r.push(0);
        i = i + 1;
    }
    if n == 1 {
        return r;
    }
    let mut k: usize = n - 1;
    r[n - 2] = c[n - 1];
    k = k - 1;
    while k > 0
        invariant
            all_fr(c@),
            is_fr(at),
            n == c@.len(),
            n >= 2,
            k <= n - 2,
            r@.len() == n - 1,
            all_fr(r@),
            forall|i: int|
                k <= i < n - 1 ==> #[trigger] r@[i] as int == synth_div_coeff(c@, at as int, i),
        decreases k,
    {
        k = k - 1;
        let v = add_fr(c[k + 1], mul_fr(at, r[k + 1]));
        r[k] = v;
    }
    r
}

/// Natural-order evaluations of the vanishing polynomial
/// `X^vanishing_degree - 1` on the generator coset of the domain of size
/// `new_size`.
pub fn evaluate_vanishing_polynomial_of_degree_on_domain_size(
    vanishing_degree: u64,
    coset_factor: u64,
    new_size: u64,
) -> (res: Result<Polynomial, SynthesisError>)
    requires
        is_fr(coset_factor),
    ensures
        match res {
            Ok(p) => {
                &&& p.wf()
                &&& p.padded()
                &&& p.is_values()
                &&& p.domain == domain_for_size(new_size as int)
                &&& p.elems@.len() == new_size
                &&& forall|i: int|
                    0 <= i < new_size ==> #[trigger] p.elems@[i] as int == fsub(
                        pow_fr(
                            fmul(
                                coset_factor as int,
                                pow_fr(domain_for_size(new_size as int).omega as int, i as nat),
                            ),
                            vanishing_degree as nat,
                        ),
                        1,
                    )
            },
            Err(e) => e == SynthesisError::NonPowerOfTwoSize,
        },
        res is Ok <==> (is_pow2(new_size as int) && new_size <= MAX_DOMAIN_SIZE),
{
    if new_size > MAX_DOMAIN_SIZE {
        return Err(SynthesisError::NonPowerOfTwoSize);
    }
    let d = Domain::new_for_size(new_size as usize)?;
    let mut vals: Vec<u64> = Vec::new();
    let mut cur: u64 = coset_factor;
    let mut i: usize = 0;
    proof {
        lemma_small_mod(coset_factor as nat, MODULUS as nat);
    }
    while i < new_size as usize
        invariant
            d.wf(),
            d == domain_for_size(new_size as int),
            is_fr(coset_factor),
            i <= new_size,
            is_fr(cur),
            cur as int == fmul(coset_factor as int, pow_fr(d.omega as int, i as nat)),
            vals@.len() == i,
            all_fr(vals@),
            forall|k: int|
                0 <= k < i ==> #[trigger] vals@[k] as int == fsub(
                    pow_fr(
                        fmul(coset_factor as int, pow_fr(d.omega as int, k as nat)),
                        vanishing_degree as nat,
                    ),
                    1,
                ),
        decreases new_size - i,
    {
        let pw = pow_mod(cur, vanishing_degree);
        vals.push(sub_fr(pw, 1));
        proof {
            lemma_pow_fr_succ(d.omega as int, i as nat);
            lemma_fmul_assoc(coset_factor as int, pow_fr(d.omega as int, i as nat), d.omega as int);
        }
        cur = mul_fr(cur, d.omega);
        i = i + 1;
    }
    Ok(Polynomial { form: PolynomialForm::Values, elems: vals, domain: d })
}

/// The sequence `s` padded with zeros up to length `len`.
pub open spec fn zero_padded(s: Seq<u64>, len: int) -> Seq<u64> {
    Seq::new(
        len as nat,
        |i: int|
            if i < s.len() {
                s[i]
            } else {
                0u64
            },
    )
}

/// The length-`len` unit value vector with a one in slot `idx`.
pub open spec fn indicator_seq(len: int, idx: int) -> Seq<u64> {
    Seq::new(
        len as nat,
        |i: int|
            if i == idx {
                1u64
            } else {
                0u64
            },
    )
}

/// The coefficient form of the `poly_number`-th Lagrange basis polynomial
/// of the domain of the given size: the inverse transform of the unit
/// value vector.
pub fn calculate_lagrange_poly(domain_size: usize, poly_number: usize) -> (res: Result<
    Polynomial,
    SynthesisError,
>)
    requires
        poly_number < domain_size,
    ensures
        match res {
            Ok(p) => {
                &&& p.wf()
                &&& p.padded()
                &&& p.is_coeffs()
                &&& p.domain == domain_for_size(domain_size as int)
                &&& p.elems@.len() == domain_size
                &&& forall|j: int|
                    0 <= j < domain_size ==> #[trigger] p.elems@[j] as int == idft_at(
                        indicator_seq(domain_size as int, poly_number as int),
                        p.domain,
                        j,
                    )
            },
            Err(e) => e == SynthesisError::NonPowerOfTwoSize,
        },
        res is Ok <==> (is_pow2(domain_size as int) && domain_size <= MAX_DOMAIN_SIZE),
{
    let mut e: Vec<u64> = Vec::new();
    let mut i: usize = 0;
    while i < domain_size
        invariant
            i <= domain_size,
            e@.len() == i,
            forall|k: int|
                0 <= k < i ==> #[trigger] e@[k] == (if k == poly_number {
                    1u64
                } else {
                    0u64
                }),
        decreases domain_size - i,
    {
        if i == poly_number {
            e.push(1);
        } else {
            e.push(0);
        }
        i = i + 1;
    }
    proof {
        assert(e@ =~= indicator_seq(domain_size as int, poly_number as int));
        assert(all_fr(e@));
    }
    let p = Polynomial::from_values(e)?;
    Ok(p.ifft())
}

} // verus!
