//! Setup data and the precomputation resolver.
//!
//! [`SetupPolynomials`] holds the circuit's fixed polynomials in coefficient
//! form. [`SetupPolynomialsPrecomputations`] optionally caches their
//! factor-4 bitreversed coset LDEs (plus the X-coset values and the inverse
//! vanishing-polynomial values). Each resolver returns either the borrowed
//! cached vector or a freshly computed one; the two paths are
//! value-equivalent by contract, so callers never depend on which was taken.

use vstd::prelude::*;

verus! {

use crate::domain::{domain_for_size, Domain};
use crate::errors::SynthesisError;
use crate::field::{fmul, fsub, pow_fr, MAX_DOMAIN_SIZE, MULTIPLICATIVE_GENERATOR};
use crate::polynomial::{
    coset_eval_at, coset_point, dft_at, evaluate_vanishing_polynomial_of_degree_on_domain_size,
    lde_shuffle, lde_source, Polynomial, PolynomialForm,
};

/// The circuit's fixed polynomials: 4 permutation polynomials, 6 selectors
/// (A, B, C, D, M, const) and 1 next-row selector, all in coefficient form
/// over one domain, immutable for the proof's lifetime.
pub struct SetupPolynomials {
    pub permutation_polynomials: Vec<Polynomial>,
    pub selector_polynomials: Vec<Polynomial>,
    pub next_step_selector_polynomials: Vec<Polynomial>,
}

impl SetupPolynomials {
    /// The common domain of all setup polynomials.
    pub open spec fn domain(&self) -> Domain {
        self.selector_polynomials@[0].domain
    }

    pub open spec fn wf(&self) -> bool {
        &&& self.permutation_polynomials@.len() == 4
        &&& self.selector_polynomials@.len() == 6
        &&& self.next_step_selector_polynomials@.len() == 1
        &&& forall|i: int|
            0 <= i < 4 ==> {
                &&& (#[trigger] self.permutation_polynomials@[i]).wf()
                &&& self.permutation_polynomials@[i].padded()
                &&& self.permutation_polynomials@[i].is_coeffs()
                &&& self.permutation_polynomials@[i].domain == self.domain()
            }
        &&& forall|i: int|
            0 <= i < 6 ==> {
                &&& (#[trigger] self.selector_polynomials@[i]).wf()
                &&& self.selector_polynomials@[i].padded()
                &&& self.selector_polynomials@[i].is_coeffs()
                &&& self.selector_polynomials@[i].domain == self.domain()
            }
        &&& forall|i: int|
            0 <= i < 1 ==> {
                &&& (#[trigger] self.next_step_selector_polynomials@[i]).wf()
                &&& self.next_step_selector_polynomials@[i].padded()
                &&& self.next_step_selector_polynomials@[i].is_coeffs()
                &&& self.next_step_selector_polynomials@[i].domain == self.domain()
            }
        &&& self.domain() == domain_for_size(self.domain().size as int)
        &&& 4 * self.domain().size <= MAX_DOMAIN_SIZE
    }
}

/// A cached bitreversed coset LDE equals, slot for slot, the coset values
/// of the given coefficient polynomial.
pub open spec fn is_coset_lde_of(cache: Polynomial, coeffs: Seq<u64>, n: int) -> bool {
    &&& cache.wf()
    &&& cache.is_values()
    &&& cache.padded()
    &&& cache.domain == domain_for_size(4 * n)
    &&& cache.elems@.len() == 4 * n
    &&& forall|j: int|
        0 <= j < 4 * n ==> #[trigger] cache.elems@[j] as int == coset_eval_at(
            coeffs,
            domain_for_size(4 * n),
            lde_source(j, n),
        )
}

/// Optional cache of everything round two and three need from the setup:
/// bitreversed coset LDEs of all setup polynomials, the domain-truncated
/// permutation values, the X-coset values, and the inverse of the vanishing
/// polynomial on the coset.
pub struct SetupPolynomialsPrecomputations {
    pub permutation_polynomials_on_coset_of_size_4n_bitreversed: Vec<Polynomial>,
    pub selector_polynomials_on_coset_of_size_4n_bitreversed: Vec<Polynomial>,
    pub next_step_selector_polynomials_on_coset_of_size_4n_bitreversed: Vec<Polynomial>,
    pub permutation_polynomials_values_of_size_n_minus_one: Vec<Polynomial>,
    pub x_on_coset_of_size_4n_bitreversed: Polynomial,
    pub inverse_divisor_on_coset_of_size_4n_bitreversed: Polynomial,
}

impl SetupPolynomialsPrecomputations {
    /// The cache agrees, value for value, with what fresh computation from
    /// `setup` would produce.
    pub open spec fn valid_for(&self, setup: &SetupPolynomials) -> bool {
        let n = setup.domain().size as int;
        &&& self.permutation_polynomials_on_coset_of_size_4n_bitreversed@.len() == 4
        &&& forall|i: int|
            0 <= i < 4 ==> is_coset_lde_of(
                #[trigger] self.permutation_polynomials_on_coset_of_size_4n_bitreversed@[i],
                setup.permutation_polynomials@[i].elems@,
                n,
            )
        &&& self.selector_polynomials_on_coset_of_size_4n_bitreversed@.len() == 6
        &&& forall|i: int|
            0 <= i < 6 ==> is_coset_lde_of(
                #[trigger] self.selector_polynomials_on_coset_of_size_4n_bitreversed@[i],
                setup.selector_polynomials@[i].elems@,
                n,
            )
        &&& self.next_step_selector_polynomials_on_coset_of_size_4n_bitreversed@.len() == 1
        &&& forall|i: int|
            0 <= i < 1 ==> is_coset_lde_of(
                #[trigger] self.next_step_selector_polynomials_on_coset_of_size_4n_bitreversed@[i],
                setup.next_step_selector_polynomials@[i].elems@,
                n,
            )
        &&& self.permutation_polynomials_values_of_size_n_minus_one@.len() == 4
        &&& forall|i: int|
            0 <= i < 4 ==> {
                &&& (#[trigger] self.permutation_polynomials_values_of_size_n_minus_one@[i]).wf()
                &&& self.permutation_polynomials_values_of_size_n_minus_one@[i].is_values()
                &&& self.permutation_polynomials_values_of_size_n_minus_one@[i].elems@.len() == n
                    - 1
                &&& self.permutation_polynomials_values_of_size_n_minus_one@[i].domain
                    == setup.domain()
                &&& forall|k: int|
                    0 <= k < n - 1
                        ==> #[trigger] self.permutation_polynomials_values_of_size_n_minus_one@[i].elems@[k] as int
                        == dft_at(setup.permutation_polynomials@[i].elems@, setup.domain(), k)
            }
        &&& {
            let x = self.x_on_coset_of_size_4n_bitreversed;
            &&& x.wf()
            &&& x.is_values()
            &&& x.padded()
            &&& x.domain == domain_for_size(4 * n)
            &&& x.elems@.len() == 4 * n
            &&& forall|j: int|
                0 <= j < 4 * n ==> #[trigger] x.elems@[j] as int == coset_point(
                    domain_for_size(4 * n),
                    lde_source(j, n),
                )
        }
        &&& {
            let inv = self.inverse_divisor_on_coset_of_size_4n_bitreversed;
            &&& inv.wf()
            &&& inv.is_values()
            &&& inv.padded()
            &&& inv.domain == domain_for_size(4 * n)
            &&& inv.elems@.len() == 4 * n
            &&& forall|j: int|
                0 <= j < 4 * n ==> fmul(
                    #[trigger] inv.elems@[j] as int,
                    fsub(pow_fr(coset_point(domain_for_size(4 * n), lde_source(j, n)), n as nat), 1),
                ) == 1
        }
    }
}

/// Either a borrowed cached precomputation or a freshly owned one. The two
/// arms carry equal values; callers never depend on which arm they get.
pub enum PrecomputationsForPolynomial {
    Borrowed(Polynomial),
    Owned(Polynomial),
}

impl PrecomputationsForPolynomial {
    /// The polynomial carried by either arm.
    pub open spec fn poly(&self) -> Polynomial {
        match self {
            PrecomputationsForPolynomial::Borrowed(p) => *p,
            PrecomputationsForPolynomial::Owned(p) => *p,
        }
    }

    pub fn as_ref(&self) -> (r: &Polynomial)
        ensures
            *r == self.poly(),
    {
        match self {
            PrecomputationsForPolynomial::Borrowed(p) => p,
            PrecomputationsForPolynomial::Owned(p) => p,
        }
    }

    /// Consume the wrapper and keep the polynomial.
    pub fn into_poly(self) -> (r: Polynomial)
        ensures
            r == self.poly(),
    {
        match self {
            PrecomputationsForPolynomial::Borrowed(p) => p,
            PrecomputationsForPolynomial::Owned(p) => p,
        }
    }
}

/// The bitreversed coset LDE of the `index`-th permutation polynomial:
/// borrowed from the cache when one is given, computed afresh otherwise.
pub fn get_precomputed_permutation_poly_lde_for_index(
    index: usize,
    setup: &SetupPolynomials,
    setup_precomputations: Option<&SetupPolynomialsPrecomputations>,
) -> (res: Result<PrecomputationsForPolynomial, SynthesisError>)
    requires
        index < 4,
        setup.wf(),
        match setup_precomputations {
            Some(pre) => pre.valid_for(setup),
            None => true,
        },
    ensures
        match res {
            Ok(pp) => is_coset_lde_of(
                pp.poly(),
                setup.permutation_polynomials@[index as int].elems@,
                setup.domain().size as int,
            ),
            Err(e) => e == SynthesisError::NonPowerOfTwoSize,
        },
        res is Ok,
{
    match setup_precomputations {
        Some(pre) => {
            let p = pre.permutation_polynomials_on_coset_of_size_4n_bitreversed[index].fast_clone();
            Ok(PrecomputationsForPolynomial::Borrowed(p))
        },
        None => {
            let p = setup.permutation_polynomials[index].fast_clone().bitreversed_coset_lde()?;
            Ok(PrecomputationsForPolynomial::Owned(p))
        },
    }
}

/// The bitreversed coset LDE of the `index`-th gate selector polynomial.
pub fn get_precomputed_selector_lde_for_index(
    index: usize,
    setup: &SetupPolynomials,
    setup_precomputations: Option<&SetupPolynomialsPrecomputations>,
) -> (res: Result<PrecomputationsForPolynomial, SynthesisError>)
    requires
        index < 6,
        setup.wf(),
        match setup_precomputations {
            Some(pre) => pre.valid_for(setup),
            None => true,
        },
    ensures
        match res {
            Ok(pp) => is_coset_lde_of(
                pp.poly(),
                setup.selector_polynomials@[index as int].elems@,
                setup.domain().size as int,
            ),
            Err(e) => e == SynthesisError::NonPowerOfTwoSize,
        },
        res is Ok,
{
    match setup_precomputations {
        Some(pre) => {
            let p = pre.selector_polynomials_on_coset_of_size_4n_bitreversed[index].fast_clone();
            Ok(PrecomputationsForPolynomial::Borrowed(p))
        },
        None => {
            let p = setup.selector_polynomials[index].fast_clone().bitreversed_coset_lde()?;
            Ok(PrecomputationsForPolynomial::Owned(p))
        },
    }
}

/// The bitreversed coset LDE of the `index`-th next-row selector
/// polynomial.
pub fn get_precomputed_next_step_selector_lde_for_index(
    index: usize,
    setup: &SetupPolynomials,
    setup_precomputations: Option<&SetupPolynomialsPrecomputations>,
) -> (res: Result<PrecomputationsForPolynomial, SynthesisError>)
    requires
        index < 1,
        setup.wf(),
        match setup_precomputations {
            Some(pre) => pre.valid_for(setup),
            None => true,
        },
    ensures
        match res {
            Ok(pp) => is_coset_lde_of(
                pp.poly(),
                setup.next_step_selector_polynomials@[index as int].elems@,
                setup.domain().size as int,
            ),
            Err(e) => e == SynthesisError::NonPowerOfTwoSize,
        },
        res is Ok,
{
    match setup_precomputations {
        Some(pre) => {
            let p = pre.next_step_selector_polynomials_on_coset_of_size_4n_bitreversed[
                index
            ].fast_clone();
            Ok(PrecomputationsForPolynomial::Borrowed(p))
        },
        None => {
            let p = setup.next_step_selector_polynomials[index].fast_clone().bitreversed_coset_lde(
            )?;
            Ok(PrecomputationsForPolynomial::Owned(p))
        },
    }
}

/// The values of X itself on the bitreversed factor-4 coset of the domain
/// of size `domain_size`.
pub fn get_precomputed_x_lde(
    domain_size: usize,
    setup_precomputations: Option<&SetupPolynomialsPrecomputations>,
    setup: &SetupPolynomials,
) -> (res: Result<PrecomputationsForPolynomial, SynthesisError>)
    requires
        setup.wf(),
        domain_size == setup.domain().size,
        match setup_precomputations {
            Some(pre) => pre.valid_for(setup),
            None => true,
        },
    ensures
        match res {
            Ok(pp) => {
                let n = domain_size as int;
                let p = pp.poly();
                &&& p.wf()
                &&& p.is_values()
                &&& p.padded()
                &&& p.domain == domain_for_size(4 * n)
                &&& p.elems@.len() == 4 * n
                &&& forall|j: int|
                    0 <= j < 4 * n ==> #[trigger] p.elems@[j] as int == coset_point(
                        domain_for_size(4 * n),
                        lde_source(j, n),
                    )
            },
            Err(e) => e == SynthesisError::NonPowerOfTwoSize,
        },
        res is Ok,
{
    match setup_precomputations {
        Some(pre) => {
            let p = pre.x_on_coset_of_size_4n_bitreversed.fast_clone();
            Ok(PrecomputationsForPolynomial::Borrowed(p))
        },
        None => {
            proof {
                crate::domain::lemma_is_pow2_quadruple(setup.domain().size as int);
            }
            let d4 = Domain::new_for_size(4 * domain_size)?;
            let nat_vals = d4.materialize_domain_elements();
            let mut x_vals = Polynomial {
                form: PolynomialForm::Values,
                elems: nat_vals,
                domain: d4,
            };
            x_vals.scale(crate::field::MULTIPLICATIVE_GENERATOR);
            let shuffled = lde_shuffle(&x_vals.elems, domain_size);
            proof {
                assert forall|j: int| 0 <= j < 4 * domain_size implies #[trigger] shuffled@[
                    j
                ] as int == coset_point(domain_for_size(4 * domain_size as int), lde_source(
                    j,
                    domain_size as int,
                )) by {
                    crate::polynomial::lemma_lde_source_range(j, domain_size as int);
                }
            }
            let p = Polynomial { form: PolynomialForm::Values, elems: shuffled, domain: d4 };
            Ok(PrecomputationsForPolynomial::Owned(p))
        },
    }
}

/// The inverse of the vanishing polynomial of the base domain, evaluated on
/// the bitreversed factor-4 coset. Fails with a division error only if some
/// coset evaluation of the vanishing polynomial were zero, which the coset
/// shift rules out.
pub fn get_precomputed_inverse_divisor(
    domain_size: usize,
    setup_precomputations: Option<&SetupPolynomialsPrecomputations>,
    setup: &SetupPolynomials,
) -> (res: Result<PrecomputationsForPolynomial, SynthesisError>)
    requires
        setup.wf(),
        domain_size == setup.domain().size,
        match setup_precomputations {
            Some(pre) => pre.valid_for(setup),
            None => true,
        },
    ensures
        match res {
            Ok(pp) => {
                let n = domain_size as int;
                let p = pp.poly();
                &&& p.wf()
                &&& p.is_values()
                &&& p.padded()
                &&& p.domain == domain_for_size(4 * n)
                &&& p.elems@.len() == 4 * n
                &&& forall|j: int|
                    0 <= j < 4 * n ==> fmul(
                        #[trigger] p.elems@[j] as int,
                        fsub(
                            pow_fr(
                                coset_point(domain_for_size(4 * n), lde_source(j, n)),
                                n as nat,
                            ),
                            1,
                        ),
                    ) == 1
            },
            Err(e) => e == SynthesisError::NonPowerOfTwoSize || e
                == SynthesisError::DivisionByZero,
        },
        res is Ok,
{
    match setup_precomputations {
        Some(pre) => {
            let p = pre.inverse_divisor_on_coset_of_size_4n_bitreversed.fast_clone();
            Ok(PrecomputationsForPolynomial::Borrowed(p))
        },
        None => {
            proof {
                crate::domain::lemma_is_pow2_quadruple(setup.domain().size as int);
            }
            let mut vanishing = evaluate_vanishing_polynomial_of_degree_on_domain_size(
                domain_size as u64,
                crate::field::MULTIPLICATIVE_GENERATOR,
                (4 * domain_size) as u64,
            )?;
            proof {
                // no coset evaluation of the vanishing polynomial is zero,
                // so the batch inversion below cannot fail
                let n = domain_size as int;
                assert forall|i: int| 0 <= i < vanishing.elems@.len() implies #[trigger] vanishing.elems@[
                    i
                ] != 0 by {
                    crate::polynomial::lemma_coset_vanishing_nonzero(
                        domain_for_size(4 * n),
                        n,
                        i,
                    );
                }
            }
            match vanishing.batch_inversion() {
                Ok(()) => {},
                Err(e) => {
                    return Err(e);
                },
            }
            let shuffled = lde_shuffle(&vanishing.elems, domain_size);
            proof {
                assert forall|j: int| 0 <= j < 4 * domain_size implies fmul(
                    #[trigger] shuffled@[j] as int,
                    fsub(
                        pow_fr(
                            coset_point(
                                domain_for_size(4 * domain_size as int),
                                lde_source(j, domain_size as int),
                            ),
                            domain_size as nat,
                        ),
                        1,
                    ),
                ) == 1 by {
                    let n = domain_size as int;
                    crate::polynomial::lemma_lde_source_range(j, n);
                    let src = lde_source(j, n);
                    assert(shuffled@[j] == vanishing.elems@[src]);
                    let inv_v = vanishing.elems@[src] as int;
                    let van_v = fsub(
                        pow_fr(coset_point(domain_for_size(4 * n), src), domain_size as nat),
                        1,
                    );
                    assert(fmul(van_v, inv_v) == 1);
                    assert(van_v * inv_v == inv_v * van_v) by (nonlinear_arith);
                    assert(fmul(inv_v, van_v) == 1);
                }
            }
            let p = Polynomial {
                form: PolynomialForm::Values,
                elems: shuffled,
                domain: vanishing.domain,
            };
            Ok(PrecomputationsForPolynomial::Owned(p))
        },
    }
}

} // verus!
