//! The five-round prover state machine.
//!
//! Each round consumes the previous round's state together with the
//! verifier's accumulated challenges and produces the next state and a
//! prover message. State moves strictly forward and is consumed exactly
//! once; every failure is fatal for the whole run.

use vstd::prelude::*;

verus! {

use crate::commitment::{
    commit_using_monomials, commit_using_raw_values, inner_product, CrsForLagrangeForm,
    CrsForMonomialForm,
};
use crate::domain::{
    domain_for_size, evaluate_l0_at_point, evaluate_lagrange_poly_at_point, is_pow2,
    make_non_residues, Domain,
};
use crate::errors::SynthesisError;
use crate::field::{
    add_fr, all_fr, fadd, finv, fmul, fsub, is_fr, is_qnr, mul_fr, pow_fr, pow_mod, sub_fr,
    MAX_DOMAIN_SIZE,
};
use crate::polynomial::{
    coset_eval_at, coset_point, dft_at, divide_single, eval_poly, icoset_idft_at, idft_at,
    lde_source, synth_div_coeff, zero_padded, Polynomial, PolynomialForm,
};
use crate::precomputations::{
    get_precomputed_inverse_divisor, get_precomputed_next_step_selector_lde_for_index,
    get_precomputed_permutation_poly_lde_for_index, get_precomputed_selector_lde_for_index,
    get_precomputed_x_lde, is_coset_lde_of, PrecomputationsForPolynomial, SetupPolynomials,
    SetupPolynomialsPrecomputations,
};

/// A finalized width-4 assignment: `n` gate rows, the public input values,
/// and the four full witness columns.
pub struct ProverAssembly4WithNextStep {
    pub n: usize,
    pub num_inputs: usize,
    pub input_assignments: Vec<u64>,
    pub wire_assignments: Vec<Vec<u64>>,
    pub is_finalized: bool,
}

impl ProverAssembly4WithNextStep {
    /// Structural validity of the assignment data.
    pub open spec fn wf(&self) -> bool {
        &&& self.wire_assignments@.len() == 4
        &&& forall|i: int|
            0 <= i < 4 ==> (#[trigger] self.wire_assignments@[i])@.len() == self.n && all_fr(
                self.wire_assignments@[i]@,
            )
        &&& all_fr(self.input_assignments@)
        &&& self.input_assignments@.len() == self.num_inputs
        &&& self.num_inputs <= self.n
        &&& 1 <= self.n
    }
}

/// State carried out of round one.
pub struct FirstPartialProverState {
    pub required_domain_size: usize,
    pub non_residues: Vec<u64>,
    pub input_values: Vec<u64>,
    pub witness_polys_as_coeffs: Vec<Polynomial>,
    pub witness_polys_unpadded_values: Vec<Polynomial>,
}

/// Round-one prover message: the wire commitments and the echoed public
/// inputs.
pub struct FirstProverMessage {
    pub n: usize,
    pub num_inputs: usize,
    pub input_values: Vec<u64>,
    pub wire_commitments: Vec<u64>,
}

/// Challenges accumulated after round one.
pub struct FirstVerifierMessage {
    pub beta: u64,
    pub gamma: u64,
}

/// State carried out of round two.
pub struct SecondPartialProverState {
    pub required_domain_size: usize,
    pub non_residues: Vec<u64>,
    pub input_values: Vec<u64>,
    pub witness_polys_as_coeffs: Vec<Polynomial>,
    pub z_in_monomial_form: Polynomial,
}

/// Round-two prover message: the grand-product commitment.
pub struct SecondProverMessage {
    pub z_commitment: u64,
}

/// Challenges accumulated after round two.
pub struct SecondVerifierMessage {
    pub alpha: u64,
    pub beta: u64,
    pub gamma: u64,
}

/// State carried out of round three.
pub struct ThirdPartialProverState {
    pub required_domain_size: usize,
    pub non_residues: Vec<u64>,
    pub input_values: Vec<u64>,
    pub witness_polys_as_coeffs: Vec<Polynomial>,
    pub z_in_monomial_form: Polynomial,
    pub t_poly_parts: Vec<Polynomial>,
}

/// Round-three prover message: the quotient-chunk commitments.
pub struct ThirdProverMessage {
    pub quotient_poly_commitments: Vec<u64>,
}

/// Challenges accumulated after round three.
pub struct ThirdVerifierMessage {
    pub alpha: u64,
    pub beta: u64,
    pub gamma: u64,
    pub z: u64,
}

/// State carried out of round four.
pub struct FourthPartialProverState {
    pub required_domain_size: usize,
    pub non_residues: Vec<u64>,
    pub input_values: Vec<u64>,
    pub witness_polys_as_coeffs: Vec<Polynomial>,
    pub z_in_monomial_form: Polynomial,
    pub t_poly_parts: Vec<Polynomial>,
    pub linearization_polynomial: Polynomial,
    pub wire_values_at_z: Vec<u64>,
    pub wire_values_at_z_omega: Vec<u64>,
    pub permutation_polynomials_at_z: Vec<u64>,
    pub grand_product_at_z_omega: u64,
    pub quotient_polynomial_at_z: u64,
    pub linearization_polynomial_at_z: u64,
}

/// Round-four prover message: the scalar evaluation bundle.
pub struct FourthProverMessage {
    pub wire_values_at_z: Vec<u64>,
    pub wire_values_at_z_omega: Vec<u64>,
    pub permutation_polynomials_at_z: Vec<u64>,
    pub grand_product_at_z_omega: u64,
    pub quotient_polynomial_at_z: u64,
    pub linearization_polynomial_at_z: u64,
}

/// Challenges accumulated after round four.
pub struct FourthVerifierMessage {
    pub alpha: u64,
    pub beta: u64,
    pub gamma: u64,
    pub z: u64,
    pub v: u64,
}

/// Round-five prover message: the two opening-proof commitments, completing
/// the proof.
pub struct FifthProverMessage {
    pub opening_proof_at_z: u64,
    pub opening_proof_at_z_omega: u64,
}

/// An element-for-element copy of a scalar vector.
fn clone_scalars(v: &Vec<u64>) -> (r: Vec<u64>)
    ensures
        r@ == v@,
{
    let mut r: Vec<u64> = Vec::new();
    let n = v.len();
    let mut i: usize = 0;
    while i < n
        invariant
            i <= n,
            n == v@.len(),
            r@.len() == i,
            forall|k: int| 0 <= k < i ==> #[trigger] r@[k] == v@[k],
        decreases n - i,
    {
        r.push(v[i]);
        i = i + 1;
    }
    proof {
        assert(r@ =~= v@);
    }
    r
}

/// The canonical non-residue vector handed from round to round: the three
/// smallest quadratic non-residues, in increasing order, exactly as
/// `make_non_residues` produces them.
pub open spec fn wf_non_residues(s: Seq<u64>) -> bool {
    &&& s.len() == 3
    &&& forall|i: int| 0 <= i < 3 ==> is_fr(#[trigger] s[i])
    &&& forall|i: int|
        0 <= i < 3 ==> crate::domain::is_least_qnr_from(
            crate::domain::qnr_search_floor(s, i),
            #[trigger] s[i],
        )
}

impl FirstPartialProverState {
    /// What round two may assume of a round-one state.
    pub open spec fn wf(&self) -> bool {
        let n1 = self.required_domain_size as int;
        &&& 2 <= n1 <= MAX_DOMAIN_SIZE
        &&& is_pow2(n1)
        &&& wf_non_residues(self.non_residues@)
        &&& all_fr(self.input_values@)
        &&& self.witness_polys_unpadded_values@.len() == 4
        &&& forall|i: int|
            0 <= i < 4 ==> {
                &&& (#[trigger] self.witness_polys_unpadded_values@[i]).wf()
                &&& self.witness_polys_unpadded_values@[i].is_values()
                &&& self.witness_polys_unpadded_values@[i].domain == domain_for_size(n1)
                &&& self.witness_polys_unpadded_values@[i].elems@.len() == n1 - 1
            }
        &&& self.witness_polys_as_coeffs@.len() == 0 || self.witness_polys_as_coeffs@.len() == 4
        &&& forall|i: int|
            0 <= i < self.witness_polys_as_coeffs@.len() ==> {
                &&& (#[trigger] self.witness_polys_as_coeffs@[i]).wf()
                &&& self.witness_polys_as_coeffs@[i].is_coeffs()
                &&& self.witness_polys_as_coeffs@[i].padded()
                &&& self.witness_polys_as_coeffs@[i].domain == domain_for_size(n1)
            }
    }
}

impl ProverAssembly4WithNextStep {
    /// Round one against a Lagrange-form CRS: commit each witness column
    /// directly from its evaluation values.
    pub fn first_step_with_lagrange_form_key(self, crs_vals: &CrsForLagrangeForm) -> (res: Result<
        (FirstPartialProverState, FirstProverMessage),
        SynthesisError,
    >)
        requires
            self.wf(),
            crs_vals.wf(),
        ensures
            match res {
                Ok(r) => {
                    let (state, msg) = r;
                    &&& self.is_finalized
                    &&& is_pow2(self.n + 1)
                    &&& msg.n == self.n
                    &&& msg.num_inputs == self.num_inputs
                    &&& msg.input_values@ == self.input_assignments@
                    &&& msg.wire_commitments@.len() == 4
                    &&& forall|i: int|
                        0 <= i < 4 ==> #[trigger] msg.wire_commitments@[i] as int == inner_product(
                            self.wire_assignments@[i]@,
                            crs_vals.bases@,
                        )
                    &&& state.wf()
                    &&& state.required_domain_size == self.n + 1
                    &&& state.input_values@ == self.input_assignments@
                    &&& state.witness_polys_as_coeffs@.len() == 0
                    &&& forall|i: int|
                        0 <= i < 4 ==> (#[trigger] state.witness_polys_unpadded_values@[i]).elems@
                            == self.wire_assignments@[i]@
                },
                Err(e) => {
                    ||| e == SynthesisError::AssemblyNotFinalized
                    ||| e == SynthesisError::NonPowerOfTwoSize
                    ||| e == SynthesisError::SizeMismatch
                },
            },
            res matches Err(e) && e == SynthesisError::AssemblyNotFinalized <==> !self.is_finalized,
            res matches Err(e) && e == SynthesisError::NonPowerOfTwoSize <==> (self.is_finalized
                && !(is_pow2(self.n as int + 1) && self.n + 1 <= MAX_DOMAIN_SIZE)),
            res matches Err(e) && e == SynthesisError::SizeMismatch <==> (self.is_finalized
                && is_pow2(self.n as int + 1) && self.n + 1 <= MAX_DOMAIN_SIZE
                && crs_vals.bases@.len() < self.n),
            res is Ok <==> (self.is_finalized && is_pow2(self.n as int + 1) && self.n + 1
                <= MAX_DOMAIN_SIZE && crs_vals.bases@.len() >= self.n),
    {
        if !self.is_finalized {
            return Err(SynthesisError::AssemblyNotFinalized);
        }
        if self.n >= MAX_DOMAIN_SIZE as usize {
            return Err(SynthesisError::NonPowerOfTwoSize);
        }
        let required_domain_size = self.n + 1;
        let domain = Domain::new_for_size(required_domain_size)?;
        let non_residues = match make_non_residues(3) {
            Ok(v) => v,
            Err(e) => {
                return Err(e);
            },
        };
        if crs_vals.bases.len() < self.n {
            return Err(SynthesisError::SizeMismatch);
        }
        let mut wire_commitments: Vec<u64> = Vec::new();
        let mut i: usize = 0;
        while i < 4
            invariant
                self.wf(),
                crs_vals.wf(),
                crs_vals.bases@.len() >= self.n,
                i <= 4,
                wire_commitments@.len() == i,
                forall|k: int|
                    0 <= k < i ==> #[trigger] wire_commitments@[k] as int == inner_product(
                        self.wire_assignments@[k]@,
                        crs_vals.bases@,
                    ),
            decreases 4 - i,
        {
            let c = commit_using_raw_values(&self.wire_assignments[i], crs_vals);
            wire_commitments.push(c);
            i = i + 1;
        }
        let mut assignment_polynomials: Vec<Polynomial> = Vec::new();
        let mut i: usize = 0;
        while i < 4
            invariant
                self.wf(),
                domain.wf(),
                domain.size == self.n + 1,
                domain == domain_for_size(self.n + 1),
                i <= 4,
                assignment_polynomials@.len() == i,
                forall|k: int|
                    0 <= k < i ==> {
                        &&& (#[trigger] assignment_polynomials@[k]).wf()
                        &&& assignment_polynomials@[k].is_values()
                        &&& assignment_polynomials@[k].domain == domain
                        &&& assignment_polynomials@[k].elems@ == self.wire_assignments@[k]@
                    },
            decreases 4 - i,
        {
            let col = clone_scalars(&self.wire_assignments[i]);
            assignment_polynomials.push(
                Polynomial { form: PolynomialForm::Values, elems: col, domain },
            );
            i = i + 1;
        }
        let message = FirstProverMessage {
            n: self.n,
            num_inputs: self.num_inputs,
            input_values: clone_scalars(&self.input_assignments),
            wire_commitments,
        };
        let state = FirstPartialProverState {
            required_domain_size,
            non_residues,
            input_values: self.input_assignments,
            witness_polys_as_coeffs: Vec::new(),
            witness_polys_unpadded_values: assignment_polynomials,
        };
        Ok((state, message))
    }

    /// Round one against a monomial-form CRS: interpolate each witness
    /// column to coefficient form and commit the coefficients.
    pub fn first_step_with_monomial_form_key(self, crs_mons: &CrsForMonomialForm) -> (res: Result<
        (FirstPartialProverState, FirstProverMessage),
        SynthesisError,
    >)
        requires
            self.wf(),
            crs_mons.wf(),
        ensures
            match res {
                Ok(r) => {
                    let (state, msg) = r;
                    &&& self.is_finalized
                    &&& is_pow2(self.n + 1)
                    &&& msg.n == self.n
                    &&& msg.num_inputs == self.num_inputs
                    &&& msg.input_values@ == self.input_assignments@
                    &&& msg.wire_commitments@.len() == 4
                    &&& state.wf()
                    &&& state.required_domain_size == self.n + 1
                    &&& state.input_values@ == self.input_assignments@
                    &&& state.witness_polys_as_coeffs@.len() == 4
                    &&& forall|i: int|
                        0 <= i < 4 ==> {
                            &&& (#[trigger] state.witness_polys_as_coeffs@[i]).elems@.len()
                                == self.n + 1
                            &&& forall|j: int|
                                0 <= j < self.n + 1
                                    ==> #[trigger] state.witness_polys_as_coeffs@[i].elems@[j] as int
                                    == idft_at(
                                    zero_padded(self.wire_assignments@[i]@, self.n + 1),
                                    domain_for_size(self.n + 1),
                                    j,
                                )
                        }
                    &&& forall|i: int|
                        0 <= i < 4 ==> #[trigger] msg.wire_commitments@[i] as int == inner_product(
                            state.witness_polys_as_coeffs@[i].elems@,
                            crs_mons.bases@,
                        )
                    &&& forall|i: int|
                        0 <= i < 4 ==> (#[trigger] state.witness_polys_unpadded_values@[i]).elems@
                            == self.wire_assignments@[i]@
                },
                Err(e) => {
                    ||| e == SynthesisError::AssemblyNotFinalized
                    ||| e == SynthesisError::NonPowerOfTwoSize
                    ||| e == SynthesisError::SizeMismatch
                },
            },
            res matches Err(e) && e == SynthesisError::AssemblyNotFinalized <==> !self.is_finalized,
            res matches Err(e) && e == SynthesisError::NonPowerOfTwoSize <==> (self.is_finalized
                && !(is_pow2(self.n as int + 1) && self.n + 1 <= MAX_DOMAIN_SIZE)),
            res matches Err(e) && e == SynthesisError::SizeMismatch <==> (self.is_finalized
                && is_pow2(self.n as int + 1) && self.n + 1 <= MAX_DOMAIN_SIZE
                && crs_mons.bases@.len() < self.n + 1),
            res is Ok <==> (self.is_finalized && is_pow2(self.n as int + 1) && self.n + 1
                <= MAX_DOMAIN_SIZE && crs_mons.bases@.len() >= self.n + 1),
    {
        if !self.is_finalized {
            return Err(SynthesisError::AssemblyNotFinalized);
        }
        if self.n >= MAX_DOMAIN_SIZE as usize {
            return Err(SynthesisError::NonPowerOfTwoSize);
        }
        let required_domain_size = self.n + 1;
        let domain = Domain::new_for_size(required_domain_size)?;
        let non_residues = match make_non_residues(3) {
            Ok(v) => v,
            Err(e) => {
                return Err(e);
            },
        };
        if crs_mons.bases.len() < required_domain_size {
            return Err(SynthesisError::SizeMismatch);
        }
        let mut wire_commitments: Vec<u64> = Vec::new();
        let mut wire_polys_as_coefficients: Vec<Polynomial> = Vec::new();
        let mut i: usize = 0;
        while i < 4
            invariant
                self.wf(),
                crs_mons.wf(),
                crs_mons.bases@.len() >= self.n + 1,
                domain.wf(),
                domain.size == self.n + 1,
                domain == domain_for_size(self.n + 1),
                i <= 4,
                wire_commitments@.len() == i,
                wire_polys_as_coefficients@.len() == i,
                forall|k: int|
                    0 <= k < i ==> {
                        &&& (#[trigger] wire_polys_as_coefficients@[k]).wf()
                        &&& wire_polys_as_coefficients@[k].is_coeffs()
                        &&& wire_polys_as_coefficients@[k].padded()
                        &&& wire_polys_as_coefficients@[k].domain == domain
                        &&& wire_polys_as_coefficients@[k].elems@.len() == self.n + 1
                        &&& forall|j: int|
                            0 <= j < self.n + 1
                                ==> #[trigger] wire_polys_as_coefficients@[k].elems@[j] as int
                                == idft_at(
                                zero_padded(self.wire_assignments@[k]@, self.n + 1),
                                domain,
                                j,
                            )
                    },
                forall|k: int|
                    0 <= k < i ==> #[trigger] wire_commitments@[k] as int == inner_product(
                        wire_polys_as_coefficients@[k].elems@,
                        crs_mons.bases@,
                    ),
            decreases 4 - i,
        {
            let mut padded = clone_scalars(&self.wire_assignments[i]);
            padded.push(0);
            proof {
                assert(padded@ =~= zero_padded(self.wire_assignments@[i as int]@, self.n + 1));
            }
            let pv = Polynomial { form: PolynomialForm::Values, elems: padded, domain };
            let coeffs = pv.ifft();
            let c = commit_using_monomials(&coeffs, crs_mons);
            wire_commitments.push(c);
            wire_polys_as_coefficients.push(coeffs);
            i = i + 1;
        }
        let mut assignment_polynomials: Vec<Polynomial> = Vec::new();
        let mut i: usize = 0;
        while i < 4
            invariant
                self.wf(),
                domain.wf(),
                domain.size == self.n + 1,
                domain == domain_for_size(self.n + 1),
                i <= 4,
                assignment_polynomials@.len() == i,
                forall|k: int|
                    0 <= k < i ==> {
                        &&& (#[trigger] assignment_polynomials@[k]).wf()
                        &&& assignment_polynomials@[k].is_values()
                        &&& assignment_polynomials@[k].domain == domain
                        &&& assignment_polynomials@[k].elems@ == self.wire_assignments@[k]@
                    },
            decreases 4 - i,
        {
            let col = clone_scalars(&self.wire_assignments[i]);
            assignment_polynomials.push(
                Polynomial { form: PolynomialForm::Values, elems: col, domain },
            );
            i = i + 1;
        }
        let message = FirstProverMessage {
            n: self.n,
            num_inputs: self.num_inputs,
            input_values: clone_scalars(&self.input_assignments),
            wire_commitments,
        };
        let state = FirstPartialProverState {
            required_domain_size,
            non_residues,
            input_values: self.input_assignments,
            witness_polys_as_coeffs: wire_polys_as_coefficients,
            witness_polys_unpadded_values: assignment_polynomials,
        };
        Ok((state, message))
    }
}

/// The `k`-th identity-side factor of the permutation grand product at row
/// `i`: the wire value plus `gamma`, shifted by `beta` times the row's
/// domain element (scaled by the wire's non-residue for wires past the
/// first).
#[verifier::opaque]
pub open spec fn round2_num_term(
    fs: FirstPartialProverState,
    k: int,
    beta: int,
    gamma: int,
    i: int,
) -> int {
    let w = fs.witness_polys_unpadded_values@[k].elems@;
    let dom = domain_for_size(fs.required_domain_size as int);
    let xw = fmul(beta, pow_fr(dom.omega as int, i as nat));
    if k == 0 {
        fadd(fadd(w[i] as int, gamma), xw)
    } else {
        fadd(fadd(w[i] as int, gamma), fmul(fs.non_residues@[k - 1] as int, xw))
    }
}

/// The identity-side product over all four wires at row `i`.
#[verifier::opaque]
pub open spec fn round2_num_at(fs: FirstPartialProverState, beta: int, gamma: int, i: int) -> int {
    fmul(
        fmul(
            fmul(round2_num_term(fs, 0, beta, gamma, i), round2_num_term(fs, 1, beta, gamma, i)),
            round2_num_term(fs, 2, beta, gamma, i),
        ),
        round2_num_term(fs, 3, beta, gamma, i),
    )
}

/// The `k`-th permutation-side factor at row `i`: the wire value plus
/// `gamma`, shifted by `beta` times that wire's permutation polynomial
/// value at the row.
#[verifier::opaque]
pub open spec fn round2_den_term(
    fs: FirstPartialProverState,
    setup: SetupPolynomials,
    k: int,
    beta: int,
    gamma: int,
    i: int,
) -> int {
    let w = fs.witness_polys_unpadded_values@[k].elems@;
    let sigma = dft_at(setup.permutation_polynomials@[k].elems@, setup.domain(), i);
    fadd(fadd(w[i] as int, gamma), fmul(beta, sigma))
}

/// The permutation-side product over all four wires at row `i`.
#[verifier::opaque]
pub open spec fn round2_den_at(
    fs: FirstPartialProverState,
    setup: SetupPolynomials,
    beta: int,
    gamma: int,
    i: int,
) -> int {
    fmul(
        fmul(
            fmul(
                round2_den_term(fs, setup, 0, beta, gamma, i),
                round2_den_term(fs, setup, 1, beta, gamma, i),
            ),
            round2_den_term(fs, setup, 2, beta, gamma, i),
        ),
        round2_den_term(fs, setup, 3, beta, gamma, i),
    )
}

/// The grand-product value at row `i`: the running product of the ratios
/// of identity-side to permutation-side factors over all earlier rows,
/// starting at the multiplicative identity.
pub open spec fn round2_z_at(
    fs: FirstPartialProverState,
    setup: SetupPolynomials,
    beta: int,
    gamma: int,
    i: int,
) -> int
    decreases i,
{
    if i <= 0 {
        1
    } else {
        fmul(
            round2_z_at(fs, setup, beta, gamma, i - 1),
            fmul(
                round2_num_at(fs, beta, gamma, i - 1),
                finv(round2_den_at(fs, setup, beta, gamma, i - 1)),
            ),
        )
    }
}

proof fn lemma_round2_z_values(
    fs: FirstPartialProverState,
    setup: SetupPolynomials,
    beta: int,
    gamma: int,
    zn: Seq<u64>,
    gp: Seq<u64>,
    k: int,
)
    requires
        gp.len() == zn.len() + 1,
        gp[0] == 1,
        forall|i: int|
            0 <= i < zn.len() ==> #[trigger] gp[i + 1] as int == fmul(gp[i] as int, zn[i] as int),
        forall|i: int|
            0 <= i < zn.len() ==> #[trigger] zn[i] as int == fmul(
                round2_num_at(fs, beta, gamma, i),
                finv(round2_den_at(fs, setup, beta, gamma, i)),
            ),
        0 <= k < gp.len(),
    ensures
        gp[k] as int == round2_z_at(fs, setup, beta, gamma, k),
    decreases k,
{
    if k > 0 {
        lemma_round2_z_values(fs, setup, beta, gamma, zn, gp, k - 1);
        assert(gp[(k - 1) + 1] as int == fmul(gp[k - 1] as int, zn[k - 1] as int));
        assert(zn[k - 1] as int == fmul(
            round2_num_at(fs, beta, gamma, k - 1),
            finv(round2_den_at(fs, setup, beta, gamma, k - 1)),
        ));
    }
}

impl ProverAssembly4WithNextStep {
    /// Round two: form the permutation grand product from the witness
    /// values and the permutation polynomials under the challenges `beta`
    /// and `gamma`, interpolate it, and commit it.
    ///
    /// The grand product's value at the domain's first point is the
    /// multiplicative identity by construction.
    pub fn second_step_from_first_step(
        first_state: FirstPartialProverState,
        first_verifier_message: FirstVerifierMessage,
        setup: &SetupPolynomials,
        crs_mons: &CrsForMonomialForm,
        setup_precomputations: Option<&SetupPolynomialsPrecomputations>,
    ) -> (res: Result<(SecondPartialProverState, SecondProverMessage), SynthesisError>)
        requires
            first_state.wf(),
            setup.wf(),
            setup.domain().size == first_state.required_domain_size,
            is_fr(first_verifier_message.beta),
            is_fr(first_verifier_message.gamma),
            crs_mons.wf(),
            crs_mons.bases@.len() >= first_state.required_domain_size,
            match setup_precomputations {
                Some(pre) => pre.valid_for(setup),
                None => true,
            },
        ensures
            match res {
                Ok(r) => {
                    let (state, msg) = r;
                    let n1 = first_state.required_domain_size as int;
                    let beta = first_verifier_message.beta as int;
                    let gamma = first_verifier_message.gamma as int;
                    let zv = Seq::new(
                        n1 as nat,
                        |i: int| round2_z_at(first_state, *setup, beta, gamma, i) as u64,
                    );
                    &&& state.required_domain_size == first_state.required_domain_size
                    &&& state.non_residues@ == first_state.non_residues@
                    &&& state.input_values@ == first_state.input_values@
                    &&& state.witness_polys_as_coeffs@ == first_state.witness_polys_as_coeffs@
                    &&& state.z_in_monomial_form.wf()
                    &&& state.z_in_monomial_form.is_coeffs()
                    &&& state.z_in_monomial_form.padded()
                    &&& state.z_in_monomial_form.domain == domain_for_size(n1)
                    &&& state.z_in_monomial_form.elems@.len() == n1
                    &&& forall|j: int|
                        0 <= j < n1 ==> #[trigger] state.z_in_monomial_form.elems@[j] as int
                            == idft_at(zv, domain_for_size(n1), j)
                    &&& round2_z_at(first_state, *setup, beta, gamma, 0) == 1
                    &&& msg.z_commitment as int == inner_product(
                        state.z_in_monomial_form.elems@,
                        crs_mons.bases@,
                    )
                },
                Err(e) => {
                    &&& e == SynthesisError::DivisionByZero
                    &&& exists|i: int|
                        0 <= i < first_state.required_domain_size - 1 && round2_den_at(
                            first_state,
                            *setup,
                            first_verifier_message.beta as int,
                            first_verifier_message.gamma as int,
                            i,
                        ) == 0
                },
            },
            res is Ok <==> !(exists|i: int|
                0 <= i < first_state.required_domain_size - 1 && round2_den_at(
                    first_state,
                    *setup,
                    first_verifier_message.beta as int,
                    first_verifier_message.gamma as int,
                    i,
                ) == 0),
    {
        let beta = first_verifier_message.beta;
        let gamma = first_verifier_message.gamma;
        let required_domain_size = first_state.required_domain_size;
        let m = required_domain_size - 1;
        let domain = Domain::new_for_size(required_domain_size)?;

        // identity-side factors: each wire plus gamma
        let mut proto0 = first_state.witness_polys_unpadded_values[0].fast_clone();
        proto0.add_constant(gamma);
        let mut proto1 = first_state.witness_polys_unpadded_values[1].fast_clone();
        proto1.add_constant(gamma);
        let mut proto2 = first_state.witness_polys_unpadded_values[2].fast_clone();
        proto2.add_constant(gamma);
        let mut proto3 = first_state.witness_polys_unpadded_values[3].fast_clone();
        proto3.add_constant(gamma);

        // beta times the domain elements, truncated by the last point
        let mut els = domain.materialize_domain_elements();
        let mut dep = Polynomial { form: PolynomialForm::Values, elems: els, domain };
        dep.elems.truncate(m);
        dep.scale(beta);

        // identity-side product
        let mut z_num = proto0.fast_clone();
        z_num.add_assign(&dep);
        let mut p1 = proto1.fast_clone();
        p1.add_assign_scaled(&dep, first_state.non_residues[0]);
        z_num.mul_assign(&p1);
        let mut p2 = proto2.fast_clone();
        p2.add_assign_scaled(&dep, first_state.non_residues[1]);
        z_num.mul_assign(&p2);
        let mut p3 = proto3.fast_clone();
        p3.add_assign_scaled(&dep, first_state.non_residues[2]);
        z_num.mul_assign(&p3);

        // permutation values over the truncated domain
        let mut perm_vals: Vec<Polynomial> = Vec::new();
        match setup_precomputations {
            Some(pre) => {
                let mut k: usize = 0;
                while k < 4
                    invariant
                        setup.wf(),
                        pre.valid_for(setup),
                        setup.domain().size == required_domain_size,
                        m == required_domain_size - 1,
                        k <= 4,
                        perm_vals@.len() == k,
                        forall|t: int|
                            0 <= t < k ==> {
                                &&& (#[trigger] perm_vals@[t]).wf()
                                &&& perm_vals@[t].is_values()
                                &&& perm_vals@[t].domain == setup.domain()
                                &&& perm_vals@[t].elems@.len() == m
                                &&& forall|i: int|
                                    0 <= i < m ==> #[trigger] perm_vals@[t].elems@[i] as int
                                        == dft_at(
                                        setup.permutation_polynomials@[t].elems@,
                                        setup.domain(),
                                        i,
                                    )
                            },
                    decreases 4 - k,
                {
                    let p = pre.permutation_polynomials_values_of_size_n_minus_one[k].fast_clone();
                    perm_vals.push(p);
                    k = k + 1;
                }
            },
            None => {
                let mut k: usize = 0;
                while k < 4
                    invariant
                        setup.wf(),
                        setup.domain().size == required_domain_size,
                        1 <= m == required_domain_size - 1,
                        k <= 4,
                        perm_vals@.len() == k,
                        forall|t: int|
                            0 <= t < k ==> {
                                &&& (#[trigger] perm_vals@[t]).wf()
                                &&& perm_vals@[t].is_values()
                                &&& perm_vals@[t].domain == setup.domain()
                                &&& perm_vals@[t].elems@.len() == m
                                &&& forall|i: int|
                                    0 <= i < m ==> #[trigger] perm_vals@[t].elems@[i] as int
                                        == dft_at(
                                        setup.permutation_polynomials@[t].elems@,
                                        setup.domain(),
                                        i,
                                    )
                            },
                    decreases 4 - k,
                {
                    let mut p = setup.permutation_polynomials[k].fast_clone().fft();
                    p.elems.truncate(m);
                    perm_vals.push(p);
                    k = k + 1;
                }
            },
        }

        // permutation-side product, then batch inversion
        let mut z_den = proto0;
        z_den.add_assign_scaled(&perm_vals[0], beta);
        let mut q1 = proto1;
        q1.add_assign_scaled(&perm_vals[1], beta);
        z_den.mul_assign(&q1);
        let mut q2 = proto2;
        q2.add_assign_scaled(&perm_vals[2], beta);
        z_den.mul_assign(&q2);
        let mut q3 = proto3;
        q3.add_assign_scaled(&perm_vals[3], beta);
        z_den.mul_assign(&q3);
        proof {
            assert forall|i: int| 0 <= i < m implies #[trigger] z_den.elems@[i] as int
                == round2_den_at(first_state, *setup, beta as int, gamma as int, i) by {
                reveal(round2_den_term);
                reveal(round2_den_at);
            }
        }
        match z_den.batch_inversion() {
            Ok(()) => {},
            Err(e) => {
                return Err(e);
            },
        }
        proof {
            // the inversion succeeded, so no denominator row was zero
            assert forall|i: int|
                0 <= i < m implies round2_den_at(
                first_state,
                *setup,
                beta as int,
                gamma as int,
                i,
            ) != 0 by {
                assert(fmul(
                    round2_den_at(first_state, *setup, beta as int, gamma as int, i),
                    z_den.elems@[i] as int,
                ) == 1);
                if round2_den_at(first_state, *setup, beta as int, gamma as int, i) == 0 {
                    assert(fmul(0, z_den.elems@[i] as int) == 0);
                }
            }
        }

        z_num.mul_assign(&z_den);

        proof {
            assert forall|i: int| 0 <= i < m implies #[trigger] z_num.elems@[i] as int == fmul(
                round2_num_at(first_state, beta as int, gamma as int, i),
                finv(round2_den_at(first_state, *setup, beta as int, gamma as int, i)),
            ) by {
                reveal(round2_num_term);
                reveal(round2_num_at);
                reveal(round2_den_term);
                reveal(round2_den_at);
                let num_i = round2_num_at(first_state, beta as int, gamma as int, i);
                let den_i = round2_den_at(first_state, *setup, beta as int, gamma as int, i);
                let inv_i = z_den.elems@[i] as int;
                assert(fmul(den_i, inv_i) == 1);
                assert(crate::field::has_inverse(den_i));
                let fv = finv(den_i);
                assert(0 <= fv < crate::field::MODULUS && fmul(den_i, fv) == 1);
                crate::field::lemma_inverse_unique(den_i, inv_i, fv);
            }
        }

        let z = z_num.calculate_shifted_grand_product()?;

        proof {
            let beta_i = beta as int;
            let gamma_i = gamma as int;
            assert forall|i: int| 0 <= i < z.elems@.len() implies #[trigger] z.elems@[i] as int
                == round2_z_at(first_state, *setup, beta_i, gamma_i, i) by {
                lemma_round2_z_values(
                    first_state,
                    *setup,
                    beta_i,
                    gamma_i,
                    z_num.elems@,
                    z.elems@,
                    i,
                );
            }
        }

        let z_in_monomial_form = z.ifft();

        proof {
            let n1 = required_domain_size as int;
            let beta_i = beta as int;
            let gamma_i = gamma as int;
            let zv = Seq::new(
                n1 as nat,
                |i: int| round2_z_at(first_state, *setup, beta_i, gamma_i, i) as u64,
            );
            assert(z.elems@ =~= zv);
        }

        let z_commitment = commit_using_monomials(&z_in_monomial_form, crs_mons);

        let state = SecondPartialProverState {
            required_domain_size,
            non_residues: first_state.non_residues,
            input_values: first_state.input_values,
            witness_polys_as_coeffs: first_state.witness_polys_as_coeffs,
            z_in_monomial_form,
        };
        let message = SecondProverMessage { z_commitment };
        Ok((state, message))
    }
}

impl SecondPartialProverState {
    /// What round three may assume of a round-two state.
    pub open spec fn wf(&self) -> bool {
        let n1 = self.required_domain_size as int;
        &&& 2 <= n1 <= MAX_DOMAIN_SIZE
        &&& is_pow2(n1)
        &&& wf_non_residues(self.non_residues@)
        &&& all_fr(self.input_values@)
        &&& self.input_values@.len() < n1
        &&& self.witness_polys_as_coeffs@.len() == 4
        &&& forall|i: int|
            0 <= i < 4 ==> {
                &&& (#[trigger] self.witness_polys_as_coeffs@[i]).wf()
                &&& self.witness_polys_as_coeffs@[i].is_coeffs()
                &&& self.witness_polys_as_coeffs@[i].padded()
                &&& self.witness_polys_as_coeffs@[i].domain == domain_for_size(n1)
            }
        &&& self.z_in_monomial_form.wf()
        &&& self.z_in_monomial_form.is_coeffs()
        &&& self.z_in_monomial_form.padded()
        &&& self.z_in_monomial_form.domain == domain_for_size(n1)
    }
}

/// The coefficient sequence of a polynomial with `X` replaced by
/// `omega * X`: coefficient `t` scaled by the `t`-th power of `omega`.
pub open spec fn shifted_coeffs(c: Seq<u64>, omega: int) -> Seq<u64> {
    Seq::new(c.len(), |t: int| fmul(c[t] as int, pow_fr(omega, t as nat)) as u64)
}

/// The coefficients of the public-input polynomial folded into the
/// constant selector: the inverse transform of the zero-padded input
/// values, plus the constant selector's coefficients.
pub open spec fn inputs_and_const_coeffs(
    inputs: Seq<u64>,
    qconst: Seq<u64>,
    n1: int,
) -> Seq<u64> {
    Seq::new(
        n1 as nat,
        |t: int| fadd(idft_at(zero_padded(inputs, n1), domain_for_size(n1), t), qconst[t] as int) as u64,
    )
}

/// The coefficients of the first Lagrange basis polynomial of the
/// size-`n1` domain.
pub open spec fn l0_coeffs(n1: int) -> Seq<u64> {
    Seq::new(
        n1 as nat,
        |t: int| idft_at(
            crate::polynomial::indicator_seq(n1, 0),
            domain_for_size(n1),
            t,
        ) as u64,
    )
}

/// The selector terms of the main identity at the `i`-th point of the
/// extended coset: the folded input-and-constant polynomial plus each
/// selector times its wire product, plus the next-row selector times the
/// shifted D wire.
#[verifier::opaque]
pub open spec fn round3_gate_at(
    ss: SecondPartialProverState,
    setup: SetupPolynomials,
    i: int,
) -> int {
    let n1 = ss.required_domain_size as int;
    let dom = domain_for_size(n1);
    let d4 = domain_for_size(4 * n1);
    let w0 = coset_eval_at(ss.witness_polys_as_coeffs@[0].elems@, d4, i);
    let w1 = coset_eval_at(ss.witness_polys_as_coeffs@[1].elems@, d4, i);
    let w2 = coset_eval_at(ss.witness_polys_as_coeffs@[2].elems@, d4, i);
    let w3 = coset_eval_at(ss.witness_polys_as_coeffs@[3].elems@, d4, i);
    let d_next = coset_eval_at(
        shifted_coeffs(ss.witness_polys_as_coeffs@[3].elems@, dom.omega as int),
        d4,
        i,
    );
    let q0 = coset_eval_at(setup.selector_polynomials@[0].elems@, d4, i);
    let q1 = coset_eval_at(setup.selector_polynomials@[1].elems@, d4, i);
    let q2 = coset_eval_at(setup.selector_polynomials@[2].elems@, d4, i);
    let q3 = coset_eval_at(setup.selector_polynomials@[3].elems@, d4, i);
    let qm = coset_eval_at(setup.selector_polynomials@[4].elems@, d4, i);
    let qnext = coset_eval_at(setup.next_step_selector_polynomials@[0].elems@, d4, i);
    let ic = coset_eval_at(
        inputs_and_const_coeffs(ss.input_values@, setup.selector_polynomials@[5].elems@, n1),
        d4,
        i,
    );
    let g1 = fadd(ic, fmul(w0, q0));
    let g2 = fadd(g1, fmul(w1, q1));
    let g3 = fadd(g2, fmul(w2, q2));
    let g4 = fadd(g3, fmul(w3, q3));
    let g5 = fadd(g4, fmul(fmul(w0, w1), qm));
    fadd(g5, fmul(d_next, qnext))
}

/// The identity side of the permutation argument at the `i`-th coset
/// point: the grand product times the four wire terms shifted by `beta`
/// times the coset point (scaled by the non-residues).
#[verifier::opaque]
pub open spec fn round3_copy_num_at(
    ss: SecondPartialProverState,
    beta: int,
    gamma: int,
    i: int,
) -> int {
    let n1 = ss.required_domain_size as int;
    let d4 = domain_for_size(4 * n1);
    let x = coset_point(d4, i);
    let w0 = coset_eval_at(ss.witness_polys_as_coeffs@[0].elems@, d4, i);
    let w1 = coset_eval_at(ss.witness_polys_as_coeffs@[1].elems@, d4, i);
    let w2 = coset_eval_at(ss.witness_polys_as_coeffs@[2].elems@, d4, i);
    let w3 = coset_eval_at(ss.witness_polys_as_coeffs@[3].elems@, d4, i);
    let z_lde = coset_eval_at(ss.z_in_monomial_form.elems@, d4, i);
    let nr = ss.non_residues@;
    let c1 = fmul(z_lde, fadd(fadd(w0, gamma), fmul(beta, x)));
    let c1 = fmul(c1, fadd(fadd(w1, gamma), fmul(fmul(beta, nr[0] as int), x)));
    let c1 = fmul(c1, fadd(fadd(w2, gamma), fmul(fmul(beta, nr[1] as int), x)));
    fmul(c1, fadd(fadd(w3, gamma), fmul(fmul(beta, nr[2] as int), x)))
}

/// The permutation side of the permutation argument at the `i`-th coset
/// point: the shifted grand product times the four wire terms shifted by
/// `beta` times the wire's permutation polynomial.
#[verifier::opaque]
pub open spec fn round3_copy_den_at(
    ss: SecondPartialProverState,
    setup: SetupPolynomials,
    beta: int,
    gamma: int,
    i: int,
) -> int {
    let n1 = ss.required_domain_size as int;
    let dom = domain_for_size(n1);
    let d4 = domain_for_size(4 * n1);
    let w0 = coset_eval_at(ss.witness_polys_as_coeffs@[0].elems@, d4, i);
    let w1 = coset_eval_at(ss.witness_polys_as_coeffs@[1].elems@, d4, i);
    let w2 = coset_eval_at(ss.witness_polys_as_coeffs@[2].elems@, d4, i);
    let w3 = coset_eval_at(ss.witness_polys_as_coeffs@[3].elems@, d4, i);
    let z_shift_lde = coset_eval_at(
        shifted_coeffs(ss.z_in_monomial_form.elems@, dom.omega as int),
        d4,
        i,
    );
    let s0 = coset_eval_at(setup.permutation_polynomials@[0].elems@, d4, i);
    let s1 = coset_eval_at(setup.permutation_polynomials@[1].elems@, d4, i);
    let s2 = coset_eval_at(setup.permutation_polynomials@[2].elems@, d4, i);
    let s3 = coset_eval_at(setup.permutation_polynomials@[3].elems@, d4, i);
    let c2 = fmul(z_shift_lde, fadd(fadd(w0, gamma), fmul(beta, s0)));
    let c2 = fmul(c2, fadd(fadd(w1, gamma), fmul(beta, s1)));
    let c2 = fmul(c2, fadd(fadd(w2, gamma), fmul(beta, s2)));
    fmul(c2, fadd(fadd(w3, gamma), fmul(beta, s3)))
}

/// The `(Z - 1) * L_0` term at the `i`-th coset point.
#[verifier::opaque]
pub open spec fn round3_l0_term_at(ss: SecondPartialProverState, i: int) -> int {
    let n1 = ss.required_domain_size as int;
    let d4 = domain_for_size(4 * n1);
    let z_lde = coset_eval_at(ss.z_in_monomial_form.elems@, d4, i);
    let l0 = coset_eval_at(l0_coeffs(n1), d4, i);
    fmul(fsub(z_lde, 1), l0)
}

/// The value of the main identity's numerator at the `i`-th point of the
/// extended coset: the selector terms, plus `alpha` times the grand-product
/// side of the permutation argument, minus `alpha` times its permutation
/// side, plus `alpha^2` times `(Z - 1) * L_0`.
pub open spec fn round3_numerator_at(
    ss: SecondPartialProverState,
    setup: SetupPolynomials,
    alpha: int,
    beta: int,
    gamma: int,
    i: int,
) -> int {
    fadd(
        fsub(
            fadd(round3_gate_at(ss, setup, i), fmul(alpha, round3_copy_num_at(ss, beta, gamma, i))),
            fmul(alpha, round3_copy_den_at(ss, setup, beta, gamma, i)),
        ),
        fmul(fmul(alpha, alpha), round3_l0_term_at(ss, i)),
    )
}

/// The quotient polynomial's value at the `i`-th point of the extended
/// coset: the numerator divided by the vanishing polynomial of the base
/// domain.
pub open spec fn round3_t_value_at(
    ss: SecondPartialProverState,
    setup: SetupPolynomials,
    alpha: int,
    beta: int,
    gamma: int,
    i: int,
) -> int {
    let n1 = ss.required_domain_size as int;
    let d4 = domain_for_size(4 * n1);
    fmul(
        round3_numerator_at(ss, setup, alpha, beta, gamma, i),
        finv(fsub(pow_fr(coset_point(d4, i), n1 as nat), 1)),
    )
}

/// Builds the selector-term values of the quotient numerator on the extended
/// coset, from the witness LDEs and the selector LDEs.
fn round3_gate_lde(
    second_state: &SecondPartialProverState,
    setup: &SetupPolynomials,
    setup_precomputations: Option<&SetupPolynomialsPrecomputations>,
    wl: &Vec<Polynomial>,
    wnext: &Polynomial,
) -> (res: Result<Polynomial, SynthesisError>)
    requires
        second_state.wf(),
        setup.wf(),
        setup.domain().size == second_state.required_domain_size,
        match setup_precomputations {
            Some(pre) => pre.valid_for(setup),
            None => true,
        },
        wl@.len() == 4,
        forall|k: int|
            0 <= k < 4 ==> is_coset_lde_of(
                #[trigger] wl@[k],
                second_state.witness_polys_as_coeffs@[k].elems@,
                second_state.required_domain_size as int,
            ),
        is_coset_lde_of(
            *wnext,
            shifted_coeffs(
                second_state.witness_polys_as_coeffs@[3].elems@,
                domain_for_size(second_state.required_domain_size as int).omega as int,
            ),
            second_state.required_domain_size as int,
        ),
    ensures
        match res {
            Ok(p) => {
                let n1 = second_state.required_domain_size as int;
                &&& p.wf()
                &&& p.is_values()
                &&& p.padded()
                &&& p.domain == domain_for_size(4 * n1)
                &&& p.elems@.len() == 4 * n1
                &&& forall|j: int|
                    0 <= j < 4 * n1 ==> #[trigger] p.elems@[j] as int == round3_gate_at(
                        *second_state,
                        *setup,
                        lde_source(j, n1),
                    )
            },
            Err(e) => e == SynthesisError::NonPowerOfTwoSize,
        },
        res is Ok,
{
    let required_domain_size = second_state.required_domain_size;
    let domain = Domain::new_for_size(required_domain_size)?;

    let mut pv = clone_scalars(&second_state.input_values);
    while pv.len() < required_domain_size
        invariant
            second_state.wf(),
            pv@.len() >= second_state.input_values@.len(),
            pv@.len() <= required_domain_size,
            required_domain_size == second_state.required_domain_size,
            forall|t: int|
                0 <= t < pv@.len() ==> #[trigger] pv@[t] == (if t
                    < second_state.input_values@.len() {
                    second_state.input_values@[t]
                } else {
                    0u64
                }),
        decreases required_domain_size - pv@.len(),
    {
        pv.push(0);
    }
    proof {
        assert(pv@ =~= zero_padded(
            second_state.input_values@,
            second_state.required_domain_size as int,
        ));
    }
    let inputs_poly = Polynomial { form: PolynomialForm::Values, elems: pv, domain };
    let mut ic = inputs_poly.ifft();
    ic.add_assign(&setup.selector_polynomials[5]);
    proof {
        let n1 = required_domain_size as int;
        assert(ic.elems@ =~= inputs_and_const_coeffs(
            second_state.input_values@,
            setup.selector_polynomials@[5].elems@,
            n1,
        ));
    }
    let mut t_1 = ic.bitreversed_coset_lde()?;

    let a_selector = get_precomputed_selector_lde_for_index(0, setup, setup_precomputations)?;
    let mut tmp = wl[0].fast_clone();
    tmp.mul_assign(a_selector.as_ref());
    t_1.add_assign(&tmp);

    let b_selector = get_precomputed_selector_lde_for_index(1, setup, setup_precomputations)?;
    let mut tmp = wl[1].fast_clone();
    tmp.mul_assign(b_selector.as_ref());
    t_1.add_assign(&tmp);

    let c_selector = get_precomputed_selector_lde_for_index(2, setup, setup_precomputations)?;
    let mut tmp = wl[2].fast_clone();
    tmp.mul_assign(c_selector.as_ref());
    t_1.add_assign(&tmp);

    let d_selector = get_precomputed_selector_lde_for_index(3, setup, setup_precomputations)?;
    let mut tmp = wl[3].fast_clone();
    tmp.mul_assign(d_selector.as_ref());
    t_1.add_assign(&tmp);

    let m_selector = get_precomputed_selector_lde_for_index(4, setup, setup_precomputations)?;
    let mut tmp = wl[0].fast_clone();
    tmp.mul_assign(&wl[1]);
    tmp.mul_assign(m_selector.as_ref());
    t_1.add_assign(&tmp);

    let d_next_selector = get_precomputed_next_step_selector_lde_for_index(
        0,
        setup,
        setup_precomputations,
    )?;
    let mut tmp = wnext.fast_clone();
    tmp.mul_assign(d_next_selector.as_ref());
    t_1.add_assign(&tmp);

    proof {
        let n1 = required_domain_size as int;
        assert forall|j: int| 0 <= j < 4 * n1 implies #[trigger] t_1.elems@[j] as int
            == round3_gate_at(*second_state, *setup, lde_source(j, n1)) by {
            reveal(round3_gate_at);
        }
    }
    Ok(t_1)
}

/// Builds the identity side of the permutation argument on the extended
/// coset: the grand product LDE times the shifted wire terms.
fn round3_copy_num_lde(
    second_state: &SecondPartialProverState,
    setup: &SetupPolynomials,
    setup_precomputations: Option<&SetupPolynomialsPrecomputations>,
    wl: &Vec<Polynomial>,
    z_lde: &Polynomial,
    beta: u64,
    gamma: u64,
) -> (res: Result<Polynomial, SynthesisError>)
    requires
        second_state.wf(),
        setup.wf(),
        setup.domain().size == second_state.required_domain_size,
        match setup_precomputations {
            Some(pre) => pre.valid_for(setup),
            None => true,
        },
        wl@.len() == 4,
        forall|k: int|
            0 <= k < 4 ==> is_coset_lde_of(
                #[trigger] wl@[k],
                second_state.witness_polys_as_coeffs@[k].elems@,
                second_state.required_domain_size as int,
            ),
        is_coset_lde_of(
            *z_lde,
            second_state.z_in_monomial_form.elems@,
            second_state.required_domain_size as int,
        ),
        is_fr(beta),
        is_fr(gamma),
    ensures
        match res {
            Ok(p) => {
                let n1 = second_state.required_domain_size as int;
                &&& p.wf()
                &&& p.is_values()
                &&& p.padded()
                &&& p.domain == domain_for_size(4 * n1)
                &&& p.elems@.len() == 4 * n1
                &&& forall|j: int|
                    0 <= j < 4 * n1 ==> #[trigger] p.elems@[j] as int == round3_copy_num_at(
                        *second_state,
                        beta as int,
                        gamma as int,
                        lde_source(j, n1),
                    )
            },
            Err(e) => e == SynthesisError::NonPowerOfTwoSize,
        },
        res is Ok,
{
    let required_domain_size = second_state.required_domain_size;
    let x_precomp = get_precomputed_x_lde(required_domain_size, setup_precomputations, setup)?;
    let mut contrib_z = z_lde.fast_clone();
    let mut tmp = wl[0].fast_clone();
    tmp.add_constant(gamma);
    tmp.add_assign_scaled(x_precomp.as_ref(), beta);
    contrib_z.mul_assign(&tmp);
    let factor1 = mul_fr(beta, second_state.non_residues[0]);
    let mut tmp = wl[1].fast_clone();
    tmp.add_constant(gamma);
    tmp.add_assign_scaled(x_precomp.as_ref(), factor1);
    contrib_z.mul_assign(&tmp);
    let factor2 = mul_fr(beta, second_state.non_residues[1]);
    let mut tmp = wl[2].fast_clone();
    tmp.add_constant(gamma);
    tmp.add_assign_scaled(x_precomp.as_ref(), factor2);
    contrib_z.mul_assign(&tmp);
    let factor3 = mul_fr(beta, second_state.non_residues[2]);
    let mut tmp = wl[3].fast_clone();
    tmp.add_constant(gamma);
    tmp.add_assign_scaled(x_precomp.as_ref(), factor3);
    contrib_z.mul_assign(&tmp);
    proof {
        let n1 = required_domain_size as int;
        assert forall|j: int| 0 <= j < 4 * n1 implies #[trigger] contrib_z.elems@[j] as int
            == round3_copy_num_at(*second_state, beta as int, gamma as int, lde_source(j, n1)) by {
            reveal(round3_copy_num_at);
        }
    }
    Ok(contrib_z)
}

/// Builds the permutation side of the permutation argument on the
/// extended coset: the shifted grand product LDE times the
/// permutation-shifted wire terms.
fn round3_copy_den_lde(
    second_state: &SecondPartialProverState,
    setup: &SetupPolynomials,
    setup_precomputations: Option<&SetupPolynomialsPrecomputations>,
    wl: &Vec<Polynomial>,
    z_shift_lde: Polynomial,
    beta: u64,
    gamma: u64,
) -> (res: Result<Polynomial, SynthesisError>)
    requires
        second_state.wf(),
        setup.wf(),
        setup.domain().size == second_state.required_domain_size,
        match setup_precomputations {
            Some(pre) => pre.valid_for(setup),
            None => true,
        },
        wl@.len() == 4,
        forall|k: int|
            0 <= k < 4 ==> is_coset_lde_of(
                #[trigger] wl@[k],
                second_state.witness_polys_as_coeffs@[k].elems@,
                second_state.required_domain_size as int,
            ),
        is_coset_lde_of(
            z_shift_lde,
            shifted_coeffs(
                second_state.z_in_monomial_form.elems@,
                domain_for_size(second_state.required_domain_size as int).omega as int,
            ),
            second_state.required_domain_size as int,
        ),
        is_fr(beta),
        is_fr(gamma),
    ensures
        match res {
            Ok(p) => {
                let n1 = second_state.required_domain_size as int;
                &&& p.wf()
                &&& p.is_values()
                &&& p.padded()
                &&& p.domain == domain_for_size(4 * n1)
                &&& p.elems@.len() == 4 * n1
                &&& forall|j: int|
                    0 <= j < 4 * n1 ==> #[trigger] p.elems@[j] as int == round3_copy_den_at(
                        *second_state,
                        *setup,
                        beta as int,
                        gamma as int,
                        lde_source(j, n1),
                    )
            },
            Err(e) => e == SynthesisError::NonPowerOfTwoSize,
        },
        res is Ok,
{
    let required_domain_size = second_state.required_domain_size;
    let perm_0 = get_precomputed_permutation_poly_lde_for_index(0, setup, setup_precomputations)?;
    let perm_1 = get_precomputed_permutation_poly_lde_for_index(1, setup, setup_precomputations)?;
    let perm_2 = get_precomputed_permutation_poly_lde_for_index(2, setup, setup_precomputations)?;
    let perm_3 = get_precomputed_permutation_poly_lde_for_index(3, setup, setup_precomputations)?;
    let mut contrib_z2 = z_shift_lde;
    let mut tmp = wl[0].fast_clone();
    tmp.add_constant(gamma);
    tmp.add_assign_scaled(perm_0.as_ref(), beta);
    contrib_z2.mul_assign(&tmp);
    let mut tmp = wl[1].fast_clone();
    tmp.add_constant(gamma);
    tmp.add_assign_scaled(perm_1.as_ref(), beta);
    contrib_z2.mul_assign(&tmp);
    let mut tmp = wl[2].fast_clone();
    tmp.add_constant(gamma);
    tmp.add_assign_scaled(perm_2.as_ref(), beta);
    contrib_z2.mul_assign(&tmp);
    let mut tmp = wl[3].fast_clone();
    tmp.add_constant(gamma);
    tmp.add_assign_scaled(perm_3.as_ref(), beta);
    contrib_z2.mul_assign(&tmp);
    proof {
        let n1 = required_domain_size as int;
        assert forall|j: int| 0 <= j < 4 * n1 implies #[trigger] contrib_z2.elems@[j] as int
            == round3_copy_den_at(
            *second_state,
            *setup,
            beta as int,
            gamma as int,
            lde_source(j, n1),
        ) by {
            reveal(round3_copy_den_at);
        }
    }
    Ok(contrib_z2)
}

/// Builds the `(Z - 1) * L_0` values on the extended coset.
fn round3_l0_term_lde(second_state: &SecondPartialProverState, z_lde: &Polynomial) -> (res: Result<
    Polynomial,
    SynthesisError,
>)
    requires
        second_state.wf(),
        is_coset_lde_of(
            *z_lde,
            second_state.z_in_monomial_form.elems@,
            second_state.required_domain_size as int,
        ),
    ensures
        match res {
            Ok(p) => {
                let n1 = second_state.required_domain_size as int;
                &&& p.wf()
                &&& p.is_values()
                &&& p.padded()
                &&& p.domain == domain_for_size(4 * n1)
                &&& p.elems@.len() == 4 * n1
                &&& forall|j: int|
                    0 <= j < 4 * n1 ==> #[trigger] p.elems@[j] as int == round3_l0_term_at(
                        *second_state,
                        lde_source(j, n1),
                    )
            },
            Err(e) => e == SynthesisError::NonPowerOfTwoSize,
        },
        res is Ok,
{
    let required_domain_size = second_state.required_domain_size;
    let l_0 = crate::polynomial::calculate_lagrange_poly(required_domain_size, 0)?;
    proof {
        assert(l_0.elems@ =~= l0_coeffs(required_domain_size as int));
    }
    let l_coset_lde = l_0.bitreversed_coset_lde()?;
    let mut z_minus_one_by_l0 = z_lde.fast_clone();
    z_minus_one_by_l0.sub_constant(1);
    z_minus_one_by_l0.mul_assign(&l_coset_lde);
    proof {
        let n1 = required_domain_size as int;
        assert forall|j: int| 0 <= j < 4 * n1 implies #[trigger] z_minus_one_by_l0.elems@[
            j
        ] as int == round3_l0_term_at(*second_state, lde_source(j, n1)) by {
            reveal(round3_l0_term_at);
        }
    }
    Ok(z_minus_one_by_l0)
}

impl ProverAssembly4WithNextStep {
    /// Round three: compute the quotient polynomial over the bitreversed
    /// factor-4 coset, divide pointwise by the precomputed inverse
    /// vanishing polynomial, return to coefficient form, split into
    /// domain-sized chunks and commit each chunk.
    #[verifier::rlimit(100)]
    pub fn third_step_from_second_step(
        second_state: SecondPartialProverState,
        second_verifier_message: SecondVerifierMessage,
        setup: &SetupPolynomials,
        crs_mons: &CrsForMonomialForm,
        setup_precomputations: Option<&SetupPolynomialsPrecomputations>,
    ) -> (res: Result<(ThirdPartialProverState, ThirdProverMessage), SynthesisError>)
        requires
            second_state.wf(),
            setup.wf(),
            setup.domain().size == second_state.required_domain_size,
            is_fr(second_verifier_message.alpha),
            is_fr(second_verifier_message.beta),
            is_fr(second_verifier_message.gamma),
            crs_mons.wf(),
            crs_mons.bases@.len() >= second_state.required_domain_size,
            match setup_precomputations {
                Some(pre) => pre.valid_for(setup),
                None => true,
            },
        ensures
            match res {
                Ok(r) => {
                    let (state, msg) = r;
                    let n1 = second_state.required_domain_size as int;
                    let d4 = domain_for_size(4 * n1);
                    let alpha = second_verifier_message.alpha as int;
                    let beta = second_verifier_message.beta as int;
                    let gamma = second_verifier_message.gamma as int;
                    let tv = Seq::new(
                        (4 * n1) as nat,
                        |i: int| round3_t_value_at(second_state, *setup, alpha, beta, gamma, i) as u64,
                    );
                    &&& state.wf()
                    &&& state.required_domain_size == second_state.required_domain_size
                    &&& state.non_residues@ == second_state.non_residues@
                    &&& state.input_values@ == second_state.input_values@
                    &&& state.witness_polys_as_coeffs@ == second_state.witness_polys_as_coeffs@
                    &&& state.z_in_monomial_form == second_state.z_in_monomial_form
                    &&& state.t_poly_parts@.len() == 4
                    &&& forall|k: int, c: int|
                        0 <= k < 4 && 0 <= c < n1 ==> #[trigger] state.t_poly_parts@[k].elems@[
                            c
                        ] as int == icoset_idft_at(tv, d4, k * n1 + c)
                    &&& msg.quotient_poly_commitments@.len() == 4
                    &&& forall|k: int|
                        0 <= k < 4 ==> #[trigger] msg.quotient_poly_commitments@[k] as int
                            == inner_product(state.t_poly_parts@[k].elems@, crs_mons.bases@)
                },
                Err(e) => {
                    ||| e == SynthesisError::NonPowerOfTwoSize
                    ||| e == SynthesisError::DivisionByZero
                },
            },
            res is Ok,
    {
        let alpha = second_verifier_message.alpha;
        let beta = second_verifier_message.beta;
        let gamma = second_verifier_message.gamma;
        let required_domain_size = second_state.required_domain_size;
        let domain = Domain::new_for_size(required_domain_size)?;

        // witness LDEs on the extended coset, plus the next-row shift of D
        let mut wl: Vec<Polynomial> = Vec::new();
        wl.push(second_state.witness_polys_as_coeffs[0].fast_clone().bitreversed_coset_lde()?);
        wl.push(second_state.witness_polys_as_coeffs[1].fast_clone().bitreversed_coset_lde()?);
        wl.push(second_state.witness_polys_as_coeffs[2].fast_clone().bitreversed_coset_lde()?);
        wl.push(second_state.witness_polys_as_coeffs[3].fast_clone().bitreversed_coset_lde()?);
        let mut d_next = second_state.witness_polys_as_coeffs[3].fast_clone();
        d_next.distribute_powers(domain.omega);
        proof {
            assert(d_next.elems@ =~= shifted_coeffs(
                second_state.witness_polys_as_coeffs@[3].elems@,
                domain.omega as int,
            ));
        }
        let witness_next_lde = d_next.bitreversed_coset_lde()?;

        // the grand product LDE and its next-row shift, formally z(X * omega)
        let z_coset_lde = second_state.z_in_monomial_form.fast_clone().bitreversed_coset_lde()?;
        let mut z_shifted_in_monomial_form = second_state.z_in_monomial_form.fast_clone();
        z_shifted_in_monomial_form.distribute_powers(domain.omega);
        proof {
            assert(z_shifted_in_monomial_form.elems@ =~= shifted_coeffs(
                second_state.z_in_monomial_form.elems@,
                domain.omega as int,
            ));
        }
        let z_shifted_coset_lde = z_shifted_in_monomial_form.bitreversed_coset_lde()?;

        // the four parts of the quotient numerator
        let mut t_1 = round3_gate_lde(&second_state, setup, setup_precomputations, &wl, &witness_next_lde)?;
        let contrib_z = round3_copy_num_lde(
            &second_state,
            setup,
            setup_precomputations,
            &wl,
            &z_coset_lde,
            beta,
            gamma,
        )?;
        t_1.add_assign_scaled(&contrib_z, alpha);
        let contrib_z2 = round3_copy_den_lde(
            &second_state,
            setup,
            setup_precomputations,
            &wl,
            z_shifted_coset_lde,
            beta,
            gamma,
        )?;
        t_1.sub_assign_scaled(&contrib_z2, alpha);
        let quotient_linearization_challenge_squared = mul_fr(alpha, alpha);
        let l0_term = round3_l0_term_lde(&second_state, &z_coset_lde)?;
        t_1.add_assign_scaled(&l0_term, quotient_linearization_challenge_squared);

        // divide pointwise by the vanishing polynomial on the coset
        let divisor_inversed = get_precomputed_inverse_divisor(
            required_domain_size,
            setup_precomputations,
            setup,
        )?;
        t_1.mul_assign(divisor_inversed.as_ref());

        proof {
            let n1 = required_domain_size as int;
            let d4 = domain_for_size(4 * n1);
            let alpha_i = alpha as int;
            let beta_i = beta as int;
            let gamma_i = gamma as int;
            assert forall|j: int| 0 <= j < 4 * n1 implies #[trigger] t_1.elems@[j] as int
                == round3_t_value_at(
                second_state,
                *setup,
                alpha_i,
                beta_i,
                gamma_i,
                lde_source(j, n1),
            ) by {
                crate::polynomial::lemma_lde_source_range(j, n1);
                let s = lde_source(j, n1);
                let vanish = fsub(pow_fr(coset_point(d4, s), n1 as nat), 1);
                let inv_j = divisor_inversed.poly().elems@[j] as int;
                assert(fmul(inv_j, vanish) == 1);
                assert(inv_j * vanish == vanish * inv_j) by (nonlinear_arith);
                assert(fmul(vanish, inv_j) == 1);
                assert(crate::field::has_inverse(vanish));
                let fv = finv(vanish);
                assert(0 <= fv < crate::field::MODULUS && fmul(vanish, fv) == 1);
                crate::field::lemma_inverse_unique(vanish, inv_j, fv);
            }
        }

        let t_natural = t_1.unshuffle_lde_enumeration(required_domain_size);

        proof {
            let n1 = required_domain_size as int;
            let alpha_i = alpha as int;
            let beta_i = beta as int;
            let gamma_i = gamma as int;
            let tv = Seq::new(
                (4 * n1) as nat,
                |i: int| round3_t_value_at(second_state, *setup, alpha_i, beta_i, gamma_i, i) as u64,
            );
            assert forall|i: int| 0 <= i < 4 * n1 implies #[trigger] t_natural.elems@[i]
                == tv[i] by {
                crate::polynomial::lemma_lde_maps(i, n1);
            }
            assert(t_natural.elems@ =~= tv);
        }

        let t_poly_in_monomial_form = t_natural.icoset_fft_for_generator();
        let t_poly_parts = t_poly_in_monomial_form.break_into_multiples(required_domain_size)?;

        proof {
            let n1 = required_domain_size as int;
            let d4 = domain_for_size(4 * n1);
            let alpha_i = alpha as int;
            let beta_i = beta as int;
            let gamma_i = gamma as int;
            let tv = Seq::new(
                (4 * n1) as nat,
                |i: int| round3_t_value_at(second_state, *setup, alpha_i, beta_i, gamma_i, i) as u64,
            );
            let p = t_poly_parts@.len() as int;
            assert(p == 4) by (nonlinear_arith)
                requires
                    p * n1 >= 4 * n1,
                    (p - 1) * n1 < 4 * n1,
                    n1 >= 1,
                    p >= 1,
            ;
            assert forall|k: int, c: int| 0 <= k < 4 && 0 <= c < n1 implies #[trigger] t_poly_parts@[
                k
            ].elems@[c] as int == icoset_idft_at(tv, d4, k * n1 + c) by {
                assert(0 <= k * n1 + c && k * n1 + c < 4 * n1) by (nonlinear_arith)
                    requires
                        0 <= k < 4,
                        0 <= c < n1,
                ;
                assert(t_poly_parts@[k].elems@[c] == (if k * n1 + c
                    < t_poly_in_monomial_form.elems@.len() {
                    t_poly_in_monomial_form.elems@[k * n1 + c]
                } else {
                    0u64
                }));
                assert(t_poly_in_monomial_form.elems@[k * n1 + c] as int == icoset_idft_at(
                    t_natural.elems@,
                    t_natural.domain,
                    k * n1 + c,
                ));
            }
        }

        let mut quotient_poly_commitments: Vec<u64> = Vec::new();
        let mut k: usize = 0;
        while k < 4
            invariant
                crs_mons.wf(),
                crs_mons.bases@.len() >= required_domain_size,
                t_poly_parts@.len() == 4,
                forall|t: int|
                    0 <= t < 4 ==> {
                        &&& (#[trigger] t_poly_parts@[t]).wf()
                        &&& t_poly_parts@[t].is_coeffs()
                        &&& t_poly_parts@[t].elems@.len() == required_domain_size
                    },
                k <= 4,
                quotient_poly_commitments@.len() == k,
                forall|t: int|
                    0 <= t < k ==> #[trigger] quotient_poly_commitments@[t] as int
                        == inner_product(t_poly_parts@[t].elems@, crs_mons.bases@),
            decreases 4 - k,
        {
            let c = commit_using_monomials(&t_poly_parts[k], crs_mons);
            quotient_poly_commitments.push(c);
            k = k + 1;
        }

        let state = ThirdPartialProverState {
            required_domain_size,
            non_residues: second_state.non_residues,
            input_values: second_state.input_values,
            witness_polys_as_coeffs: second_state.witness_polys_as_coeffs,
            z_in_monomial_form: second_state.z_in_monomial_form,
            t_poly_parts,
        };
        let message = ThirdProverMessage { quotient_poly_commitments };
        Ok((state, message))
    }
}

impl ThirdPartialProverState {
    /// What round four may assume of a round-three state.
    pub open spec fn wf(&self) -> bool {
        let n1 = self.required_domain_size as int;
        &&& 2 <= n1 <= MAX_DOMAIN_SIZE
        &&& is_pow2(n1)
        &&& wf_non_residues(self.non_residues@)
        &&& all_fr(self.input_values@)
        &&& self.input_values@.len() < n1
        &&& self.witness_polys_as_coeffs@.len() == 4
        &&& forall|i: int|
            0 <= i < 4 ==> {
                &&& (#[trigger] self.witness_polys_as_coeffs@[i]).wf()
                &&& self.witness_polys_as_coeffs@[i].is_coeffs()
                &&& self.witness_polys_as_coeffs@[i].padded()
                &&& self.witness_polys_as_coeffs@[i].domain == domain_for_size(n1)
            }
        &&& self.z_in_monomial_form.wf()
        &&& self.z_in_monomial_form.is_coeffs()
        &&& self.z_in_monomial_form.padded()
        &&& self.z_in_monomial_form.domain == domain_for_size(n1)
        &&& self.t_poly_parts@.len() == 4
        &&& forall|i: int|
            0 <= i < 4 ==> {
                &&& (#[trigger] self.t_poly_parts@[i]).wf()
                &&& self.t_poly_parts@[i].is_coeffs()
                &&& self.t_poly_parts@[i].padded()
                &&& self.t_poly_parts@[i].domain == domain_for_size(n1)
            }
    }
}

/// Left fold of the quotient-chunk evaluations: each chunk's value at `zz`
/// weighted by the running power of `zn`, added to the accumulator.
pub open spec fn chunks_eval_fold(
    parts: Seq<Polynomial>,
    zz: int,
    zn: int,
    acc: int,
    cur: int,
    k: int,
) -> int
    decreases parts.len() - k,
{
    if k < 0 || k >= parts.len() {
        acc
    } else {
        chunks_eval_fold(
            parts,
            zz,
            zn,
            fadd(acc, fmul(eval_poly(parts[k].elems@, zz), cur)),
            fmul(cur, zn),
            k + 1,
        )
    }
}

/// The quotient polynomial's value at `zz`, recombined from its chunks by
/// powers of `zn`.
pub open spec fn round4_t_at_z(parts: Seq<Polynomial>, zz: int, zn: int) -> int {
    chunks_eval_fold(parts, zz, zn, 0, 1, 0)
}

/// The factor multiplying the grand product inside the linearization
/// polynomial: `alpha` times the product of the identity-side terms at `z`.
pub open spec fn round4_perm_factor(
    wires_at_z: Seq<u64>,
    nr: Seq<u64>,
    alpha: int,
    beta: int,
    gamma: int,
    z: int,
) -> int {
    let t0 = fadd(fadd(fmul(fmul(z, 1), beta), wires_at_z[0] as int), gamma);
    let t1 = fadd(fadd(fmul(fmul(z, nr[0] as int), beta), wires_at_z[1] as int), gamma);
    let t2 = fadd(fadd(fmul(fmul(z, nr[1] as int), beta), wires_at_z[2] as int), gamma);
    let t3 = fadd(fadd(fmul(fmul(z, nr[2] as int), beta), wires_at_z[3] as int), gamma);
    fmul(fmul(fmul(fmul(alpha, t0), t1), t2), t3)
}

/// The factor multiplying the last permutation polynomial inside the
/// linearization polynomial: `alpha * beta * z(z*omega)` times the
/// permutation-side terms at `z` for the first three wires.
pub open spec fn round4_perm_last_factor(
    wires_at_z: Seq<u64>,
    perms_at_z: Seq<u64>,
    z_at_z_omega: int,
    alpha: int,
    beta: int,
    gamma: int,
) -> int {
    let t0 = fadd(fadd(fmul(perms_at_z[0] as int, beta), wires_at_z[0] as int), gamma);
    let t1 = fadd(fadd(fmul(perms_at_z[1] as int, beta), wires_at_z[1] as int), gamma);
    let t2 = fadd(fadd(fmul(perms_at_z[2] as int, beta), wires_at_z[2] as int), gamma);
    fmul(fmul(fmul(fmul(fmul(alpha, beta), z_at_z_omega), t0), t1), t2)
}

/// The value of the first Lagrange basis polynomial of the size-`n1`
/// domain at `z`, stated through field inverses.
pub open spec fn l0_value_at(n1: int, z: int) -> int {
    fmul(fsub(pow_fr(z, n1 as nat), 1), fmul(finv(n1), finv(fsub(z, 1))))
}

/// The value of the `idx`-th Lagrange basis polynomial of `dom` at `z`,
/// stated through field inverses.
pub open spec fn lagrange_value_at(dom: Domain, idx: int, z: int) -> int {
    fmul(
        fmul(pow_fr(dom.omega as int, idx as nat), fsub(pow_fr(z, dom.size as nat), 1)),
        fmul(finv(dom.size as int), finv(fsub(z, pow_fr(dom.omega as int, idx as nat)))),
    )
}

/// The `t`-th coefficient of the linearization polynomial: the
/// combination of the setup polynomials, the grand product and the last
/// permutation polynomial, weighted by the already-evaluated scalars.
#[verifier::opaque]
pub open spec fn round4_lin_at(
    setup: SetupPolynomials,
    z_poly: Seq<u64>,
    wires_at_z: Seq<u64>,
    d_at_z_omega: int,
    perm_factor: int,
    perm_last_factor: int,
    l0_factor: int,
    t: int,
) -> int {
    let s = setup.selector_polynomials;
    let b0 = s@[5].elems@[t] as int;
    let b1 = fadd(b0, fmul(wires_at_z[0] as int, s@[0].elems@[t] as int));
    let b2 = fadd(b1, fmul(wires_at_z[1] as int, s@[1].elems@[t] as int));
    let b3 = fadd(b2, fmul(wires_at_z[2] as int, s@[2].elems@[t] as int));
    let b4 = fadd(b3, fmul(wires_at_z[3] as int, s@[3].elems@[t] as int));
    let b5 = fadd(
        b4,
        fmul(fmul(wires_at_z[0] as int, wires_at_z[1] as int), s@[4].elems@[t] as int),
    );
    let b6 = fadd(b5, fmul(d_at_z_omega, setup.next_step_selector_polynomials@[0].elems@[t] as int));
    let b7 = fadd(b6, fmul(perm_factor, z_poly[t] as int));
    let b8 = fsub(b7, fmul(perm_last_factor, setup.permutation_polynomials@[3].elems@[t] as int));
    fadd(b8, fmul(l0_factor, z_poly[t] as int))
}

/// Left fold adding each public input weighted by its Lagrange value at
/// `z` to the accumulator.
pub open spec fn rhs_inputs_fold(inputs: Seq<u64>, dom: Domain, z: int, acc: int, idx: int) -> int
    decreases inputs.len() - idx,
{
    if idx < 0 || idx >= inputs.len() {
        acc
    } else {
        rhs_inputs_fold(
            inputs,
            dom,
            z,
            fadd(acc, fmul(lagrange_value_at(dom, idx, z), inputs[idx] as int)),
            idx + 1,
        )
    }
}

/// The left side of the round-four scalar identity: the recombined
/// quotient value times the vanishing polynomial at `z`.
pub open spec fn round4_lhs(t_at_z: int, n1: int, z: int) -> int {
    fmul(t_at_z, fsub(pow_fr(z, n1 as nat), 1))
}

/// The right side of the round-four scalar identity: the linearization
/// value plus the public-input contribution, minus the permutation term
/// and the `alpha^2`-weighted first-Lagrange term.
pub open spec fn round4_rhs(
    r_at_z: int,
    inputs: Seq<u64>,
    dom: Domain,
    wires_at_z: Seq<u64>,
    perms_at_z: Seq<u64>,
    z_at_z_omega: int,
    alpha: int,
    beta: int,
    gamma: int,
    z: int,
) -> int {
    let with_inputs = rhs_inputs_fold(inputs, dom, z, r_at_z, 0);
    let t0 = fadd(fadd(fmul(perms_at_z[0] as int, beta), gamma), wires_at_z[0] as int);
    let t1 = fadd(fadd(fmul(perms_at_z[1] as int, beta), gamma), wires_at_z[1] as int);
    let t2 = fadd(fadd(fmul(perms_at_z[2] as int, beta), gamma), wires_at_z[2] as int);
    let z_part = fmul(
        fmul(fmul(fmul(fmul(z_at_z_omega, t0), t1), t2), fadd(gamma, wires_at_z[3] as int)),
        alpha,
    );
    let after_perm = fsub(with_inputs, z_part);
    fsub(after_perm, fmul(l0_value_at(dom.size as int, z), fmul(alpha, alpha)))
}

/// Whether the round-four scalar identity holds for the given state and
/// challenges: the recombined quotient value times the vanishing value
/// equals the linearization value plus the public-input contribution,
/// minus the permutation and first-Lagrange terms.
pub open spec fn round4_identity(
    ts: ThirdPartialProverState,
    setup: SetupPolynomials,
    alpha: int,
    beta: int,
    gamma: int,
    z: int,
) -> bool {
    let n1 = ts.required_domain_size as int;
    let dom = domain_for_size(n1);
    let z_omega = fmul(z, dom.omega as int);
    let wires = Seq::new(4, |k: int| eval_poly(ts.witness_polys_as_coeffs@[k].elems@, z) as u64);
    let perms = Seq::new(
        3,
        |k: int| eval_poly(setup.permutation_polynomials@[k].elems@, z) as u64,
    );
    let d_omega = eval_poly(ts.witness_polys_as_coeffs@[3].elems@, z_omega);
    let z_at_z_omega = eval_poly(ts.z_in_monomial_form.elems@, z_omega);
    let t_at_z = round4_t_at_z(ts.t_poly_parts@, z, pow_fr(z, n1 as nat));
    let lin = Seq::new(
        n1 as nat,
        |t: int| round4_lin_at(
            setup,
            ts.z_in_monomial_form.elems@,
            wires,
            d_omega,
            round4_perm_factor(wires, ts.non_residues@, alpha, beta, gamma, z),
            round4_perm_last_factor(wires, perms, z_at_z_omega, alpha, beta, gamma),
            fmul(l0_value_at(n1, z), fmul(alpha, alpha)),
            t,
        ) as u64,
    );
    let r_at_z = eval_poly(lin, z);
    round4_lhs(t_at_z, n1, z) == round4_rhs(
        r_at_z,
        ts.input_values@,
        dom,
        wires,
        perms,
        z_at_z_omega,
        alpha,
        beta,
        gamma,
        z,
    )
}

/// Whether `z` hits a point where a Lagrange denominator vanishes: one, or
/// a domain element carrying a public input.
#[verifier::opaque]
pub open spec fn round4_blocked_point(ts: ThirdPartialProverState, z: int) -> bool {
    let dom = domain_for_size(ts.required_domain_size as int);
    ||| z == 1
    ||| exists|idx: int|
        0 <= idx < ts.input_values@.len() && z == #[trigger] pow_fr(dom.omega as int, idx as nat)
}

impl ProverAssembly4WithNextStep {
    /// Round four: evaluate every opened polynomial at `z` (and at
    /// `z*omega` where the next-row wiring demands it), build the
    /// linearization polynomial, and re-check the quotient identity from
    /// scalars alone. A mismatch aborts the run with an unsatisfiable
    /// constraint system error and is never swallowed.
    #[verifier::rlimit(100)]
    pub fn fourth_step_from_third_step(
        third_state: ThirdPartialProverState,
        third_verifier_message: ThirdVerifierMessage,
        setup: &SetupPolynomials,
    ) -> (res: Result<(FourthPartialProverState, FourthProverMessage), SynthesisError>)
        requires
            third_state.wf(),
            setup.wf(),
            setup.domain().size == third_state.required_domain_size,
            is_fr(third_verifier_message.alpha),
            is_fr(third_verifier_message.beta),
            is_fr(third_verifier_message.gamma),
            is_fr(third_verifier_message.z),
        ensures
            match res {
                Ok(r) => {
                    let (state, msg) = r;
                    let n1 = third_state.required_domain_size as int;
                    let dom = domain_for_size(n1);
                    let alpha = third_verifier_message.alpha as int;
                    let beta = third_verifier_message.beta as int;
                    let gamma = third_verifier_message.gamma as int;
                    let z = third_verifier_message.z as int;
                    let z_omega = fmul(z, dom.omega as int);
                    &&& msg.wire_values_at_z@.len() == 4
                    &&& forall|k: int|
                        0 <= k < 4 ==> #[trigger] msg.wire_values_at_z@[k] as int == eval_poly(
                            third_state.witness_polys_as_coeffs@[k].elems@,
                            z,
                        )
                    &&& msg.wire_values_at_z_omega@.len() == 1
                    &&& msg.wire_values_at_z_omega@[0] as int == eval_poly(
                        third_state.witness_polys_as_coeffs@[3].elems@,
                        z_omega,
                    )
                    &&& msg.permutation_polynomials_at_z@.len() == 3
                    &&& forall|k: int|
                        0 <= k < 3 ==> #[trigger] msg.permutation_polynomials_at_z@[k] as int
                            == eval_poly(setup.permutation_polynomials@[k].elems@, z)
                    &&& msg.grand_product_at_z_omega as int == eval_poly(
                        third_state.z_in_monomial_form.elems@,
                        z_omega,
                    )
                    &&& msg.quotient_polynomial_at_z as int == round4_t_at_z(
                        third_state.t_poly_parts@,
                        z,
                        pow_fr(z, n1 as nat),
                    )
                    &&& state.linearization_polynomial.wf()
                    &&& state.linearization_polynomial.is_coeffs()
                    &&& state.linearization_polynomial.padded()
                    &&& state.linearization_polynomial.domain == dom
                    &&& forall|t: int|
                        0 <= t < n1
                            ==> #[trigger] state.linearization_polynomial.elems@[t] as int
                            == round4_lin_at(
                            *setup,
                            third_state.z_in_monomial_form.elems@,
                            msg.wire_values_at_z@,
                            msg.wire_values_at_z_omega@[0] as int,
                            round4_perm_factor(
                                msg.wire_values_at_z@,
                                third_state.non_residues@,
                                alpha,
                                beta,
                                gamma,
                                z,
                            ),
                            round4_perm_last_factor(
                                msg.wire_values_at_z@,
                                msg.permutation_polynomials_at_z@,
                                msg.grand_product_at_z_omega as int,
                                alpha,
                                beta,
                                gamma,
                            ),
                            fmul(l0_value_at(n1, z), fmul(alpha, alpha)),
                            t,
                        )
                    &&& msg.linearization_polynomial_at_z as int == eval_poly(
                        state.linearization_polynomial.elems@,
                        z,
                    )
                    &&& round4_lhs(msg.quotient_polynomial_at_z as int, n1, z) == round4_rhs(
                        msg.linearization_polynomial_at_z as int,
                        third_state.input_values@,
                        dom,
                        msg.wire_values_at_z@,
                        msg.permutation_polynomials_at_z@,
                        msg.grand_product_at_z_omega as int,
                        alpha,
                        beta,
                        gamma,
                        z,
                    )
                    &&& state.wire_values_at_z@ == msg.wire_values_at_z@
                    &&& state.wire_values_at_z_omega@ == msg.wire_values_at_z_omega@
                    &&& state.permutation_polynomials_at_z@ == msg.permutation_polynomials_at_z@
                    &&& state.grand_product_at_z_omega == msg.grand_product_at_z_omega
                    &&& state.quotient_polynomial_at_z == msg.quotient_polynomial_at_z
                    &&& state.linearization_polynomial_at_z == msg.linearization_polynomial_at_z
                    &&& state.required_domain_size == third_state.required_domain_size
                    &&& state.non_residues@ == third_state.non_residues@
                    &&& state.input_values@ == third_state.input_values@
                    &&& state.witness_polys_as_coeffs@ == third_state.witness_polys_as_coeffs@
                    &&& state.z_in_monomial_form == third_state.z_in_monomial_form
                    &&& state.t_poly_parts@ == third_state.t_poly_parts@
                },
                Err(e) => {
                    ||| e == SynthesisError::Unsatisfiable
                    ||| e == SynthesisError::DivisionByZero
                },
            },
            res matches Err(e) && e == SynthesisError::DivisionByZero <==> round4_blocked_point(
                third_state,
                third_verifier_message.z as int,
            ),
            res matches Err(e) && e == SynthesisError::Unsatisfiable <==> (!round4_blocked_point(
                third_state,
                third_verifier_message.z as int,
            ) && !round4_identity(
                third_state,
                *setup,
                third_verifier_message.alpha as int,
                third_verifier_message.beta as int,
                third_verifier_message.gamma as int,
                third_verifier_message.z as int,
            )),
            res is Ok <==> (!round4_blocked_point(third_state, third_verifier_message.z as int)
                && round4_identity(
                third_state,
                *setup,
                third_verifier_message.alpha as int,
                third_verifier_message.beta as int,
                third_verifier_message.gamma as int,
                third_verifier_message.z as int,
            )),
    {
        let alpha = third_verifier_message.alpha;
        let beta = third_verifier_message.beta;
        let gamma = third_verifier_message.gamma;
        let z = third_verifier_message.z;
        let required_domain_size = third_state.required_domain_size;
        let domain = Domain::new_for_size(required_domain_size)?;
        let z_by_omega = mul_fr(z, domain.omega);

        // evaluations of the four witness polynomials, D also at z*omega
        let mut wire_values_at_z: Vec<u64> = Vec::new();
        let mut k: usize = 0;
        while k < 4
            invariant
                third_state.wf(),
                is_fr(z),
                k <= 4,
                wire_values_at_z@.len() == k,
                all_fr(wire_values_at_z@),
                forall|t: int|
                    0 <= t < k ==> #[trigger] wire_values_at_z@[t] as int == eval_poly(
                        third_state.witness_polys_as_coeffs@[t].elems@,
                        z as int,
                    ),
            decreases 4 - k,
        {
            let v = third_state.witness_polys_as_coeffs[k].evaluate_at(z);
            wire_values_at_z.push(v);
            k = k + 1;
        }
        let mut wire_values_at_z_omega: Vec<u64> = Vec::new();
        wire_values_at_z_omega.push(third_state.witness_polys_as_coeffs[3].evaluate_at(z_by_omega));

        // the first three permutation polynomials at z
        let mut permutation_polynomials_at_z: Vec<u64> = Vec::new();
        let mut k: usize = 0;
        while k < 3
            invariant
                setup.wf(),
                is_fr(z),
                k <= 3,
                permutation_polynomials_at_z@.len() == k,
                all_fr(permutation_polynomials_at_z@),
                forall|t: int|
                    0 <= t < k ==> #[trigger] permutation_polynomials_at_z@[t] as int == eval_poly(
                        setup.permutation_polynomials@[t].elems@,
                        z as int,
                    ),
            decreases 3 - k,
        {
            let v = setup.permutation_polynomials[k].evaluate_at(z);
            permutation_polynomials_at_z.push(v);
            k = k + 1;
        }

        let z_at_z_omega = third_state.z_in_monomial_form.evaluate_at(z_by_omega);

        // recombine the quotient chunks with powers of z^n
        let z_in_domain_size = pow_mod(z, required_domain_size as u64);
        let mut t_at_z: u64 = 0;
        let mut current: u64 = 1;
        let mut k: usize = 0;
        while k < 4
            invariant
                third_state.wf(),
                is_fr(z),
                is_fr(z_in_domain_size),
                z_in_domain_size as int == pow_fr(
                    z as int,
                    third_state.required_domain_size as nat,
                ),
                k <= 4,
                is_fr(t_at_z),
                is_fr(current),
                chunks_eval_fold(
                    third_state.t_poly_parts@,
                    z as int,
                    z_in_domain_size as int,
                    t_at_z as int,
                    current as int,
                    k as int,
                ) == round4_t_at_z(
                    third_state.t_poly_parts@,
                    z as int,
                    pow_fr(z as int, third_state.required_domain_size as nat),
                ),
            decreases 4 - k,
        {
            let sub_value = mul_fr(third_state.t_poly_parts[k].evaluate_at(z), current);
            t_at_z = add_fr(t_at_z, sub_value);
            current = mul_fr(current, z_in_domain_size);
            k = k + 1;
        }

        // linearization polynomial
        let perm_factor = {
            let mut factor = alpha;
            let t0 = add_fr(add_fr(mul_fr(mul_fr(z, 1), beta), wire_values_at_z[0]), gamma);
            factor = mul_fr(factor, t0);
            let t1 = add_fr(
                add_fr(mul_fr(mul_fr(z, third_state.non_residues[0]), beta), wire_values_at_z[1]),
                gamma,
            );
            factor = mul_fr(factor, t1);
            let t2 = add_fr(
                add_fr(mul_fr(mul_fr(z, third_state.non_residues[1]), beta), wire_values_at_z[2]),
                gamma,
            );
            factor = mul_fr(factor, t2);
            let t3 = add_fr(
                add_fr(mul_fr(mul_fr(z, third_state.non_residues[2]), beta), wire_values_at_z[3]),
                gamma,
            );
            factor = mul_fr(factor, t3);
            factor
        };
        let perm_last_factor = {
            let mut factor = mul_fr(mul_fr(alpha, beta), z_at_z_omega);
            let t0 = add_fr(
                add_fr(mul_fr(permutation_polynomials_at_z[0], beta), wire_values_at_z[0]),
                gamma,
            );
            factor = mul_fr(factor, t0);
            let t1 = add_fr(
                add_fr(mul_fr(permutation_polynomials_at_z[1], beta), wire_values_at_z[1]),
                gamma,
            );
            factor = mul_fr(factor, t1);
            let t2 = add_fr(
                add_fr(mul_fr(permutation_polynomials_at_z[2], beta), wire_values_at_z[2]),
                gamma,
            );
            factor = mul_fr(factor, t2);
            factor
        };
        let l0_at_z = match evaluate_l0_at_point(required_domain_size as u64, z) {
            Ok(v) => v,
            Err(e) => {
                proof {
                    reveal(round4_blocked_point);
                    assert(round4_blocked_point(third_state, z as int));
                }
                return Err(e);
            },
        };
        let l0_factor = mul_fr(l0_at_z, mul_fr(alpha, alpha));

        let mut r = setup.selector_polynomials[5].fast_clone();
        r.add_assign_scaled(&setup.selector_polynomials[0], wire_values_at_z[0]);
        r.add_assign_scaled(&setup.selector_polynomials[1], wire_values_at_z[1]);
        r.add_assign_scaled(&setup.selector_polynomials[2], wire_values_at_z[2]);
        r.add_assign_scaled(&setup.selector_polynomials[3], wire_values_at_z[3]);
        let scaling_factor = mul_fr(wire_values_at_z[0], wire_values_at_z[1]);
        r.add_assign_scaled(&setup.selector_polynomials[4], scaling_factor);
        r.add_assign_scaled(&setup.next_step_selector_polynomials[0], wire_values_at_z_omega[0]);
        r.add_assign_scaled(&third_state.z_in_monomial_form, perm_factor);
        r.sub_assign_scaled(&setup.permutation_polynomials[3], perm_last_factor);
        r.add_assign_scaled(&third_state.z_in_monomial_form, l0_factor);

        proof {
            let n1 = required_domain_size as int;
            assert forall|t: int| 0 <= t < n1 implies #[trigger] r.elems@[t] as int
                == round4_lin_at(
                *setup,
                third_state.z_in_monomial_form.elems@,
                wire_values_at_z@,
                wire_values_at_z_omega@[0] as int,
                perm_factor as int,
                perm_last_factor as int,
                l0_factor as int,
                t,
            ) by {
                reveal(round4_lin_at);
            }
        }

        let r_at_z = r.evaluate_at(z);

        // self-check: reconstruct both sides of the quotient identity from
        // scalars alone
        let lhs = {
            let vanishing_at_z = crate::domain::evaluate_vanishing_for_size(
                z,
                required_domain_size as u64,
            );
            mul_fr(t_at_z, vanishing_at_z)
        };
        let mut rhs = r_at_z;
        let mut idx: usize = 0;
        let ghost dom = domain_for_size(required_domain_size as int);
        while idx < third_state.input_values.len()
            invariant
                third_state.wf(),
                is_fr(z),
                is_fr(rhs),
                domain.wf(),
                domain == dom,
                dom == domain_for_size(third_state.required_domain_size as int),
                domain.size == third_state.required_domain_size,
                idx <= third_state.input_values@.len(),
                third_state.input_values@.len() < third_state.required_domain_size,
                z == third_verifier_message.z,
                z as int != 1,
                forall|idx2: int|
                    0 <= idx2 < idx ==> z as int != #[trigger] pow_fr(dom.omega as int, idx2 as nat),
                rhs_inputs_fold(
                    third_state.input_values@,
                    dom,
                    z as int,
                    rhs as int,
                    idx as int,
                ) == rhs_inputs_fold(
                    third_state.input_values@,
                    dom,
                    z as int,
                    r_at_z as int,
                    0,
                ),
            decreases third_state.input_values@.len() - idx,
        {
            let li = match evaluate_lagrange_poly_at_point(idx, &domain, z) {
                Ok(v) => v,
                Err(e) => {
                    proof {
                        assert(round4_blocked_point(third_state, z as int)) by {
                            reveal(round4_blocked_point);
                            assert(z as int == pow_fr(dom.omega as int, idx as nat));
                        }
                    }
                    return Err(e);
                },
            };
            let tmp = mul_fr(li, third_state.input_values[idx]);
            rhs = add_fr(rhs, tmp);
            idx = idx + 1;
        }

        let mut z_part = z_at_z_omega;
        let u0 = add_fr(add_fr(mul_fr(permutation_polynomials_at_z[0], beta), gamma), wire_values_at_z[0]);
        z_part = mul_fr(z_part, u0);
        let u1 = add_fr(add_fr(mul_fr(permutation_polynomials_at_z[1], beta), gamma), wire_values_at_z[1]);
        z_part = mul_fr(z_part, u1);
        let u2 = add_fr(add_fr(mul_fr(permutation_polynomials_at_z[2], beta), gamma), wire_values_at_z[2]);
        z_part = mul_fr(z_part, u2);
        z_part = mul_fr(z_part, add_fr(gamma, wire_values_at_z[3]));
        z_part = mul_fr(z_part, alpha);
        rhs = sub_fr(rhs, z_part);
        rhs = sub_fr(rhs, mul_fr(l0_at_z, mul_fr(alpha, alpha)));

        proof {
            let n1 = required_domain_size as int;
            let zi = z as int;
            let ai = alpha as int;
            let bi = beta as int;
            let gi = gamma as int;
            assert(!round4_blocked_point(third_state, zi)) by {
                reveal(round4_blocked_point);
            }
            let z_omega_i = fmul(zi, dom.omega as int);
            let wires = Seq::new(
                4,
                |k: int| eval_poly(third_state.witness_polys_as_coeffs@[k].elems@, zi) as u64,
            );
            let perms = Seq::new(
                3,
                |k: int| eval_poly(setup.permutation_polynomials@[k].elems@, zi) as u64,
            );
            assert(wire_values_at_z@ =~= wires);
            assert(permutation_polynomials_at_z@ =~= perms);
            let d_omega = eval_poly(third_state.witness_polys_as_coeffs@[3].elems@, z_omega_i);
            assert(wire_values_at_z_omega@[0] as int == d_omega);
            let z_at_z_omega_i = eval_poly(third_state.z_in_monomial_form.elems@, z_omega_i);
            assert(z_at_z_omega as int == z_at_z_omega_i);
            let lin = Seq::new(
                n1 as nat,
                |t: int| round4_lin_at(
                    *setup,
                    third_state.z_in_monomial_form.elems@,
                    wires,
                    d_omega,
                    round4_perm_factor(wires, third_state.non_residues@, ai, bi, gi, zi),
                    round4_perm_last_factor(wires, perms, z_at_z_omega_i, ai, bi, gi),
                    fmul(l0_value_at(n1, zi), fmul(ai, ai)),
                    t,
                ) as u64,
            );
            assert(r.elems@ =~= lin);
            assert(r_at_z as int == eval_poly(lin, zi));
            assert(lhs as int == round4_lhs(t_at_z as int, n1, zi));
            assert(rhs as int == round4_rhs(
                r_at_z as int,
                third_state.input_values@,
                dom,
                wire_values_at_z@,
                permutation_polynomials_at_z@,
                z_at_z_omega as int,
                ai,
                bi,
                gi,
                zi,
            ));
            assert(round4_identity(third_state, *setup, ai, bi, gi, zi) == (lhs == rhs));
        }

        if lhs != rhs {
            return Err(SynthesisError::Unsatisfiable);
        }

        let message = FourthProverMessage {
            wire_values_at_z: clone_scalars(&wire_values_at_z),
            wire_values_at_z_omega: clone_scalars(&wire_values_at_z_omega),
            permutation_polynomials_at_z: clone_scalars(&permutation_polynomials_at_z),
            grand_product_at_z_omega: z_at_z_omega,
            quotient_polynomial_at_z: t_at_z,
            linearization_polynomial_at_z: r_at_z,
        };
        let state = FourthPartialProverState {
            required_domain_size,
            non_residues: third_state.non_residues,
            input_values: third_state.input_values,
            witness_polys_as_coeffs: third_state.witness_polys_as_coeffs,
            z_in_monomial_form: third_state.z_in_monomial_form,
            t_poly_parts: third_state.t_poly_parts,
            linearization_polynomial: r,
            wire_values_at_z,
            wire_values_at_z_omega,
            permutation_polynomials_at_z,
            grand_product_at_z_omega: z_at_z_omega,
            quotient_polynomial_at_z: t_at_z,
            linearization_polynomial_at_z: r_at_z,
        };
        Ok((state, message))
    }
}

impl FourthPartialProverState {
    /// What round five may assume of a round-four state.
    pub open spec fn wf(&self) -> bool {
        let n1 = self.required_domain_size as int;
        &&& 2 <= n1 <= MAX_DOMAIN_SIZE
        &&& is_pow2(n1)
        &&& self.witness_polys_as_coeffs@.len() == 4
        &&& forall|i: int|
            0 <= i < 4 ==> {
                &&& (#[trigger] self.witness_polys_as_coeffs@[i]).wf()
                &&& self.witness_polys_as_coeffs@[i].is_coeffs()
                &&& self.witness_polys_as_coeffs@[i].padded()
                &&& self.witness_polys_as_coeffs@[i].domain == domain_for_size(n1)
            }
        &&& self.z_in_monomial_form.wf()
        &&& self.z_in_monomial_form.is_coeffs()
        &&& self.z_in_monomial_form.padded()
        &&& self.z_in_monomial_form.domain == domain_for_size(n1)
        &&& self.t_poly_parts@.len() == 4
        &&& forall|i: int|
            0 <= i < 4 ==> {
                &&& (#[trigger] self.t_poly_parts@[i]).wf()
                &&& self.t_poly_parts@[i].is_coeffs()
                &&& self.t_poly_parts@[i].padded()
                &&& self.t_poly_parts@[i].domain == domain_for_size(n1)
            }
        &&& self.linearization_polynomial.wf()
        &&& self.linearization_polynomial.is_coeffs()
        &&& self.linearization_polynomial.padded()
        &&& self.linearization_polynomial.domain == domain_for_size(n1)
    }
}

/// The `t`-th coefficient of the aggregate opened at `z`: the recombined
/// quotient chunks, then the linearization polynomial, the four witness
/// polynomials and the first three permutation polynomials, each weighted
/// by the next power of the multiopening challenge `v`.
#[verifier::opaque]
pub open spec fn round5_agg_z_at(
    fs: FourthPartialProverState,
    setup: SetupPolynomials,
    zn: int,
    v: int,
    t: int,
) -> int {
    let p2 = fmul(zn, zn);
    let p3 = fmul(p2, zn);
    let m1 = v;
    let m2 = fmul(m1, v);
    let m3 = fmul(m2, v);
    let m4 = fmul(m3, v);
    let m5 = fmul(m4, v);
    let m6 = fmul(m5, v);
    let m7 = fmul(m6, v);
    let m8 = fmul(m7, v);
    let b0 = fs.t_poly_parts@[0].elems@[t] as int;
    let b1 = fadd(b0, fmul(zn, fs.t_poly_parts@[1].elems@[t] as int));
    let b2 = fadd(b1, fmul(p2, fs.t_poly_parts@[2].elems@[t] as int));
    let b3 = fadd(b2, fmul(p3, fs.t_poly_parts@[3].elems@[t] as int));
    let b4 = fadd(b3, fmul(m1, fs.linearization_polynomial.elems@[t] as int));
    let b5 = fadd(b4, fmul(m2, fs.witness_polys_as_coeffs@[0].elems@[t] as int));
    let b6 = fadd(b5, fmul(m3, fs.witness_polys_as_coeffs@[1].elems@[t] as int));
    let b7 = fadd(b6, fmul(m4, fs.witness_polys_as_coeffs@[2].elems@[t] as int));
    let b8 = fadd(b7, fmul(m5, fs.witness_polys_as_coeffs@[3].elems@[t] as int));
    let b9 = fadd(b8, fmul(m6, setup.permutation_polynomials@[0].elems@[t] as int));
    let b10 = fadd(b9, fmul(m7, setup.permutation_polynomials@[1].elems@[t] as int));
    fadd(b10, fmul(m8, setup.permutation_polynomials@[2].elems@[t] as int))
}

/// The `t`-th coefficient of the aggregate opened at `z * omega`: the
/// grand product and the fourth witness polynomial, weighted by the ninth
/// and tenth powers of the multiopening challenge `v`.
#[verifier::opaque]
pub open spec fn round5_agg_z_omega_at(fs: FourthPartialProverState, v: int, t: int) -> int {
    let m1 = v;
    let m2 = fmul(m1, v);
    let m3 = fmul(m2, v);
    let m4 = fmul(m3, v);
    let m5 = fmul(m4, v);
    let m6 = fmul(m5, v);
    let m7 = fmul(m6, v);
    let m8 = fmul(m7, v);
    let m9 = fmul(m8, v);
    let m10 = fmul(m9, v);
    fadd(
        fmul(m9, fs.z_in_monomial_form.elems@[t] as int),
        fmul(m10, fs.witness_polys_as_coeffs@[3].elems@[t] as int),
    )
}

impl ProverAssembly4WithNextStep {
    /// Round five: aggregate everything opened at `z` into one polynomial
    /// and everything opened at `z * omega` into another, using strictly
    /// increasing powers of the single challenge `v`; divide each exactly
    /// by `(X - point)` and commit the two quotients. The two divisions
    /// are independent of each other.
    pub fn fifth_step_from_fourth_step(
        fourth_state: FourthPartialProverState,
        fourth_verifier_message: FourthVerifierMessage,
        setup: &SetupPolynomials,
        crs_mons: &CrsForMonomialForm,
    ) -> (res: Result<FifthProverMessage, SynthesisError>)
        requires
            fourth_state.wf(),
            setup.wf(),
            setup.domain().size == fourth_state.required_domain_size,
            is_fr(fourth_verifier_message.z),
            is_fr(fourth_verifier_message.v),
            crs_mons.wf(),
            crs_mons.bases@.len() >= fourth_state.required_domain_size,
        ensures
            match res {
                Ok(msg) => {
                    let n1 = fourth_state.required_domain_size as int;
                    let dom = domain_for_size(n1);
                    let z = fourth_verifier_message.z as int;
                    let v = fourth_verifier_message.v as int;
                    let zn = pow_fr(z, n1 as nat);
                    let z_omega = fmul(z, dom.omega as int);
                    let agg_z = Seq::new(
                        n1 as nat,
                        |t: int| round5_agg_z_at(fourth_state, *setup, zn, v, t) as u64,
                    );
                    let agg_zw = Seq::new(
                        n1 as nat,
                        |t: int| round5_agg_z_omega_at(fourth_state, v, t) as u64,
                    );
                    let open_z = Seq::new(
                        (n1 - 1) as nat,
                        |i: int| synth_div_coeff(agg_z, z, i) as u64,
                    );
                    let open_zw = Seq::new(
                        (n1 - 1) as nat,
                        |i: int| synth_div_coeff(agg_zw, z_omega, i) as u64,
                    );
                    &&& msg.opening_proof_at_z as int == inner_product(open_z, crs_mons.bases@)
                    &&& msg.opening_proof_at_z_omega as int == inner_product(
                        open_zw,
                        crs_mons.bases@,
                    )
                },
                Err(e) => e == SynthesisError::NonPowerOfTwoSize,
            },
            res is Ok,
    {
        let z = fourth_verifier_message.z;
        let v = fourth_verifier_message.v;
        let required_domain_size = fourth_state.required_domain_size;
        let domain = Domain::new_for_size(required_domain_size)?;
        let z_by_omega = mul_fr(z, domain.omega);
        let z_in_domain_size = pow_mod(z, required_domain_size as u64);

        // aggregate opened at z
        let mut poly_to_divide_at_z = fourth_state.t_poly_parts[0].fast_clone();
        let mut power_of_z = z_in_domain_size;
        poly_to_divide_at_z.add_assign_scaled(&fourth_state.t_poly_parts[1], power_of_z);
        power_of_z = mul_fr(power_of_z, z_in_domain_size);
        poly_to_divide_at_z.add_assign_scaled(&fourth_state.t_poly_parts[2], power_of_z);
        power_of_z = mul_fr(power_of_z, z_in_domain_size);
        poly_to_divide_at_z.add_assign_scaled(&fourth_state.t_poly_parts[3], power_of_z);

        let mut multiopening_challenge = v;
        poly_to_divide_at_z.add_assign_scaled(
            &fourth_state.linearization_polynomial,
            multiopening_challenge,
        );
        multiopening_challenge = mul_fr(multiopening_challenge, v);
        poly_to_divide_at_z.add_assign_scaled(
            &fourth_state.witness_polys_as_coeffs[0],
            multiopening_challenge,
        );
        multiopening_challenge = mul_fr(multiopening_challenge, v);
        poly_to_divide_at_z.add_assign_scaled(
            &fourth_state.witness_polys_as_coeffs[1],
            multiopening_challenge,
        );
        multiopening_challenge = mul_fr(multiopening_challenge, v);
        poly_to_divide_at_z.add_assign_scaled(
            &fourth_state.witness_polys_as_coeffs[2],
            multiopening_challenge,
        );
        multiopening_challenge = mul_fr(multiopening_challenge, v);
        poly_to_divide_at_z.add_assign_scaled(
            &fourth_state.witness_polys_as_coeffs[3],
            multiopening_challenge,
        );
        multiopening_challenge = mul_fr(multiopening_challenge, v);
        poly_to_divide_at_z.add_assign_scaled(
            &setup.permutation_polynomials[0],
            multiopening_challenge,
        );
        multiopening_challenge = mul_fr(multiopening_challenge, v);
        poly_to_divide_at_z.add_assign_scaled(
            &setup.permutation_polynomials[1],
            multiopening_challenge,
        );
        multiopening_challenge = mul_fr(multiopening_challenge, v);
        poly_to_divide_at_z.add_assign_scaled(
            &setup.permutation_polynomials[2],
            multiopening_challenge,
        );

        // aggregate opened at z * omega: the grand product, and the D wire
        // because of the next-row selector
        multiopening_challenge = mul_fr(multiopening_challenge, v);
        let mut poly_to_divide_at_z_omega = fourth_state.z_in_monomial_form.fast_clone();
        poly_to_divide_at_z_omega.scale(multiopening_challenge);
        multiopening_challenge = mul_fr(multiopening_challenge, v);
        poly_to_divide_at_z_omega.add_assign_scaled(
            &fourth_state.witness_polys_as_coeffs[3],
            multiopening_challenge,
        );

        proof {
            let n1 = required_domain_size as int;
            let zni = pow_fr(z as int, n1 as nat);
            assert forall|t: int| 0 <= t < n1 implies #[trigger] poly_to_divide_at_z.elems@[
                t
            ] as int == round5_agg_z_at(fourth_state, *setup, zni, v as int, t) by {
                reveal(round5_agg_z_at);
            }
            assert forall|t: int| 0 <= t < n1 implies #[trigger] poly_to_divide_at_z_omega.elems@[
                t
            ] as int == round5_agg_z_omega_at(fourth_state, v as int, t) by {
                reveal(round5_agg_z_omega_at);
            }
        }

        // the two synthetic divisions are independent
        let open_at_z = divide_single(&poly_to_divide_at_z.elems, z);
        let open_at_z_omega = divide_single(&poly_to_divide_at_z_omega.elems, z_by_omega);

        proof {
            let n1 = required_domain_size as int;
            let zni = pow_fr(z as int, n1 as nat);
            let agg_z = Seq::new(
                n1 as nat,
                |t: int| round5_agg_z_at(fourth_state, *setup, zni, v as int, t) as u64,
            );
            let agg_zw = Seq::new(
                n1 as nat,
                |t: int| round5_agg_z_omega_at(fourth_state, v as int, t) as u64,
            );
            assert(poly_to_divide_at_z.elems@ =~= agg_z);
            assert(poly_to_divide_at_z_omega.elems@ =~= agg_zw);
            let open_z = Seq::new((n1 - 1) as nat, |i: int| synth_div_coeff(agg_z, z as int, i) as u64);
            let open_zw = Seq::new(
                (n1 - 1) as nat,
                |i: int| synth_div_coeff(agg_zw, z_by_omega as int, i) as u64,
            );
            assert(open_at_z@ =~= open_z);
            assert(open_at_z_omega@ =~= open_zw);
        }

        let open_z_poly = Polynomial {
            form: PolynomialForm::Coefficients,
            elems: open_at_z,
            domain,
        };
        let open_zw_poly = Polynomial {
            form: PolynomialForm::Coefficients,
            elems: open_at_z_omega,
            domain,
        };
        let opening_at_z = commit_using_monomials(&open_z_poly, crs_mons);
        let opening_at_z_omega = commit_using_monomials(&open_zw_poly, crs_mons);

        Ok(FifthProverMessage {
            opening_proof_at_z: opening_at_z,
            opening_proof_at_z_omega: opening_at_z_omega,
        })
    }
}

} // verus!
