use plonk_prover::commitment::{commit_using_raw_values, CrsForLagrangeForm, CrsForMonomialForm};
use plonk_prover::domain::{make_non_residues, Domain};
use plonk_prover::errors::SynthesisError;
use plonk_prover::field::{mul_fr, pow_mod, MODULUS};
use plonk_prover::polynomial::Polynomial;
use plonk_prover::precomputations::{
    get_precomputed_inverse_divisor, get_precomputed_next_step_selector_lde_for_index,
    get_precomputed_permutation_poly_lde_for_index, get_precomputed_selector_lde_for_index,
    get_precomputed_x_lde, SetupPolynomials, SetupPolynomialsPrecomputations,
};
use plonk_prover::prover::{
    FifthProverMessage, FirstProverMessage, FirstVerifierMessage, FourthProverMessage,
    FourthVerifierMessage, ProverAssembly4WithNextStep, SecondProverMessage,
    SecondVerifierMessage, ThirdProverMessage, ThirdVerifierMessage,
};

fn coeffs_from_values(v: Vec<u64>) -> Polynomial {
    Polynomial::from_values(v).unwrap().ifft()
}

// One multiplication gate A*B = C with public inputs A = 2, B = 3, C = 6:
// rows 0..2 bind the inputs to wire `a`, row 3 holds the product
// constraint, the rest is padding. Copy constraints wire the three input
// cells to that row's operands through the permutation polynomials.
fn build_setup() -> SetupPolynomials {
    let d = Domain::new_for_size(8).unwrap();
    let w = d.omega;
    let nr = make_non_residues(3).unwrap();
    let (k1, k2) = (nr[0], nr[1]);
    let k3 = nr[2];
    let id = |k: u64, t: u64| mul_fr(k, pow_mod(w, t));
    let sigma0 = vec![
        id(1, 3),
        id(k1, 3),
        id(k2, 3),
        id(1, 0),
        id(1, 4),
        id(1, 5),
        id(1, 6),
        id(1, 7),
    ];
    let sigma1 = vec![
        id(k1, 0),
        id(k1, 1),
        id(k1, 2),
        id(1, 1),
        id(k1, 4),
        id(k1, 5),
        id(k1, 6),
        id(k1, 7),
    ];
    let sigma2 = vec![
        id(k2, 0),
        id(k2, 1),
        id(k2, 2),
        id(1, 2),
        id(k2, 4),
        id(k2, 5),
        id(k2, 6),
        id(k2, 7),
    ];
    let sigma3 = vec![
        id(k3, 0),
        id(k3, 1),
        id(k3, 2),
        id(k3, 3),
        id(k3, 4),
        id(k3, 5),
        id(k3, 6),
        id(k3, 7),
    ];
    let neg1 = MODULUS - 1;
    let q_a = vec![neg1, neg1, neg1, 0, 0, 0, 0, 0];
    let q_b = vec![0; 8];
    let q_c = vec![0, 0, 0, neg1, 0, 0, 0, 0];
    let q_d = vec![0; 8];
    let q_m = vec![0, 0, 0, 1, 0, 0, 0, 0];
    let q_const = vec![0; 8];
    let q_d_next = vec![0; 8];
    SetupPolynomials {
        permutation_polynomials: vec![
            coeffs_from_values(sigma0),
            coeffs_from_values(sigma1),
            coeffs_from_values(sigma2),
            coeffs_from_values(sigma3),
        ],
        selector_polynomials: vec![
            coeffs_from_values(q_a),
            coeffs_from_values(q_b),
            coeffs_from_values(q_c),
            coeffs_from_values(q_d),
            coeffs_from_values(q_m),
            coeffs_from_values(q_const),
        ],
        next_step_selector_polynomials: vec![coeffs_from_values(q_d_next)],
    }
}

fn build_assembly() -> ProverAssembly4WithNextStep {
    ProverAssembly4WithNextStep {
        n: 7,
        num_inputs: 3,
        input_assignments: vec![2, 3, 6],
        wire_assignments: vec![
            vec![2, 3, 6, 2, 0, 0, 0],
            vec![0, 0, 0, 3, 0, 0, 0],
            vec![0, 0, 0, 6, 0, 0, 0],
            vec![0, 0, 0, 0, 0, 0, 0],
        ],
        is_finalized: true,
    }
}

fn build_crs() -> CrsForMonomialForm {
    let mut bases: Vec<u64> = Vec::new();
    for j in 0..8u64 {
        bases.push(pow_mod(5, j));
    }
    CrsForMonomialForm { bases }
}

fn build_precomputations(setup: &SetupPolynomials) -> SetupPolynomialsPrecomputations {
    let mut perm_ldes = Vec::new();
    for i in 0..4 {
        perm_ldes.push(
            get_precomputed_permutation_poly_lde_for_index(i, setup, None)
                .unwrap()
                .into_poly(),
        );
    }
    let mut sel_ldes = Vec::new();
    for i in 0..6 {
        sel_ldes.push(
            get_precomputed_selector_lde_for_index(i, setup, None)
                .unwrap()
                .into_poly(),
        );
    }
    let next_ldes = vec![get_precomputed_next_step_selector_lde_for_index(0, setup, None)
        .unwrap()
        .into_poly()];
    let mut perm_vals = Vec::new();
    for i in 0..4 {
        let mut p = setup.permutation_polynomials[i].fast_clone().fft();
        p.elems.truncate(7);
        perm_vals.push(p);
    }
    let x_lde = get_precomputed_x_lde(8, None, setup).unwrap().into_poly();
    let inv_div = get_precomputed_inverse_divisor(8, None, setup)
        .unwrap()
        .into_poly();
    SetupPolynomialsPrecomputations {
        permutation_polynomials_on_coset_of_size_4n_bitreversed: perm_ldes,
        selector_polynomials_on_coset_of_size_4n_bitreversed: sel_ldes,
        next_step_selector_polynomials_on_coset_of_size_4n_bitreversed: next_ldes,
        permutation_polynomials_values_of_size_n_minus_one: perm_vals,
        x_on_coset_of_size_4n_bitreversed: x_lde,
        inverse_divisor_on_coset_of_size_4n_bitreversed: inv_div,
    }
}

fn prove(
    assembly: ProverAssembly4WithNextStep,
    setup: &SetupPolynomials,
    pre: Option<&SetupPolynomialsPrecomputations>,
    crs: &CrsForMonomialForm,
) -> Result<
    (
        FirstProverMessage,
        SecondProverMessage,
        ThirdProverMessage,
        FourthProverMessage,
        FifthProverMessage,
    ),
    SynthesisError,
> {
    let (s1, m1) = assembly.first_step_with_monomial_form_key(crs)?;
    let (s2, m2) = ProverAssembly4WithNextStep::second_step_from_first_step(
        s1,
        FirstVerifierMessage { beta: 17, gamma: 29 },
        setup,
        crs,
        pre,
    )?;
    let (s3, m3) = ProverAssembly4WithNextStep::third_step_from_second_step(
        s2,
        SecondVerifierMessage {
            alpha: 43,
            beta: 17,
            gamma: 29,
        },
        setup,
        crs,
        pre,
    )?;
    let (s4, m4) = ProverAssembly4WithNextStep::fourth_step_from_third_step(
        s3,
        ThirdVerifierMessage {
            alpha: 43,
            beta: 17,
            gamma: 29,
            z: 101,
        },
        setup,
    )?;
    let m5 = ProverAssembly4WithNextStep::fifth_step_from_fourth_step(
        s4,
        FourthVerifierMessage {
            alpha: 43,
            beta: 17,
            gamma: 29,
            z: 101,
            v: 7,
        },
        setup,
        crs,
    )?;
    Ok((m1, m2, m3, m4, m5))
}

#[test]
fn honest_multiplication_gate_proves() {
    let setup = build_setup();
    let crs = build_crs();
    let (m1, _m2, m3, m4, _m5) = prove(build_assembly(), &setup, None, &crs).unwrap();
    assert_eq!(m1.n, 7);
    assert_eq!(m1.num_inputs, 3);
    assert_eq!(m1.input_values, vec![2, 3, 6]);
    assert_eq!(m1.wire_commitments.len(), 4);
    assert_eq!(m3.quotient_poly_commitments.len(), 4);
    assert_eq!(m4.wire_values_at_z.len(), 4);
    assert_eq!(m4.wire_values_at_z_omega.len(), 1);
    assert_eq!(m4.permutation_polynomials_at_z.len(), 3);
}

#[test]
fn mutating_a_single_witness_value_fails_the_self_check() {
    let setup = build_setup();
    let crs = build_crs();
    let mut assembly = build_assembly();
    assembly.wire_assignments[0][0] = 5;
    let res = prove(assembly, &setup, None, &crs);
    assert_eq!(res.err(), Some(SynthesisError::Unsatisfiable));
}

#[test]
fn changing_the_public_output_fails_with_unsatisfiable() {
    let setup = build_setup();
    let crs = build_crs();
    let mut assembly = build_assembly();
    // the product constraint would now claim 2 * 3 = 7
    assembly.wire_assignments[2][3] = 7;
    let res = prove(assembly, &setup, None, &crs);
    assert_eq!(res.err(), Some(SynthesisError::Unsatisfiable));
}

#[test]
fn unfinalized_assembly_is_rejected() {
    let setup = build_setup();
    let crs = build_crs();
    let mut assembly = build_assembly();
    assembly.is_finalized = false;
    let res = prove(assembly, &setup, None, &crs);
    assert_eq!(res.err(), Some(SynthesisError::AssemblyNotFinalized));
}

#[test]
fn non_power_of_two_domain_is_rejected() {
    let crs = build_crs();
    let assembly = ProverAssembly4WithNextStep {
        n: 5,
        num_inputs: 0,
        input_assignments: vec![],
        wire_assignments: vec![vec![0; 5], vec![0; 5], vec![0; 5], vec![0; 5]],
        is_finalized: true,
    };
    let res = assembly.first_step_with_monomial_form_key(&crs);
    assert!(matches!(res.err(), Some(SynthesisError::NonPowerOfTwoSize)));
}

#[test]
fn too_short_crs_is_rejected() {
    let assembly = build_assembly();
    let crs = CrsForMonomialForm {
        bases: vec![1, 5, 25, 125],
    };
    let res = assembly.first_step_with_monomial_form_key(&crs);
    assert!(matches!(res.err(), Some(SynthesisError::SizeMismatch)));
}

#[test]
fn cached_and_fresh_precomputations_are_value_equivalent() {
    let setup = build_setup();
    let crs = build_crs();
    let pre = build_precomputations(&setup);
    let fresh = prove(build_assembly(), &setup, None, &crs).unwrap();
    let cached = prove(build_assembly(), &setup, Some(&pre), &crs).unwrap();
    assert_eq!(fresh.1.z_commitment, cached.1.z_commitment);
    assert_eq!(
        fresh.2.quotient_poly_commitments,
        cached.2.quotient_poly_commitments
    );
    assert_eq!(
        fresh.3.quotient_polynomial_at_z,
        cached.3.quotient_polynomial_at_z
    );
    assert_eq!(fresh.4.opening_proof_at_z, cached.4.opening_proof_at_z);
    assert_eq!(
        fresh.4.opening_proof_at_z_omega,
        cached.4.opening_proof_at_z_omega
    );
}

#[test]
fn lagrange_form_key_commits_raw_values() {
    let crs_l = CrsForLagrangeForm {
        bases: vec![3, 1, 4, 1, 5, 9, 2, 6],
    };
    let assembly = build_assembly();
    let expected = commit_using_raw_values(&assembly.wire_assignments[0], &crs_l);
    let (state, msg) = assembly.first_step_with_lagrange_form_key(&crs_l).unwrap();
    assert_eq!(msg.wire_commitments.len(), 4);
    assert_eq!(msg.wire_commitments[0], expected);
    assert_eq!(state.witness_polys_as_coeffs.len(), 0);
    assert_eq!(state.required_domain_size, 8);
}
