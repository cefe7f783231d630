use plonk_prover::commitment::{
    commit_using_monomials, commit_using_raw_values, CrsForLagrangeForm, CrsForMonomialForm,
};
use plonk_prover::field::pow_mod;
use plonk_prover::polynomial::{calculate_lagrange_poly, Polynomial};

// A toy structured reference string for one secret point: the monomial
// bases are its powers, the Lagrange bases are the Lagrange polynomials
// evaluated there.
fn crs_pair(tau: u64, size: usize) -> (CrsForLagrangeForm, CrsForMonomialForm) {
    let mut mons: Vec<u64> = Vec::new();
    for j in 0..size {
        mons.push(pow_mod(tau, j as u64));
    }
    let mut lags: Vec<u64> = Vec::new();
    for i in 0..size {
        let li = calculate_lagrange_poly(size, i).unwrap();
        lags.push(li.evaluate_at(tau));
    }
    (
        CrsForLagrangeForm { bases: lags },
        CrsForMonomialForm { bases: mons },
    )
}

#[test]
fn value_and_monomial_commitments_agree_on_matching_bases() {
    let (crs_l, crs_m) = crs_pair(5, 8);
    let values = vec![9u64, 12288, 0, 4, 77, 3, 1000, 11];
    let by_values = commit_using_raw_values(&values, &crs_l);
    let monomial_form = Polynomial::from_values(values).unwrap().ifft();
    let by_monomials = commit_using_monomials(&monomial_form, &crs_m);
    assert_eq!(by_values, by_monomials);
}

#[test]
fn committing_twice_is_byte_identical() {
    let (_, crs_m) = crs_pair(5, 8);
    let p = Polynomial::from_coeffs(vec![1, 2, 3, 4, 5, 6, 7, 8]).unwrap();
    let q = p.fast_clone();
    let c1 = commit_using_monomials(&p, &crs_m);
    let c2 = commit_using_monomials(&q, &crs_m);
    assert_eq!(c1, c2);
    assert_eq!(c1.to_le_bytes(), c2.to_le_bytes());
}
