use plonk_prover::domain::evaluate_vanishing_for_size;
use plonk_prover::errors::SynthesisError;
use plonk_prover::field::{add_fr, mul_fr, pow_mod, MODULUS, MULTIPLICATIVE_GENERATOR};
use plonk_prover::polynomial::{
    calculate_lagrange_poly, divide_single, evaluate_vanishing_polynomial_of_degree_on_domain_size,
    horner_eval, Polynomial,
};

fn sample_coeffs() -> Vec<u64> {
    vec![5, 0, 7, 12288, 123, 9999, 1, 42]
}

#[test]
fn fft_then_ifft_is_identity() {
    let p = Polynomial::from_coeffs(sample_coeffs()).unwrap();
    let round_tripped = p.fft().ifft();
    assert_eq!(round_tripped.elems, sample_coeffs());
}

#[test]
fn ifft_then_fft_is_identity() {
    let p = Polynomial::from_values(sample_coeffs()).unwrap();
    let round_tripped = p.ifft().fft();
    assert_eq!(round_tripped.elems, sample_coeffs());
}

#[test]
fn bitreversed_lde_then_inverse_coset_fft_recovers_coefficients() {
    let p = Polynomial::from_coeffs(sample_coeffs()).unwrap();
    let lde = p.bitreversed_coset_lde().unwrap();
    assert_eq!(lde.elems.len(), 32);
    let recovered = lde.unshuffle_lde_enumeration(8).icoset_fft_for_generator();
    // the coset holds 32 points, so the recovered form has 32 coefficients:
    // exactly the original eight, then zeros
    assert_eq!(recovered.elems.len(), 32);
    assert_eq!(&recovered.elems[0..8], &sample_coeffs()[..]);
    for c in &recovered.elems[8..] {
        assert_eq!(*c, 0);
    }
}

#[test]
fn lde_values_are_coset_evaluations() {
    // slot lde_index(i, n) = i/4 + rev2(i % 4) * n holds the value at the
    // i-th coset point
    let coeffs = sample_coeffs();
    let p = Polynomial::from_coeffs(sample_coeffs()).unwrap();
    let lde = p.bitreversed_coset_lde().unwrap();
    let omega32 = lde.domain.omega;
    let n = 8usize;
    for i in 0..32usize {
        let a = i >> 2;
        let b = i & 3;
        let rev2 = if b == 1 {
            2
        } else if b == 2 {
            1
        } else {
            b
        };
        let slot = a + (rev2 << 3);
        let x = mul_fr(MULTIPLICATIVE_GENERATOR, pow_mod(omega32, i as u64));
        let direct = horner_eval(&coeffs, x);
        assert_eq!(lde.elems[slot], direct);
        assert!(slot < 4 * n);
    }
}

#[test]
fn batch_inversion_fails_on_a_zero_element() {
    let mut p = Polynomial::from_values(vec![3, 9, 0, 4, 1, 2, 5, 6]).unwrap();
    let before = p.elems.clone();
    assert_eq!(p.batch_inversion(), Err(SynthesisError::DivisionByZero));
    // never returns silently wrong data: the array is untouched
    assert_eq!(p.elems, before);
}

#[test]
fn batch_inversion_inverts_every_element() {
    let vals = vec![3u64, 9, 11, 4, 1, 2, 5, 12288];
    let mut p = Polynomial::from_values(vals.clone()).unwrap();
    p.batch_inversion().unwrap();
    for i in 0..vals.len() {
        assert_eq!(mul_fr(vals[i], p.elems[i]), 1);
    }
}

#[test]
fn shifted_grand_product_starts_at_identity() {
    let p = Polynomial::from_values_unpadded(vec![2, 3, 4, 5, 6, 7, 8]).unwrap();
    let z = p.calculate_shifted_grand_product().unwrap();
    assert_eq!(z.elems.len(), 8);
    assert_eq!(z.elems[0], 1);
    let vals = [2u64, 3, 4, 5, 6, 7, 8];
    for i in 0..7usize {
        assert_eq!(z.elems[i + 1], mul_fr(z.elems[i], vals[i]));
    }
    // the i-th entry is the product of all earlier values
    assert_eq!(z.elems[3], 24);
}

#[test]
fn break_into_multiples_then_recombine_reproduces_evaluation() {
    let mut coeffs: Vec<u64> = Vec::new();
    for j in 0..32u64 {
        coeffs.push(mul_fr(j + 3, 517));
    }
    let p = Polynomial::from_coeffs(coeffs.clone()).unwrap();
    for z in [0u64, 1, 2, 101, 4321, 12288] {
        let direct = horner_eval(&coeffs, z);
        let parts = Polynomial::from_coeffs(coeffs.clone())
            .unwrap()
            .break_into_multiples(8)
            .unwrap();
        assert_eq!(parts.len(), 4);
        let zn = pow_mod(z, 8);
        let mut acc = 0u64;
        let mut cur = 1u64;
        for part in parts.iter() {
            acc = add_fr(acc, mul_fr(horner_eval(&part.elems, z), cur));
            cur = mul_fr(cur, zn);
        }
        assert_eq!(acc, direct);
    }
    assert!(p.elems.len() == 32);
}

#[test]
fn divide_single_performs_synthetic_division() {
    // (x - 3)(x - 5) = 15 - 8x + x^2
    let c = vec![15u64, MODULUS - 8, 1];
    let q = divide_single(&c, 3);
    // quotient is (x - 5)
    assert_eq!(q, vec![MODULUS - 5, 1]);
    let q2 = divide_single(&c, 5);
    assert_eq!(q2, vec![MODULUS - 3, 1]);
}

#[test]
fn evaluate_at_matches_horner() {
    let p = Polynomial::from_coeffs(vec![7, 3, 0, 2, 0, 0, 0, 0]).unwrap();
    // 7 + 3*10 + 2*1000 = 2037
    assert_eq!(p.evaluate_at(10), 2037);
}

#[test]
fn lagrange_poly_is_an_indicator_on_the_domain() {
    let l0 = calculate_lagrange_poly(8, 0).unwrap();
    let l2 = calculate_lagrange_poly(8, 2).unwrap();
    let omega = l0.domain.omega;
    for t in 0..8u64 {
        let x = pow_mod(omega, t);
        assert_eq!(l0.evaluate_at(x), if t == 0 { 1 } else { 0 });
        assert_eq!(l2.evaluate_at(x), if t == 2 { 1 } else { 0 });
    }
}

#[test]
fn vanishing_polynomial_is_nonzero_on_the_shifted_coset() {
    let v = evaluate_vanishing_polynomial_of_degree_on_domain_size(8, MULTIPLICATIVE_GENERATOR, 32)
        .unwrap();
    assert_eq!(v.elems.len(), 32);
    for i in 0..32usize {
        assert_ne!(v.elems[i], 0);
    }
    let omega32 = v.domain.omega;
    let x0 = mul_fr(MULTIPLICATIVE_GENERATOR, pow_mod(omega32, 0));
    assert_eq!(v.elems[0], evaluate_vanishing_for_size(x0, 8));
}
