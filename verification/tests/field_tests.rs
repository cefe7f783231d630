use plonk_prover::domain::{make_non_residues, Domain};
use plonk_prover::errors::SynthesisError;
use plonk_prover::field::{add_fr, inv_fr, mul_fr, pow_mod, sub_fr, MODULUS};

#[test]
fn field_ops_reduce_exactly() {
    assert_eq!(add_fr(12288, 1), 0);
    assert_eq!(add_fr(12288, 12288), 12287);
    assert_eq!(sub_fr(0, 1), 12288);
    assert_eq!(sub_fr(5, 3), 2);
    assert_eq!(mul_fr(11, 5586), 1);
    assert_eq!(mul_fr(12288, 12288), 1);
    assert_eq!(pow_mod(2, 10), 1024);
    assert_eq!(pow_mod(2, 0), 1);
}

#[test]
fn generator_has_full_order() {
    // 11 generates the whole multiplicative group: its power at the group
    // order is one, and at the two maximal proper divisors it is not.
    assert_eq!(pow_mod(11, MODULUS - 1), 1);
    assert_ne!(pow_mod(11, (MODULUS - 1) / 2), 1);
    assert_ne!(pow_mod(11, (MODULUS - 1) / 3), 1);
}

#[test]
fn inversion_fails_exactly_on_zero() {
    assert_eq!(inv_fr(0), Err(SynthesisError::DivisionByZero));
    for a in [1u64, 2, 11, 6144, 12288] {
        let r = inv_fr(a).unwrap();
        assert_eq!(mul_fr(a, r), 1);
    }
}

#[test]
fn non_residues_are_the_smallest_three() {
    let nr = make_non_residues(3).unwrap();
    assert_eq!(nr, vec![11, 19, 22]);
    for c in nr {
        assert_eq!(pow_mod(c, (MODULUS - 1) / 2), MODULUS - 1);
    }
}

#[test]
fn domain_roots_have_exact_order() {
    for size in [1usize, 2, 4, 8, 32, 4096] {
        let d = Domain::new_for_size(size).unwrap();
        assert_eq!(pow_mod(d.omega, size as u64), 1);
        if size > 1 {
            assert_ne!(pow_mod(d.omega, (size / 2) as u64), 1);
        }
        assert_eq!(mul_fr(d.omega, d.omega_inv), 1);
        assert_eq!(mul_fr(size as u64, d.size_inv), 1);
    }
    assert_eq!(
        Domain::new_for_size(6),
        Err(SynthesisError::NonPowerOfTwoSize)
    );
    assert_eq!(
        Domain::new_for_size(8192),
        Err(SynthesisError::NonPowerOfTwoSize)
    );
}
