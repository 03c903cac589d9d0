use groth_setup::field::{add_mod, sub_mod, mul_mod, pow_mod, inv_mod};

#[test]
fn add_wraps_at_modulus() {
    assert_eq!(add_mod(17, 9, 12), 4);
    assert_eq!(add_mod(17, 0, 0), 0);
    assert_eq!(add_mod(17, 16, 16), 15);
}

#[test]
fn sub_is_euclidean() {
    assert_eq!(sub_mod(17, 3, 16), 4);
    assert_eq!(sub_mod(17, 16, 3), 13);
    assert_eq!(sub_mod(17, 5, 5), 0);
}

#[test]
fn mul_wraps_at_modulus() {
    assert_eq!(mul_mod(17, 8, 15), 1);
    assert_eq!(mul_mod(17, 16, 16), 1);
    assert_eq!(mul_mod(2, 1, 1), 1);
}

#[test]
fn mul_handles_large_residues() {
    let p = u64::MAX - 58; // any large modulus: the product needs 128 bits
    let a = p - 1;
    assert_eq!(mul_mod(p, a, a), 1);
}

#[test]
fn pow_matches_repeated_multiplication() {
    assert_eq!(pow_mod(17, 3, 0), 1);
    assert_eq!(pow_mod(17, 3, 1), 3);
    assert_eq!(pow_mod(17, 3, 4), 13); // 81 mod 17
    assert_eq!(pow_mod(17, 3, 16), 1); // Fermat at the primitive root
}

#[test]
fn inverse_found_for_units() {
    assert_eq!(inv_mod(17, 5), Some(7)); // 5 * 7 = 35 = 1 mod 17
    assert_eq!(inv_mod(17, 1), Some(1));
    assert_eq!(inv_mod(17, 16), Some(16));
}

#[test]
fn inverse_missing_for_zero_and_shared_factors() {
    assert_eq!(inv_mod(17, 0), None);
    assert_eq!(inv_mod(15, 6), None); // gcd(6, 15) = 3
    assert_eq!(inv_mod(15, 2), Some(8));
}
