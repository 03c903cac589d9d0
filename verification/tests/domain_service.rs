use groth_setup::domain::{
    Domain, FieldSpec, build_domain, two_pow, evaluate_vanishing, domain_roots,
    evaluate_all_lagrange_bases, sample_outside_domain,
};
use groth_setup::CeremonyError;
use rand::SeedableRng;

fn fs17() -> FieldSpec {
    // 3 generates the full multiplicative group mod 17, of order 16 = 2^4.
    FieldSpec::new(17, 4, 3).expect("3 has order 16 mod 17")
}

#[test]
fn field_spec_accepts_exact_order_root() {
    let fs = fs17();
    assert_eq!(fs.modulus, 17);
    assert_eq!(fs.adicity, 4);
    assert_eq!(fs.root, 3);
}

#[test]
fn field_spec_rejects_wrong_order_root() {
    // 2 has order 8 mod 17, not 16.
    assert!(FieldSpec::new(17, 4, 2).is_none());
    // 3 has order 4 mod 16, not 16.
    assert!(FieldSpec::new(16, 4, 3).is_none());
    // out-of-range root
    assert!(FieldSpec::new(17, 4, 20).is_none());
}

#[test]
fn field_spec_rejects_composite_modulus() {
    // 2 has order 4 = 2^2 mod 15, but 15 = 3 * 5 is not prime.
    assert!(FieldSpec::new(15, 2, 2).is_none());
    assert!(FieldSpec::new(9, 1, 8).is_none());
    // The same order structure over a prime is accepted: 4 has order 4 mod 13.
    assert!(FieldSpec::new(13, 2, 8).is_some());
}

#[test]
fn two_pow_values() {
    assert_eq!(two_pow(0), 1);
    assert_eq!(two_pow(5), 32);
    assert_eq!(two_pow(63), 1u64 << 63);
}

#[test]
fn domain_is_smallest_power_of_two() {
    let fs = fs17();
    assert_eq!(build_domain(&fs, 0).unwrap().size, 1);
    assert_eq!(build_domain(&fs, 1).unwrap().size, 1);
    assert_eq!(build_domain(&fs, 2).unwrap().size, 2);
    assert_eq!(build_domain(&fs, 3).unwrap().size, 4);
    assert_eq!(build_domain(&fs, 5).unwrap().size, 8);
    assert_eq!(build_domain(&fs, 16).unwrap().size, 16);
}

#[test]
fn domain_too_large_when_adicity_exhausted() {
    let fs = fs17();
    assert_eq!(build_domain(&fs, 17), Err(CeremonyError::DomainTooLarge));
}

#[test]
fn domain_roots_are_powers_of_generator() {
    let fs = fs17();
    let d = build_domain(&fs, 2).unwrap();
    // The square roots of unity mod 17 are 1 and 16.
    assert_eq!(d.omega, 16);
    assert_eq!(domain_roots(&d), vec![1, 16]);
}

#[test]
fn vanishing_polynomial_values() {
    let fs = fs17();
    let d = build_domain(&fs, 2).unwrap();
    assert_eq!(evaluate_vanishing(&d, 3), 8); // 3^2 - 1
    assert_eq!(evaluate_vanishing(&d, 1), 0);
    assert_eq!(evaluate_vanishing(&d, 16), 0);
}

#[test]
fn domain_is_exactly_the_vanishing_locus() {
    // Over the prime field the roots of x^n - 1 are exactly the domain.
    let fs = fs17();
    for min in [2usize, 4, 8] {
        let d = build_domain(&fs, min).unwrap();
        let roots = domain_roots(&d);
        for x in 0..17u64 {
            assert_eq!(
                evaluate_vanishing(&d, x) == 0,
                roots.contains(&x),
                "x = {} against the domain of {} slots",
                x,
                d.size
            );
        }
    }
}

#[test]
fn lagrange_bases_are_indicators_on_the_domain() {
    let fs = fs17();
    let d = build_domain(&fs, 2).unwrap();
    assert_eq!(evaluate_all_lagrange_bases(&d, 1).unwrap(), vec![1, 0]);
    assert_eq!(evaluate_all_lagrange_bases(&d, 16).unwrap(), vec![0, 1]);
    let d4 = build_domain(&fs, 4).unwrap();
    let roots = domain_roots(&d4);
    for (j, &root) in roots.iter().enumerate() {
        let bases = evaluate_all_lagrange_bases(&d4, root).unwrap();
        for i in 0..4 {
            assert_eq!(bases[i], if i == j { 1 } else { 0 });
        }
    }
}

#[test]
fn lagrange_bases_off_domain_closed_form() {
    let fs = fs17();
    let d = build_domain(&fs, 2).unwrap();
    // At x = 3: Z(3) = 8; L_0 = 8 * 1 / (2*(3-1)) = 2; L_1 = 8 * 16 / (2*(3-16)) = 16.
    assert_eq!(evaluate_all_lagrange_bases(&d, 3).unwrap(), vec![2, 16]);
}

#[test]
fn lagrange_bases_sum_to_one_off_domain() {
    let fs = fs17();
    let d = build_domain(&fs, 4).unwrap();
    for x in 0..17u64 {
        let roots = domain_roots(&d);
        if roots.contains(&x) {
            continue;
        }
        let bases = evaluate_all_lagrange_bases(&d, x).unwrap();
        let sum = bases.iter().fold(0u64, |acc, &b| (acc + b) % 17);
        assert_eq!(sum, 1, "bases at {} sum to 1", x);
    }
}

#[test]
fn lagrange_fails_without_inverse() {
    // A domain is well-formed over the composite modulus 15 too (4 has
    // exact order 2), but only a prime modulus guarantees inverses: at
    // x = 7 the denominator 2*(7-1) = 12 shares a factor with 15.
    let d = Domain { modulus: 15, log_size: 1, size: 2, omega: 4 };
    assert_eq!(domain_roots(&d), vec![1, 4]);
    assert_eq!(
        evaluate_all_lagrange_bases(&d, 7),
        Err(CeremonyError::NonInvertible)
    );
}

#[test]
fn tiniest_field_and_domain() {
    // Mod 2 with adicity 0: the only root of unity is 1 and the domain is {1}.
    let fs = FieldSpec::new(2, 0, 1).expect("1 has order 1 mod 2");
    let d = build_domain(&fs, 1).unwrap();
    assert_eq!(d.size, 1);
    assert_eq!(domain_roots(&d), vec![1]);
    assert_eq!(evaluate_vanishing(&d, 0), 1);
    // The single Lagrange basis is the constant polynomial 1.
    assert_eq!(evaluate_all_lagrange_bases(&d, 0).unwrap(), vec![1]);
    assert!(matches!(build_domain(&fs, 2), Err(CeremonyError::DomainTooLarge)));
}

#[test]
fn sampled_point_is_outside_domain() {
    let fs = fs17();
    let d = build_domain(&fs, 2).unwrap();
    let mut rng = rand::rngs::StdRng::seed_from_u64(1);
    for _ in 0..100 {
        let tau = sample_outside_domain(&d, &mut rng).unwrap();
        assert!(tau < 17);
        assert!(tau != 1 && tau != 16);
        assert!(evaluate_vanishing(&d, tau) != 0);
    }
}
