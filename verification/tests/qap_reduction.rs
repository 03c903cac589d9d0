use groth_setup::domain::FieldSpec;
use groth_setup::qap::QAP;
use groth_setup::r1cs::R1cs;
use groth_setup::CeremonyError;

fn fs17() -> FieldSpec {
    FieldSpec::new(17, 4, 3).expect("3 has order 16 mod 17")
}

/// The single constraint x * y = z over the witness vector [1, x, y, z].
fn mul_circuit(modulus: u64) -> R1cs {
    R1cs {
        modulus,
        num_instance: 1,
        num_witness: 3,
        a: vec![vec![(1, 1)]],
        b: vec![vec![(1, 2)]],
        c: vec![vec![(1, 3)]],
    }
}

#[test]
fn evaluation_domain_sized_from_constraints_and_instances() {
    // 1 constraint + 1 instance variable round up to a domain of 2 slots.
    let d = QAP::getEvaluationDomain(&fs17(), &mul_circuit(17)).unwrap();
    assert_eq!(d.size, 2);
    assert_eq!(d.modulus, 17);
}

#[test]
fn reduce_single_multiplication_at_tau_three() {
    // Hand derivation mod 17, domain size 2 with roots {1, 16}, tau = 3:
    // Z(3) = 8; Lagrange bases at 3 are L_0 = 2 and L_1 = 16.
    // The public-input slot is seeded with L_1; the constraint row adds
    // 1 * L_0 into the column of its variable.
    let out = QAP::generateFromR1CS(&fs17(), &mul_circuit(17), 3).unwrap();
    assert_eq!(out.qapVariableCount, 3);
    assert_eq!(out.evaluationDomainSize, 2);
    assert_eq!(out.ZAtTau, 8);
    assert_eq!(out.AAtTau, vec![16, 2, 0, 0]);
    assert_eq!(out.BAtTau, vec![0, 0, 2, 0]);
    assert_eq!(out.CAtTau, vec![0, 0, 0, 2]);
}

#[test]
fn reduce_on_domain_point_gives_indicator_bases() {
    // tau = 16 lies in the domain: Z(16) = 0, and the bases collapse to the
    // indicator of the second slot, which seeds the public input.
    let out = QAP::generateFromR1CS(&fs17(), &mul_circuit(17), 16).unwrap();
    assert_eq!(out.ZAtTau, 0);
    assert_eq!(out.AAtTau, vec![1, 0, 0, 0]);
    assert_eq!(out.BAtTau, vec![0, 0, 0, 0]);
    assert_eq!(out.CAtTau, vec![0, 0, 0, 0]);
}

#[test]
fn reduce_is_idempotent() {
    let fs = fs17();
    let r1cs = mul_circuit(17);
    let o1 = QAP::generateFromR1CS(&fs, &r1cs, 5).unwrap();
    let o2 = QAP::generateFromR1CS(&fs, &r1cs, 5).unwrap();
    assert_eq!(o1.qapVariableCount, o2.qapVariableCount);
    assert_eq!(o1.evaluationDomainSize, o2.evaluationDomainSize);
    assert_eq!(o1.ZAtTau, o2.ZAtTau);
    assert_eq!(o1.AAtTau, o2.AAtTau);
    assert_eq!(o1.BAtTau, o2.BAtTau);
    assert_eq!(o1.CAtTau, o2.CAtTau);
}

#[test]
fn reduce_accumulates_repeated_and_empty_rows() {
    // Two constraints, one touching the same column twice and one empty:
    // coefficients at a column add up in the field, an empty row adds nothing.
    let r1cs = R1cs {
        modulus: 17,
        num_instance: 1,
        num_witness: 1,
        a: vec![vec![(5, 1), (6, 1)], vec![]],
        b: vec![vec![], vec![]],
        c: vec![vec![], vec![]],
    };
    // Domain size rounds 2 + 1 up to 4. Bases at tau = 3 over the 4-domain:
    // computed by the library itself in domain tests; here only the shape:
    let out = QAP::generateFromR1CS(&fs17(), &r1cs, 3).unwrap();
    assert_eq!(out.evaluationDomainSize, 4);
    let bases = groth_setup::domain::evaluate_all_lagrange_bases(
        &groth_setup::domain::build_domain(&fs17(), 3).unwrap(),
        3,
    )
    .unwrap();
    // Slot 0 is seeded with the basis after the two constraint slots.
    assert_eq!(out.AAtTau[0], bases[2]);
    assert_eq!(out.AAtTau[1], (11 * bases[0]) % 17);
    assert_eq!(out.BAtTau, vec![0, 0]);
    assert_eq!(out.CAtTau, vec![0, 0]);
}

#[test]
fn reduce_fails_when_domain_too_large() {
    // 16 constraints + 1 instance variable need a domain of 32 > 2^4.
    let r1cs = R1cs {
        modulus: 17,
        num_instance: 1,
        num_witness: 1,
        a: vec![vec![]; 16],
        b: vec![vec![]; 16],
        c: vec![vec![]; 16],
    };
    assert!(matches!(
        QAP::generateFromR1CS(&fs17(), &r1cs, 3),
        Err(CeremonyError::DomainTooLarge)
    ));
}

