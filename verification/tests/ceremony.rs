use groth_setup::domain::FieldSpec;
use groth_setup::kzg::{KZGPolynomialCommitmentScheme, ProvingKey};
use groth_setup::r1cs::R1cs;
use rand::SeedableRng;

const P: u64 = 17;

fn fs17() -> FieldSpec {
    FieldSpec::new(P, 4, 3).expect("3 has order 16 mod 17")
}

/// The single constraint x * y = z over the witness vector [1, x, y, z].
fn mul_circuit() -> R1cs {
    R1cs {
        modulus: P,
        num_instance: 1,
        num_witness: 3,
        a: vec![vec![(1, 1)]],
        b: vec![vec![(1, 2)]],
        c: vec![vec![(1, 3)]],
    }
}

fn run_ceremony(seed: u64) -> ProvingKey {
    let mut rng = rand::rngs::StdRng::seed_from_u64(seed);
    KZGPolynomialCommitmentScheme::performTrustedSetupCeremony(&fs17(), &mul_circuit(), &mut rng)
        .expect("ceremony over the prime field succeeds")
}

fn addp(a: u64, b: u64) -> u64 {
    (a + b) % P
}

fn subp(a: u64, b: u64) -> u64 {
    (a + P - b % P) % P
}

fn mulp(a: u64, b: u64) -> u64 {
    (a * b) % P
}

/// The Groth16 prover over the modeled groups, for the witness vector `w`
/// of the x * y = z circuit, with randomizers `r` and `s` and the prover's
/// quotient polynomial H given by its coefficients `h` (degree <= n - 2).
fn prove(pk: &ProvingKey, w: [u64; 4], h: [u64; 1], r: u64, s: u64) -> (u64, u64, u64) {
    let delta = pk.delta_g1.exponent;
    let alpha = pk.vk.alpha_g1.exponent;
    let beta = pk.beta_g1.exponent;
    let mut aw = 0;
    let mut bw = 0;
    for j in 0..4 {
        aw = addp(aw, mulp(w[j], pk.a_query[j].exponent));
        bw = addp(bw, mulp(w[j], pk.b_g1_query[j].exponent));
    }
    let a = addp(addp(alpha, aw), mulp(r, delta));
    let b = addp(addp(beta, bw), mulp(s, delta));
    let mut c = 0;
    for j in 1..4 {
        c = addp(c, mulp(w[j], pk.l_query[j - 1].exponent));
    }
    for k in 0..1 {
        c = addp(c, mulp(h[k], pk.h_query[k].exponent));
    }
    c = addp(c, mulp(s, a));
    c = addp(c, mulp(r, b));
    c = subp(c, mulp(mulp(r, s), delta));
    (a, b, c)
}

/// The Groth16 verification equation over the modeled groups: a pairing
/// e(g1^x, g2^y) is gt^(x*y), so products of pairings add exponents.
fn verify(pk: &ProvingKey, public_inputs: [u64; 1], proof: (u64, u64, u64)) -> bool {
    let (a, b, c) = proof;
    let vk = &pk.vk;
    let lhs = mulp(a, b);
    let mut pub_sum = 0;
    for i in 0..1 {
        pub_sum = addp(pub_sum, mulp(public_inputs[i], vk.gamma_abc_g1[i].exponent));
    }
    let rhs = addp(
        addp(
            mulp(vk.alpha_g1.exponent, vk.beta_g2.exponent),
            mulp(pub_sum, vk.gamma_g2.exponent),
        ),
        mulp(c, vk.delta_g2.exponent),
    );
    lhs == rhs
}

#[test]
fn ceremony_produces_full_crs() {
    let pk = run_ceremony(7);
    assert_eq!(pk.a_query.len(), 4);
    assert_eq!(pk.b_g1_query.len(), 4);
    assert_eq!(pk.b_g2_query.len(), 4);
    assert_eq!(pk.l_query.len(), 3);
    assert_eq!(pk.h_query.len(), 1); // domain size 2, powers 0..=0
    assert_eq!(pk.vk.gamma_abc_g1.len(), 1);
    for j in 0..4 {
        assert!(pk.a_query[j].exponent < P);
        assert_eq!(pk.b_g1_query[j].exponent, pk.b_g2_query[j].exponent);
    }
}

#[test]
fn ceremonies_with_different_seeds_differ() {
    let pk1 = run_ceremony(1);
    let pk2 = run_ceremony(2);
    assert_ne!(
        (
            pk1.vk.alpha_g1.exponent,
            pk1.vk.beta_g2.exponent,
            pk1.vk.gamma_g2.exponent,
            pk1.vk.delta_g2.exponent,
        ),
        (
            pk2.vk.alpha_g1.exponent,
            pk2.vk.beta_g2.exponent,
            pk2.vk.gamma_g2.exponent,
            pk2.vk.delta_g2.exponent,
        ),
        "secret scalars repeat across seeds"
    );
    let tau_terms_1: Vec<u64> = pk1.h_query.iter().map(|g| g.exponent).collect();
    let tau_terms_2: Vec<u64> = pk2.h_query.iter().map(|g| g.exponent).collect();
    let abc_1: Vec<u64> = pk1.vk.gamma_abc_g1.iter().map(|g| g.exponent).collect();
    let abc_2: Vec<u64> = pk2.vk.gamma_abc_g1.iter().map(|g| g.exponent).collect();
    let queries_1: Vec<u64> = pk1.a_query.iter().map(|g| g.exponent).collect();
    let queries_2: Vec<u64> = pk2.a_query.iter().map(|g| g.exponent).collect();
    assert!(
        tau_terms_1 != tau_terms_2 || abc_1 != abc_2 || queries_1 != queries_2,
        "every toxic-waste-dependent query repeated across seeds"
    );
}

#[test]
fn honest_proof_verifies() {
    // 3 * 4 = 12, witness [1, x, y, z] = [1, 3, 4, 12].
    // A_w(X) = X + 2, B_w(X) = 2X + 2, C_w(X) = 6X + 6 over the domain
    // {1, 16}; A_w B_w - C_w = 2(X^2 - 1), so H(X) = 2.
    let pk = run_ceremony(7);
    let proof = prove(&pk, [1, 3, 4, 12], [2], 5, 9);
    assert!(verify(&pk, [1], proof));
}

#[test]
fn honest_proof_verifies_with_other_randomizers() {
    let pk = run_ceremony(11);
    assert!(verify(&pk, [1], prove(&pk, [1, 3, 4, 12], [2], 0, 0)));
    assert!(verify(&pk, [1], prove(&pk, [1, 3, 4, 12], [2], 16, 1)));
}

#[test]
fn violating_witness_is_rejected() {
    // 3 * 4 != 13: the quotient division leaves the remainder 8X + 8, whose
    // only root 16 lies inside the domain, while tau never does; the honest
    // prover's proof cannot verify.
    let pk = run_ceremony(7);
    let proof = prove(&pk, [1, 3, 4, 13], [2], 5, 9);
    assert!(!verify(&pk, [1], proof));
}

#[test]
fn wrong_public_input_is_rejected() {
    let pk = run_ceremony(7);
    let proof = prove(&pk, [1, 3, 4, 12], [2], 5, 9);
    assert!(!verify(&pk, [2], proof));
}
