//! The trusted-setup ceremony: samples the toxic waste, reduces the circuit's
//! R1CS to its QAP form, and derives the common reference string.
//!
//! Elements of the pairing groups G1 and G2 are modeled by their discrete
//! logarithm with respect to fixed generators g1 and g2, so each CRS entry
//! `[x]` is carried as the scalar exponent x and every algebraic relation
//! between entries is stated and proved exactly over the scalar field.

#![allow(non_snake_case)]

use vstd::prelude::*;
use rand::rngs::StdRng;
use crate::field::{
    fadd, fmul, fpow, finv, has_inverse, add_mod, mul_mod, inv_mod, lemma_finv_unique,
};
use crate::domain::{
    Domain, FieldSpec, is_domain_for, vanishing_at, in_domain,
    sample_outside_domain, lemma_domain_unique,
};
use crate::r1cs::R1cs;
use crate::qap::{QAP, QAPGenerationOutput, min_domain, reduce_output_ok, reduce_values};
use crate::sampling::sample_below;
use crate::CeremonyError;
use vstd::arithmetic::power2::pow2;

verus! {

/// An element of the pairing group G1, by its discrete logarithm to the
/// fixed generator g1.
#[derive(Clone, Copy, Debug, PartialEq, Eq, Structural)]
pub struct G1Element {
    pub exponent: u64,
}

/// An element of the pairing group G2, by its discrete logarithm to the
/// fixed generator g2.
#[derive(Clone, Copy, Debug, PartialEq, Eq, Structural)]
pub struct G2Element {
    pub exponent: u64,
}

/// The secret tuple of the ceremony. It exists only inside one ceremony run:
/// no executable function of the library ever returns or stores it, and it
/// is dropped on every exit path. τ is the evaluation point of the QAP; α
/// and β blind the committed polynomials; γ and δ separate the public-input
/// terms from the private-witness terms.
pub struct ToxicWaste {
    pub tau: u64,
    pub alpha: u64,
    pub beta: u64,
    pub gamma: u64,
    pub delta: u64,
}

/// The verifying key: `[α]₁`, `[β]₂`, `[γ]₂`, `[δ]₂`, and one G1 element
/// `[(β·Aᵢ(τ) + α·Bᵢ(τ) + Cᵢ(τ)) / γ]₁` per public input.
pub struct VerifyingKey {
    pub alpha_g1: G1Element,
    pub beta_g2: G2Element,
    pub gamma_g2: G2Element,
    pub delta_g2: G2Element,
    pub gamma_abc_g1: Vec<G1Element>,
}

/// The proving key: the verifying key together with `[β]₁`, `[δ]₁`, the
/// per-variable queries `[Aⱼ(τ)]₁`, `[Bⱼ(τ)]₁`, `[Bⱼ(τ)]₂`, the
/// private-witness terms `[(β·Aⱼ(τ) + α·Bⱼ(τ) + Cⱼ(τ)) / δ]₁`, and the
/// powers `[τ^k · Z(τ) / δ]₁` for the prover's quotient commitment.
pub struct ProvingKey {
    pub vk: VerifyingKey,
    pub beta_g1: G1Element,
    pub delta_g1: G1Element,
    pub a_query: Vec<G1Element>,
    pub b_g1_query: Vec<G1Element>,
    pub b_g2_query: Vec<G2Element>,
    pub l_query: Vec<G1Element>,
    pub h_query: Vec<G1Element>,
}

/// The combined term β·Aⱼ(τ) + α·Bⱼ(τ) + Cⱼ(τ) of witness slot j.
pub open spec fn combined_term(r: R1cs, out: QAPGenerationOutput, tw: ToxicWaste, j: int) -> int {
    let p = r.modulus as int;
    fadd(
        p,
        fadd(
            p,
            fmul(p, tw.beta as int, out.AAtTau@[j] as int),
            fmul(p, tw.alpha as int, out.BAtTau@[j] as int),
        ),
        out.CAtTau@[j] as int,
    )
}

/// What every CRS entry is, as a function of the R1CS, the QAP evaluation
/// output and the toxic waste.
pub open spec fn crs_matches(r: R1cs, out: QAPGenerationOutput, tw: ToxicWaste, pk: ProvingKey) -> bool {
    let p = r.modulus as int;
    let ws = r.witness_size();
    let ell = r.num_instance as int;
    let gi = finv(p, tw.gamma as int);
    let di = finv(p, tw.delta as int);
    let n = out.evaluationDomainSize as int;
    &&& pk.vk.alpha_g1.exponent == tw.alpha
    &&& pk.vk.beta_g2.exponent == tw.beta
    &&& pk.vk.gamma_g2.exponent == tw.gamma
    &&& pk.vk.delta_g2.exponent == tw.delta
    &&& pk.beta_g1.exponent == tw.beta
    &&& pk.delta_g1.exponent == tw.delta
    &&& pk.vk.gamma_abc_g1@.len() == ell
    &&& forall|i: int| 0 <= i < ell
        ==> (#[trigger] pk.vk.gamma_abc_g1@[i]).exponent == fmul(p, combined_term(r, out, tw, i), gi)
    &&& pk.a_query@.len() == ws
    &&& forall|j: int| 0 <= j < ws ==> (#[trigger] pk.a_query@[j]).exponent == out.AAtTau@[j]
    &&& pk.b_g1_query@.len() == ws
    &&& forall|j: int| 0 <= j < ws ==> (#[trigger] pk.b_g1_query@[j]).exponent == out.BAtTau@[j]
    &&& pk.b_g2_query@.len() == ws
    &&& forall|j: int| 0 <= j < ws ==> (#[trigger] pk.b_g2_query@[j]).exponent == out.BAtTau@[j]
    &&& pk.l_query@.len() == ws - ell
    &&& forall|j: int| 0 <= j < ws - ell
        ==> (#[trigger] pk.l_query@[j]).exponent == fmul(p, combined_term(r, out, tw, ell + j), di)
    &&& pk.h_query@.len() == n - 1
    &&& forall|k: int| 0 <= k < n - 1
        ==> (#[trigger] pk.h_query@[k]).exponent == fmul(
            p,
            fmul(p, fpow(p, tw.tau as int, k as nat), out.ZAtTau as int),
            di,
        )
}

/// What the sampled toxic waste owes: residues of the field, invertible γ
/// and δ, and a τ on which the vanishing polynomial of the circuit's domain
/// does not vanish.
pub open spec fn toxic_ok(fs: FieldSpec, r: R1cs, tw: ToxicWaste) -> bool {
    let p = fs.modulus as int;
    &&& tw.tau < fs.modulus
    &&& tw.alpha < fs.modulus
    &&& tw.beta < fs.modulus
    &&& tw.gamma < fs.modulus
    &&& tw.delta < fs.modulus
    &&& has_inverse(p, tw.gamma as int)
    &&& has_inverse(p, tw.delta as int)
    &&& forall|d: Domain| #[trigger] is_domain_for(fs, min_domain(r), d)
        ==> vanishing_at(d, tw.tau as int) != 0 && !in_domain(d, tw.tau as int)
}

/// A proving key the ceremony may hand out: derived, entry by entry, from
/// some toxic waste that satisfies its sampling contract and from the QAP of
/// the circuit at that toxic waste's τ.
pub open spec fn ceremony_ok(fs: FieldSpec, r: R1cs, pk: ProvingKey) -> bool {
    exists|tw: ToxicWaste, out: QAPGenerationOutput|
        toxic_ok(fs, r, tw) && reduce_output_ok(fs, r, tw.tau as int, out)
            && #[trigger] crs_matches(r, out, tw, pk)
}

/// Draws residues until one is invertible, handing back the residue and its
/// inverse; `DegenerateSample` after the retry bound.
fn sample_invertible(p: u64, rng: &mut StdRng) -> (r: Result<(u64, u64), CeremonyError>)
    requires
        p >= 2,
    ensures
        match r {
            Ok(pair) => pair.0 < p && pair.1 < p
                && fmul(p as int, pair.0 as int, pair.1 as int) == 1
                && has_inverse(p as int, pair.0 as int)
                && finv(p as int, pair.0 as int) == pair.1,
            Err(e) => e == CeremonyError::DegenerateSample,
        },
{
    let mut attempts: u64 = 0;
    while attempts < 64
        invariant
            p >= 2,
        decreases 64 - attempts,
    {
        let g = sample_below(rng, p);
        match inv_mod(p, g) {
            Some(gi) => {
                proof {
                    lemma_finv_unique(p as int, g as int, gi as int);
                }
                return Ok((g, gi));
            },
            None => {},
        }
        attempts = attempts + 1;
    }
    Err(CeremonyError::DegenerateSample)
}

/// Derives every entry of the common reference string from the QAP
/// evaluations and the secret tuple, by plain field arithmetic on the
/// modeled exponents.
fn assemble_crs(
    r1cs: &R1cs,
    out: &QAPGenerationOutput,
    tw: &ToxicWaste,
    gamma_inv: u64,
    delta_inv: u64,
) -> (pk: ProvingKey)
    requires
        r1cs.wf(),
        out.AAtTau@.len() == r1cs.witness_size(),
        out.BAtTau@.len() == r1cs.witness_size(),
        out.CAtTau@.len() == r1cs.witness_size(),
        forall|j: int| 0 <= j < r1cs.witness_size() ==> out.AAtTau@[j] < r1cs.modulus,
        forall|j: int| 0 <= j < r1cs.witness_size() ==> out.BAtTau@[j] < r1cs.modulus,
        forall|j: int| 0 <= j < r1cs.witness_size() ==> out.CAtTau@[j] < r1cs.modulus,
        out.ZAtTau < r1cs.modulus,
        out.evaluationDomainSize >= 1,
        out.evaluationDomainSize <= usize::MAX,
        tw.tau < r1cs.modulus,
        tw.alpha < r1cs.modulus,
        tw.beta < r1cs.modulus,
        tw.gamma < r1cs.modulus,
        tw.delta < r1cs.modulus,
        gamma_inv < r1cs.modulus,
        delta_inv < r1cs.modulus,
        gamma_inv as int == finv(r1cs.modulus as int, tw.gamma as int),
        delta_inv as int == finv(r1cs.modulus as int, tw.delta as int),
    ensures
        crs_matches(*r1cs, *out, *tw, pk),
{
    let p = r1cs.modulus;
    let ws = r1cs.num_instance + r1cs.num_witness;
    let ell = r1cs.num_instance;
    let mut gamma_abc: Vec<G1Element> = Vec::new();
    let mut i: usize = 0;
    while i < ell
        invariant
            p == r1cs.modulus,
            r1cs.wf(),
            ell == r1cs.num_instance,
            ws == r1cs.witness_size(),
            ell <= ws,
            out.AAtTau@.len() == ws,
            out.BAtTau@.len() == ws,
            out.CAtTau@.len() == ws,
            forall|j: int| 0 <= j < ws ==> out.AAtTau@[j] < p,
            forall|j: int| 0 <= j < ws ==> out.BAtTau@[j] < p,
            forall|j: int| 0 <= j < ws ==> out.CAtTau@[j] < p,
            tw.alpha < p,
            tw.beta < p,
            gamma_inv < p,
            i <= ell,
            gamma_abc.len() == i,
            forall|t: int| 0 <= t < i ==> (#[trigger] gamma_abc[t]).exponent == fmul(
                p as int,
                combined_term(*r1cs, *out, *tw, t),
                gamma_inv as int,
            ),
        decreases ell - i,
    {
        let term = add_mod(
            p,
            add_mod(
                p,
                mul_mod(p, tw.beta, out.AAtTau[i]),
                mul_mod(p, tw.alpha, out.BAtTau[i]),
            ),
            out.CAtTau[i],
        );
        gamma_abc.push(G1Element { exponent: mul_mod(p, term, gamma_inv) });
        i = i + 1;
    }
    let mut a_query: Vec<G1Element> = Vec::new();
    let mut b_g1_query: Vec<G1Element> = Vec::new();
    let mut b_g2_query: Vec<G2Element> = Vec::new();
    let mut j: usize = 0;
    while j < ws
        invariant
            ws == r1cs.witness_size(),
            out.AAtTau@.len() == ws,
            out.BAtTau@.len() == ws,
            j <= ws,
            a_query.len() == j,
            b_g1_query.len() == j,
            b_g2_query.len() == j,
            forall|t: int| 0 <= t < j ==> (#[trigger] a_query[t]).exponent == out.AAtTau@[t],
            forall|t: int| 0 <= t < j ==> (#[trigger] b_g1_query[t]).exponent == out.BAtTau@[t],
            forall|t: int| 0 <= t < j ==> (#[trigger] b_g2_query[t]).exponent == out.BAtTau@[t],
        decreases ws - j,
    {
        a_query.push(G1Element { exponent: out.AAtTau[j] });
        b_g1_query.push(G1Element { exponent: out.BAtTau[j] });
        b_g2_query.push(G2Element { exponent: out.BAtTau[j] });
        j = j + 1;
    }
    let mut l_query: Vec<G1Element> = Vec::new();
    let mut j2: usize = ell;
    while j2 < ws
        invariant
            p == r1cs.modulus,
            r1cs.wf(),
            ell == r1cs.num_instance,
            ws == r1cs.witness_size(),
            ell <= j2,
            j2 <= ws,
            out.AAtTau@.len() == ws,
            out.BAtTau@.len() == ws,
            out.CAtTau@.len() == ws,
            forall|t: int| 0 <= t < ws ==> out.AAtTau@[t] < p,
            forall|t: int| 0 <= t < ws ==> out.BAtTau@[t] < p,
            forall|t: int| 0 <= t < ws ==> out.CAtTau@[t] < p,
            tw.alpha < p,
            tw.beta < p,
            delta_inv < p,
            l_query.len() == j2 - ell,
            forall|t: int| 0 <= t < j2 - ell ==> (#[trigger] l_query[t]).exponent == fmul(
                p as int,
                combined_term(*r1cs, *out, *tw, ell + t),
                delta_inv as int,
            ),
        decreases ws - j2,
    {
        let term = add_mod(
            p,
            add_mod(
                p,
                mul_mod(p, tw.beta, out.AAtTau[j2]),
                mul_mod(p, tw.alpha, out.BAtTau[j2]),
            ),
            out.CAtTau[j2],
        );
        l_query.push(G1Element { exponent: mul_mod(p, term, delta_inv) });
        j2 = j2 + 1;
    }
    let n: usize = out.evaluationDomainSize as usize;
    let mut h_query: Vec<G1Element> = Vec::new();
    let mut cur: u64 = 1;
    proof {
        vstd::arithmetic::div_mod::lemma_small_mod(1nat, p as nat);
        vstd::arithmetic::power::lemma_pow0(tw.tau as int);
    }
    let mut k: usize = 0;
    while k < n - 1
        invariant
            p == r1cs.modulus,
            p >= 2,
            n >= 1,
            tw.tau < p,
            out.ZAtTau < p,
            delta_inv < p,
            k <= n - 1,
            cur < p,
            cur == fpow(p as int, tw.tau as int, k as nat),
            h_query.len() == k,
            forall|t: int| 0 <= t < k ==> (#[trigger] h_query[t]).exponent == fmul(
                p as int,
                fmul(p as int, fpow(p as int, tw.tau as int, t as nat), out.ZAtTau as int),
                delta_inv as int,
            ),
        decreases n - 1 - k,
    {
        h_query.push(G1Element {
            exponent: mul_mod(p, mul_mod(p, cur, out.ZAtTau), delta_inv),
        });
        proof {
            crate::field::lemma_fpow_step(p as int, tw.tau as int, k as nat);
        }
        cur = mul_mod(p, cur, tw.tau);
        k = k + 1;
    }
    let vk = VerifyingKey {
        alpha_g1: G1Element { exponent: tw.alpha },
        beta_g2: G2Element { exponent: tw.beta },
        gamma_g2: G2Element { exponent: tw.gamma },
        delta_g2: G2Element { exponent: tw.delta },
        gamma_abc_g1: gamma_abc,
    };
    ProvingKey {
        vk,
        beta_g1: G1Element { exponent: tw.beta },
        delta_g1: G1Element { exponent: tw.delta },
        a_query,
        b_g1_query,
        b_g2_query,
        l_query,
        h_query,
    }
}

/// Namespace of the ceremony that derives a polynomial-commitment common
/// reference string for one circuit.
pub struct KZGPolynomialCommitmentScheme {}

impl KZGPolynomialCommitmentScheme {
    /// Samples the secret tuple of the ceremony: α, β, γ, δ uniform (γ and δ
    /// retried until invertible), and τ rejected until it lies outside the
    /// circuit's evaluation domain, so that Z(τ) is non-zero and the
    /// divisions of the key derivation are defined.
    fn generateToxicWaste(fs: &FieldSpec, r1cs: &R1cs, rng: &mut StdRng) -> (r: Result<
        ToxicWaste,
        CeremonyError,
    >)
        requires
            fs.wf(),
            r1cs.wf(),
            r1cs.modulus == fs.modulus,
            min_domain(*r1cs) <= usize::MAX / 2 + 1,
        ensures
            r.is_ok() ==> min_domain(*r1cs) <= pow2(fs.adicity as nat),
            match r {
                Ok(tw) => toxic_ok(*fs, *r1cs, tw),
                Err(e) => {
                    ||| (e == CeremonyError::DomainTooLarge
                        && min_domain(*r1cs) > pow2(fs.adicity as nat))
                    ||| (e == CeremonyError::DegenerateSample
                        && min_domain(*r1cs) <= pow2(fs.adicity as nat))
                },
            },
    {
        let p = fs.modulus;
        let d = match QAP::getEvaluationDomain(fs, r1cs) {
            Ok(d) => d,
            Err(e) => {
                return Err(e);
            },
        };
        let alpha = sample_below(rng, p);
        let beta = sample_below(rng, p);
        let (gamma, _gamma_inv) = match sample_invertible(p, rng) {
            Ok(pair) => pair,
            Err(e) => {
                return Err(e);
            },
        };
        let (delta, _delta_inv) = match sample_invertible(p, rng) {
            Ok(pair) => pair,
            Err(e) => {
                return Err(e);
            },
        };
        let tau = match sample_outside_domain(&d, rng) {
            Ok(t) => t,
            Err(e) => {
                return Err(e);
            },
        };
        let tw = ToxicWaste { tau, alpha, beta, gamma, delta };
        proof {
            assert forall|d2: Domain| #[trigger] is_domain_for(*fs, min_domain(*r1cs), d2)
                implies vanishing_at(d2, tw.tau as int) != 0 && !in_domain(d2, tw.tau as int) by {
                lemma_domain_unique(*fs, min_domain(*r1cs), d, d2);
            }
        }
        Ok(tw)
    }

    /// Runs the whole ceremony for one circuit: obtains the evaluation
    /// domain, samples toxic waste, reduces the R1CS to its QAP at τ, and
    /// derives the proving key (which carries the verifying key). The
    /// secret tuple never leaves this call.
    pub fn performTrustedSetupCeremony(fs: &FieldSpec, r1cs: &R1cs, rng: &mut StdRng) -> (r:
        Result<ProvingKey, CeremonyError>)
        requires
            fs.wf(),
            r1cs.wf(),
            r1cs.modulus == fs.modulus,
            min_domain(*r1cs) <= usize::MAX / 2 + 1,
        ensures
            r.is_ok() ==> min_domain(*r1cs) <= pow2(fs.adicity as nat),
            match r {
                Ok(pk) => ceremony_ok(*fs, *r1cs, pk),
                Err(e) => {
                    ||| (e == CeremonyError::DomainTooLarge
                        && min_domain(*r1cs) > pow2(fs.adicity as nat))
                    ||| (e == CeremonyError::DegenerateSample
                        && min_domain(*r1cs) <= pow2(fs.adicity as nat))
                },
            },
    {
        let p = fs.modulus;
        let tw = match Self::generateToxicWaste(fs, r1cs, rng) {
            Ok(tw) => tw,
            Err(e) => {
                return Err(e);
            },
        };
        let out = match QAP::generateFromR1CS(fs, r1cs, tw.tau) {
            Ok(o) => o,
            Err(e) => {
                return Err(e);
            },
        };
        let gamma_inv = match inv_mod(p, tw.gamma) {
            Some(gi) => gi,
            None => {
                proof {
                    assert(false);
                }
                return Err(CeremonyError::NonInvertible);
            },
        };
        let delta_inv = match inv_mod(p, tw.delta) {
            Some(di) => di,
            None => {
                proof {
                    assert(false);
                }
                return Err(CeremonyError::NonInvertible);
            },
        };
        proof {
            lemma_finv_unique(p as int, tw.gamma as int, gamma_inv as int);
            lemma_finv_unique(p as int, tw.delta as int, delta_inv as int);
            let dd = choose|d: Domain|
                #[trigger] is_domain_for(*fs, min_domain(*r1cs), d)
                    && reduce_values(*r1cs, d, tw.tau as int, out);
            vstd::arithmetic::power2::lemma_pow2_pos(dd.log_size as nat);
        }
        let pk = assemble_crs(r1cs, &out, &tw, gamma_inv, delta_inv);
        proof {
            assert(toxic_ok(*fs, *r1cs, tw) && reduce_output_ok(*fs, *r1cs, tw.tau as int, out)
                && crs_matches(*r1cs, out, tw, pk));
        }
        Ok(pk)
    }
}

} // verus!
