//! Reduction of an R1CS to a Quadratic Arithmetic Program, represented by
//! the values of its variable polynomials at one secret evaluation point.

#![allow(non_snake_case)]

use vstd::prelude::*;
use crate::field::{
    fadd, fmul, add_mod, mul_mod,
    lemma_fadd_assoc, lemma_fadd_zero, lemma_fmul_distrib,
};
use crate::domain::{
    Domain, FieldSpec, is_domain_for, build_domain, evaluate_vanishing,
    evaluate_all_lagrange_bases, vanishing_at, lagrange_at,
    lemma_domain_unique, lemma_lagrange_denoms_invertible,
};
use crate::r1cs::{R1cs, row_ok, rows_ok};
use crate::CeremonyError;
use vstd::arithmetic::power2::pow2;

verus! {

/// A sequence of residues, as mathematical integers.
pub open spec fn residues(s: Seq<u64>) -> Seq<int> {
    s.map(|i: int, v: u64| v as int)
}

/// The field sum of the coefficients at column `j` among the first `k`
/// entries of a sparse row.
pub open spec fn row_coeff_prefix(p: int, row: Seq<(u64, usize)>, k: nat, j: int) -> int
    decreases k,
{
    if k == 0 {
        0int
    } else {
        let prev = row_coeff_prefix(p, row, (k - 1) as nat, j);
        if row[k - 1].1 == j {
            fadd(p, prev, row[k - 1].0 as int)
        } else {
            prev
        }
    }
}

/// The coefficient of variable `j` in a sparse row, as a residue.
pub open spec fn row_coeff(p: int, row: Seq<(u64, usize)>, j: int) -> int {
    row_coeff_prefix(p, row, row.len(), j)
}

/// The field sum, over the first `k` entries of a row, of coefficient times
/// `lag_i` at column `j`: the exact order in which the reduction accumulates.
pub open spec fn entry_sum_prefix(p: int, row: Seq<(u64, usize)>, k: nat, j: int, lag_i: int) -> int
    decreases k,
{
    if k == 0 {
        0int
    } else {
        let prev = entry_sum_prefix(p, row, (k - 1) as nat, j, lag_i);
        if row[k - 1].1 == j {
            fadd(p, prev, fmul(p, row[k - 1].0 as int, lag_i))
        } else {
            prev
        }
    }
}

/// The value of variable `j`'s polynomial at the evaluation point, over the
/// first `m` constraints: sum over rows i of (coefficient of j in row i)
/// times (Lagrange basis i at the point).
pub open spec fn column_sum(p: int, rows: Seq<Vec<(u64, usize)>>, lag: Seq<int>, j: int, m: nat) -> int
    decreases m,
{
    if m == 0 {
        0int
    } else {
        fadd(
            p,
            column_sum(p, rows, lag, j, (m - 1) as nat),
            fmul(p, row_coeff(p, rows[m - 1]@, j), lag[m - 1]),
        )
    }
}

/// Accumulating coefficient-by-coefficient products of one row is the same
/// as scaling the row's summed coefficient by the basis value.
proof fn lemma_entry_sum_is_scaled_coeff(p: int, row: Seq<(u64, usize)>, k: nat, j: int, lag_i: int)
    requires
        p >= 2,
    ensures
        entry_sum_prefix(p, row, k, j, lag_i) == fmul(p, row_coeff_prefix(p, row, k, j), lag_i),
    decreases k,
{
    if k == 0 {
        vstd::arithmetic::div_mod::lemma_small_mod(0nat, p as nat);
    } else {
        lemma_entry_sum_is_scaled_coeff(p, row, (k - 1) as nat, j, lag_i);
        if row[k - 1].1 == j {
            lemma_fmul_distrib(p, row_coeff_prefix(p, row, (k - 1) as nat, j), row[k - 1].0 as int, lag_i);
        }
    }
}

/// Adds, for every constraint row, each entry's coefficient scaled by that
/// row's Lagrange value into the accumulator slot of the entry's variable.
fn accumulate_matrix(p: u64, acc0: Vec<u64>, rows: &Vec<Vec<(u64, usize)>>, lag: &Vec<u64>) -> (r: Vec<u64>)
    requires
        p >= 2,
        forall|j: int| 0 <= j < acc0.len() ==> acc0[j] < p,
        rows_ok(p as int, rows@, acc0.len() as int),
        rows.len() <= lag.len(),
        forall|i: int| 0 <= i < lag.len() ==> lag[i] < p,
    ensures
        r.len() == acc0.len(),
        forall|j: int| 0 <= j < r.len() ==> r[j] == fadd(
            p as int,
            acc0[j] as int,
            column_sum(p as int, rows@, residues(lag@), j, rows.len() as nat),
        ),
        forall|j: int| 0 <= j < r.len() ==> r[j] < p,
{
    let mut acc = acc0;
    let ghost init = acc@;
    let ghost lagr = residues(lag@);
    proof {
        assert forall|j: int| 0 <= j < acc.len() implies acc[j] == fadd(
            p as int,
            init[j] as int,
            column_sum(p as int, rows@, lagr, j, 0nat),
        ) by {
            lemma_fadd_zero(p as int, init[j] as int);
        }
    }
    let mut i: usize = 0;
    while i < rows.len()
        invariant
            p >= 2,
            i <= rows.len(),
            acc.len() == init.len(),
            lagr == residues(lag@),
            rows.len() <= lag.len(),
            forall|t: int| 0 <= t < lag.len() ==> lag[t] < p,
            rows_ok(p as int, rows@, init.len() as int),
            forall|j: int| 0 <= j < acc.len() ==> acc[j] < p,
            forall|j: int| 0 <= j < acc.len() ==> acc[j] == fadd(
                p as int,
                init[j] as int,
                column_sum(p as int, rows@, lagr, j, i as nat),
            ),
        decreases rows.len() - i,
    {
        let lv: u64 = lag[i];
        let ghost base = acc@;
        let ghost rowview = rows[i as int]@;
        proof {
            assert(row_ok(p as int, rowview, init.len() as int));
            assert forall|j: int| 0 <= j < acc.len() implies acc[j] == fadd(
                p as int,
                base[j] as int,
                entry_sum_prefix(p as int, rowview, 0nat, j, lv as int),
            ) by {
                lemma_fadd_zero(p as int, base[j] as int);
            }
        }
        let row_len: usize = rows[i].len();
        let mut k: usize = 0;
        while k < row_len
            invariant
                p >= 2,
                i < rows.len(),
                k <= row_len,
                lv < p,
                rowview == rows[i as int]@,
                row_len == rowview.len(),
                row_ok(p as int, rowview, base.len() as int),
                acc.len() == base.len(),
                forall|j: int| 0 <= j < base.len() ==> base[j] < p,
                forall|j: int| 0 <= j < acc.len() ==> acc[j] < p,
                forall|j: int| 0 <= j < acc.len() ==> acc[j] == fadd(
                    p as int,
                    base[j] as int,
                    entry_sum_prefix(p as int, rowview, k as nat, j, lv as int),
                ),
            decreases row_len - k,
        {
            let entry: (u64, usize) = rows[i][k];
            let coeff: u64 = entry.0;
            let jcol: usize = entry.1;
            proof {
                assert(rowview[k as int].0 < p && rowview[k as int].1 < base.len());
            }
            let ghost acc_prev = acc@;
            let val = add_mod(p, acc[jcol], mul_mod(p, coeff, lv));
            acc[jcol] = val;
            proof {
                assert forall|j: int| 0 <= j < acc.len() implies acc[j] == fadd(
                    p as int,
                    base[j] as int,
                    entry_sum_prefix(p as int, rowview, (k + 1) as nat, j, lv as int),
                ) by {
                    if j == jcol {
                        lemma_fadd_assoc(
                            p as int,
                            base[j] as int,
                            entry_sum_prefix(p as int, rowview, k as nat, j, lv as int),
                            fmul(p as int, coeff as int, lv as int),
                        );
                    } else {
                        assert(acc[j] == acc_prev[j]);
                    }
                }
            }
            k = k + 1;
        }
        proof {
            assert forall|j: int| 0 <= j < acc.len() implies acc[j] == fadd(
                p as int,
                init[j] as int,
                column_sum(p as int, rows@, lagr, j, (i + 1) as nat),
            ) by {
                lemma_entry_sum_is_scaled_coeff(p as int, rowview, row_len as nat, j, lv as int);
                assert(row_coeff_prefix(p as int, rowview, rowview.len(), j)
                    == row_coeff(p as int, rowview, j));
                assert(lagr[i as int] == lag[i as int] as int);
                lemma_fadd_assoc(
                    p as int,
                    init[j] as int,
                    column_sum(p as int, rows@, lagr, j, i as nat),
                    fmul(p as int, row_coeff(p as int, rowview, j), lv as int),
                );
            }
        }
        i = i + 1;
    }
    acc
}

/// The Lagrange bases of a domain, evaluated at one point, as a sequence of
/// residues.
pub open spec fn lagrange_seq(d: Domain, x: int) -> Seq<int> {
    Seq::new(d.size as nat, |i: int| lagrange_at(d, i as nat, x))
}

/// The size the evaluation domain of an R1CS is built for.
pub open spec fn min_domain(r: R1cs) -> int {
    r.a@.len() + r.num_instance
}

/// The starting value of variable `j`'s accumulator: the public-input block
/// is seeded with the Lagrange bases of the domain slots that follow the
/// constraint slots, so that each public input's polynomial is one basis.
pub open spec fn instance_init(r: R1cs, lag: Seq<int>, j: int) -> int {
    if j < r.num_instance {
        lag[r.a@.len() + j]
    } else {
        0int
    }
}

/// The QAP of an R1CS, evaluated at the secret point τ: for each witness
/// slot the three variable polynomials at τ, with the vanishing polynomial
/// at τ and the bookkeeping counts.
pub struct QAPGenerationOutput {
    pub qapVariableCount: usize,
    pub evaluationDomainSize: u64,
    pub AAtTau: Vec<u64>,
    pub BAtTau: Vec<u64>,
    pub CAtTau: Vec<u64>,
    pub ZAtTau: u64,
}

/// What `generateFromR1CS` owes for a given domain: every output field is a
/// function of the R1CS, the domain and τ alone.
pub open spec fn reduce_values(r: R1cs, d: Domain, tau: int, out: QAPGenerationOutput) -> bool {
    let p = r.modulus as int;
    let m = r.a@.len() as nat;
    let lag = lagrange_seq(d, tau);
    let ws = r.witness_size();
    &&& out.qapVariableCount == ws - 1
    &&& out.evaluationDomainSize == d.size as u64
    &&& out.ZAtTau == vanishing_at(d, tau)
    &&& out.ZAtTau < r.modulus
    &&& out.AAtTau@.len() == ws
    &&& out.BAtTau@.len() == ws
    &&& out.CAtTau@.len() == ws
    &&& forall|j: int| 0 <= j < ws ==> out.AAtTau@[j] == fadd(
        p,
        instance_init(r, lag, j),
        column_sum(p, r.a@, lag, j, m),
    )
    &&& forall|j: int| 0 <= j < ws ==> out.BAtTau@[j] == fadd(
        p,
        0int,
        column_sum(p, r.b@, lag, j, m),
    )
    &&& forall|j: int| 0 <= j < ws ==> out.CAtTau@[j] == fadd(
        p,
        0int,
        column_sum(p, r.c@, lag, j, m),
    )
    &&& forall|j: int| 0 <= j < ws ==> out.AAtTau@[j] < r.modulus
    &&& forall|j: int| 0 <= j < ws ==> out.BAtTau@[j] < r.modulus
    &&& forall|j: int| 0 <= j < ws ==> out.CAtTau@[j] < r.modulus
}

/// The reduction succeeded on its unique domain.
pub open spec fn reduce_output_ok(fs: FieldSpec, r: R1cs, tau: int, out: QAPGenerationOutput) -> bool {
    exists|d: Domain| #[trigger] is_domain_for(fs, min_domain(r), d) && reduce_values(r, d, tau, out)
}

/// A vector of `len` zero residues.
fn zero_vec(len: usize) -> (r: Vec<u64>)
    ensures
        r.len() == len,
        forall|j: int| 0 <= j < len ==> r[j] == 0,
{
    let mut v: Vec<u64> = Vec::new();
    let mut j: usize = 0;
    while j < len
        invariant
            j <= len,
            v.len() == j,
            forall|t: int| 0 <= t < j ==> v[t] == 0,
        decreases len - j,
    {
        v.push(0);
        j = j + 1;
    }
    v
}

/// Reduces a Rank-1 Constraint System to a single quadratic constraint over
/// polynomials: the Quadratic Arithmetic Program, kept in its
/// evaluation-at-τ form.
pub struct QAP {}

impl QAP {
    /// The evaluation domain of an R1CS: sized from the constraint count
    /// plus the instance-variable count.
    pub fn getEvaluationDomain(fs: &FieldSpec, r1cs: &R1cs) -> (r: Result<Domain, CeremonyError>)
        requires
            fs.wf(),
            r1cs.wf(),
            r1cs.modulus == fs.modulus,
            min_domain(*r1cs) <= usize::MAX / 2 + 1,
        ensures
            r.is_ok() <==> min_domain(*r1cs) <= pow2(fs.adicity as nat),
            match r {
                Ok(d) => is_domain_for(*fs, min_domain(*r1cs), d),
                Err(e) => e == CeremonyError::DomainTooLarge,
            },
    {
        build_domain(fs, r1cs.a.len() + r1cs.num_instance)
    }

    /// Generates the QAP of `r1cs`, evaluated at the point `tau`.
    ///
    /// Each output entry `AAtTau[j]` is the weighted sum over constraints i
    /// of (coefficient of variable j in A's row i) times (Lagrange basis i
    /// at τ), with the public-input block seeded by the bases of the slots
    /// after the constraints; identically for B and C without the seeding.
    /// `DomainTooLarge`, the only failure, comes exactly when the field's
    /// 2-adicity cannot cover the domain: over the prime modulus every
    /// closed-form Lagrange denominator is proved invertible.
    pub fn generateFromR1CS(fs: &FieldSpec, r1cs: &R1cs, tau: u64) -> (r: Result<
        QAPGenerationOutput,
        CeremonyError,
    >)
        requires
            fs.wf(),
            r1cs.wf(),
            r1cs.modulus == fs.modulus,
            tau < r1cs.modulus,
            min_domain(*r1cs) <= usize::MAX / 2 + 1,
        ensures
            r.is_ok() <==> min_domain(*r1cs) <= pow2(fs.adicity as nat),
            match r {
                Ok(out) => reduce_output_ok(*fs, *r1cs, tau as int, out),
                Err(e) => e == CeremonyError::DomainTooLarge
                    && min_domain(*r1cs) > pow2(fs.adicity as nat),
            },
    {
        let p = r1cs.modulus;
        let d = match Self::getEvaluationDomain(fs, r1cs) {
            Ok(d) => d,
            Err(e) => {
                return Err(e);
            },
        };
        let z = evaluate_vanishing(&d, tau);
        let lag = match evaluate_all_lagrange_bases(&d, tau) {
            Ok(v) => v,
            Err(e) => {
                proof {
                    lemma_lagrange_denoms_invertible(d, tau as int);
                    assert(false);
                }
                return Err(e);
            },
        };
        let m = r1cs.a.len();
        let ell = r1cs.num_instance;
        let ws = r1cs.num_instance + r1cs.num_witness;
        let mut a_init: Vec<u64> = Vec::new();
        let mut j: usize = 0;
        while j < ws
            invariant
                j <= ws,
                p >= 2,
                ell == r1cs.num_instance,
                m == r1cs.a.len(),
                ws == r1cs.witness_size(),
                m + ell <= lag.len(),
                forall|t: int| 0 <= t < lag.len() ==> lag[t] < p,
                a_init.len() == j,
                forall|t: int| 0 <= t < j ==> a_init[t] as int == instance_init(
                    *r1cs,
                    residues(lag@),
                    t,
                ),
                forall|t: int| 0 <= t < j ==> a_init[t] < p,
            decreases ws - j,
        {
            if j < ell {
                a_init.push(lag[m + j]);
            } else {
                a_init.push(0);
            }
            j = j + 1;
        }
        let a_at = accumulate_matrix(p, a_init, &r1cs.a, &lag);
        let b_at = accumulate_matrix(p, zero_vec(ws), &r1cs.b, &lag);
        let c_at = accumulate_matrix(p, zero_vec(ws), &r1cs.c, &lag);
        let out = QAPGenerationOutput {
            qapVariableCount: ws - 1,
            evaluationDomainSize: d.size as u64,
            AAtTau: a_at,
            BAtTau: b_at,
            CAtTau: c_at,
            ZAtTau: z,
        };
        proof {
            let lagS = lagrange_seq(d, tau as int);
            assert(residues(lag@) =~= lagS);
            assert(is_domain_for(*fs, min_domain(*r1cs), d));
            assert(reduce_values(*r1cs, d, tau as int, out));
        }
        Ok(out)
    }
}

/// The reduction is a pure function of its R1CS and its τ: any two outputs
/// it owes for the same inputs agree in every field.
pub proof fn lemma_reduce_deterministic(
    fs: FieldSpec,
    r: R1cs,
    tau: int,
    o1: QAPGenerationOutput,
    o2: QAPGenerationOutput,
)
    requires
        reduce_output_ok(fs, r, tau, o1),
        reduce_output_ok(fs, r, tau, o2),
    ensures
        o1.qapVariableCount == o2.qapVariableCount,
        o1.evaluationDomainSize == o2.evaluationDomainSize,
        o1.ZAtTau == o2.ZAtTau,
        o1.AAtTau@ == o2.AAtTau@,
        o1.BAtTau@ == o2.BAtTau@,
        o1.CAtTau@ == o2.CAtTau@,
{
    let d1 = choose|d: Domain|
        #[trigger] is_domain_for(fs, min_domain(r), d) && reduce_values(r, d, tau, o1);
    let d2 = choose|d: Domain|
        #[trigger] is_domain_for(fs, min_domain(r), d) && reduce_values(r, d, tau, o2);
    lemma_domain_unique(fs, min_domain(r), d1, d2);
    assert(o1.AAtTau@ =~= o2.AAtTau@);
    assert(o1.BAtTau@ =~= o2.BAtTau@);
    assert(o1.CAtTau@ =~= o2.CAtTau@);
}

} // verus!
