//! Radix-2 evaluation domains: power-of-two sets of roots of unity used as
//! interpolation nodes, with the vanishing polynomial and the Lagrange bases
//! evaluated at arbitrary field points.

use vstd::prelude::*;
use vstd::arithmetic::power2::{pow2, lemma_pow2_adds, lemma_pow2_strictly_increases, lemma_pow2_unfold, lemma2_to64, lemma_pow2_pos};
use crate::field::{
    fadd, fsub, fmul, fpow, has_inverse, finv, is_prime,
    sub_mod, mul_mod, pow_mod, inv_mod,
    lemma_fpow_adds, lemma_fpow_multiplies, lemma_fpow_step, lemma_fadd_zero,
    lemma_finv_unique, lemma_fmul_assoc, lemma_fmul_identity,
};
use crate::CeremonyError;

verus! {

/// The 2-adic structure of the scalar field: a modulus together with a root
/// of unity of exact order `2^adicity`, from which every power-of-two
/// subgroup up to that size is generated.
#[derive(Clone, Copy, Debug, PartialEq, Eq, Structural)]
pub struct FieldSpec {
    pub modulus: u64,
    pub adicity: u64,
    pub root: u64,
}

impl FieldSpec {
    /// The conditions under which the three parameters describe a usable
    /// 2-adic field: a prime modulus, and a root that generates a
    /// multiplicative subgroup of exact order `2^adicity`.
    pub open spec fn params_ok(modulus: u64, adicity: u64, root: u64) -> bool {
        &&& is_prime(modulus as int)
        &&& adicity <= 63
        &&& root < modulus
        &&& fpow(modulus as int, root as int, pow2(adicity as nat)) == 1
        &&& forall|t: nat| 0 < t < pow2(adicity as nat)
            ==> #[trigger] fpow(modulus as int, root as int, t) != 1
    }

    pub open spec fn wf(self) -> bool {
        Self::params_ok(self.modulus, self.adicity, self.root)
    }

    /// Checks that `modulus` is prime and that `root` has exact
    /// multiplicative order `2^adicity` modulo it, then packs the three
    /// parameters up; `None` exactly when the parameters fail those checks.
    /// Both checks are exhaustive, so construction costs O(modulus): this
    /// library is sized for small fields throughout.
    pub fn new(modulus: u64, adicity: u64, root: u64) -> (r: Option<FieldSpec>)
        ensures
            r.is_some() <==> Self::params_ok(modulus, adicity, root),
            match r {
                Some(fs) => fs.modulus == modulus && fs.adicity == adicity && fs.root == root,
                None => true,
            },
    {
        if modulus < 2 || adicity > 63 || root >= modulus {
            return None;
        }
        let mut div: u64 = 2;
        while div < modulus
            invariant
                modulus >= 2,
                2 <= div,
                forall|dd: int| 2 <= dd < div ==> #[trigger] ((modulus as int) % dd) != 0,
            decreases modulus - div,
        {
            if modulus % div == 0 {
                return None;
            }
            div = div + 1;
        }
        let limit: u64 = two_pow(adicity);
        let mut cur: u64 = 1;
        let mut t: u64 = 0;
        proof {
            vstd::arithmetic::div_mod::lemma_small_mod(1nat, modulus as nat);
            vstd::arithmetic::power::lemma_pow0(root as int);
        }
        while t < limit
            invariant
                modulus >= 2,
                root < modulus,
                t <= limit,
                limit == pow2(adicity as nat),
                cur < modulus,
                cur == fpow(modulus as int, root as int, t as nat),
                forall|s: nat| 0 < s <= t && s < limit
                    ==> #[trigger] fpow(modulus as int, root as int, s) != 1,
            decreases limit - t,
        {
            proof {
                lemma_fpow_step(modulus as int, root as int, t as nat);
            }
            cur = mul_mod(modulus, cur, root);
            t = t + 1;
            if cur == 1 && t < limit {
                return None;
            }
        }
        if cur == 1 {
            Some(FieldSpec { modulus, adicity, root })
        } else {
            None
        }
    }
}

/// 2^e, as an executable value.
pub fn two_pow(e: u64) -> (r: u64)
    requires
        e <= 63,
    ensures
        r == pow2(e as nat),
{
    let mut r: u64 = 1;
    let mut i: u64 = 0;
    proof {
        vstd::arithmetic::power2::lemma_pow2(0nat);
        vstd::arithmetic::power::lemma_pow0(2);
    }
    while i < e
        invariant
            i <= e,
            e <= 63,
            r == pow2(i as nat),
        decreases e - i,
    {
        proof {
            lemma_pow2_unfold((i + 1) as nat);
            lemma_pow2_strictly_increases((i + 1) as nat, 64nat);
            lemma2_to64();
        }
        r = r * 2;
        i = i + 1;
    }
    r
}

/// A multiplicative subgroup of power-of-two size, generated by `omega`,
/// inside the field of integers modulo `modulus`. Its elements are the
/// interpolation nodes of the QAP reduction.
#[derive(Clone, Copy, Debug, PartialEq, Eq, Structural)]
pub struct Domain {
    pub modulus: u64,
    pub log_size: u64,
    pub size: usize,
    pub omega: u64,
}

/// The i-th root of the domain: omega^i.
pub open spec fn domain_root(d: Domain, i: nat) -> int {
    fpow(d.modulus as int, d.omega as int, i)
}

/// The vanishing polynomial of the domain, evaluated at `x`: x^size - 1.
pub open spec fn vanishing_at(d: Domain, x: int) -> int {
    fsub(d.modulus as int, fpow(d.modulus as int, x, d.size as nat), 1)
}

/// `x` is one of the domain's roots.
pub open spec fn in_domain(d: Domain, x: int) -> bool {
    exists|i: nat| i < d.size && x == #[trigger] domain_root(d, i)
}

impl Domain {
    pub open spec fn wf(self) -> bool {
        &&& self.modulus >= 2
        &&& self.log_size <= 63
        &&& self.size == pow2(self.log_size as nat)
        &&& self.omega < self.modulus
        &&& fpow(self.modulus as int, self.omega as int, self.size as nat) == 1
        &&& forall|t: nat| 0 < t < self.size
            ==> #[trigger] fpow(self.modulus as int, self.omega as int, t) != 1
    }
}

/// The domain that `build_domain` owes a given field structure and size
/// bound: the smallest power-of-two size at or above the bound, generated by
/// the canonical power of the field's 2-adic root. There is exactly one such
/// domain per `(fs, min_size)` pair.
pub open spec fn is_domain_for(fs: FieldSpec, min_size: int, d: Domain) -> bool {
    &&& d.wf()
    &&& d.modulus == fs.modulus
    &&& d.log_size <= fs.adicity
    &&& d.size >= min_size
    &&& (d.log_size > 0 ==> pow2((d.log_size - 1) as nat) < min_size)
    &&& d.omega == fpow(
        fs.modulus as int,
        fs.root as int,
        pow2((fs.adicity - d.log_size) as nat),
    )
}

/// Rounds `min_size` up to the smallest power of two the field's 2-adic
/// structure supports, and equips it with a generator of exactly that order.
/// Fails with `DomainTooLarge` exactly when even `2^adicity` is too small.
pub fn build_domain(fs: &FieldSpec, min_size: usize) -> (r: Result<Domain, CeremonyError>)
    requires
        fs.wf(),
        min_size <= usize::MAX / 2 + 1,
    ensures
        r.is_ok() <==> min_size <= pow2(fs.adicity as nat),
        match r {
            Ok(d) => is_domain_for(*fs, min_size as int, d),
            Err(e) => e == CeremonyError::DomainTooLarge,
        },
{
    let mut n: usize = 1;
    let mut k: u64 = 0;
    proof {
        vstd::arithmetic::power2::lemma_pow2(0nat);
        vstd::arithmetic::power::lemma_pow0(2);
    }
    while n < min_size
        invariant
            fs.wf(),
            min_size <= usize::MAX / 2 + 1,
            k <= fs.adicity,
            n >= 1,
            n == pow2(k as nat),
            n <= usize::MAX,
            k > 0 ==> pow2((k - 1) as nat) < min_size,
        decreases fs.adicity - k,
    {
        if k >= fs.adicity {
            return Err(CeremonyError::DomainTooLarge);
        }
        proof {
            lemma_pow2_unfold((k + 1) as nat);
        }
        n = n * 2;
        k = k + 1;
    }
    proof {
        if k < fs.adicity {
            lemma_pow2_strictly_increases(k as nat, fs.adicity as nat);
        }
    }
    let omega: u64 = pow_mod(fs.modulus, fs.root, two_pow(fs.adicity - k));
    let d = Domain { modulus: fs.modulus, log_size: k, size: n, omega };
    proof {
        lemma_generated_subgroup(*fs, k as nat, d);
    }
    Ok(d)
}

/// Evaluates the domain's vanishing polynomial x^size - 1 at `x`.
pub fn evaluate_vanishing(d: &Domain, x: u64) -> (r: u64)
    requires
        d.wf(),
        x < d.modulus,
    ensures
        r == vanishing_at(*d, x as int),
        r < d.modulus,
{
    let xn = pow_mod(d.modulus, x, d.size as u64);
    sub_mod(d.modulus, xn, 1)
}

/// Lists every root of the domain: omega^0, omega^1, ..., omega^(size - 1).
pub fn domain_roots(d: &Domain) -> (r: Vec<u64>)
    requires
        d.wf(),
    ensures
        r.len() == d.size,
        forall|i: int| 0 <= i < d.size ==> r[i] == domain_root(*d, i as nat),
        forall|i: int| 0 <= i < d.size ==> r[i] < d.modulus,
{
    let p = d.modulus;
    let mut roots: Vec<u64> = Vec::new();
    let mut cur: u64 = 1;
    proof {
        vstd::arithmetic::div_mod::lemma_small_mod(1nat, p as nat);
        vstd::arithmetic::power::lemma_pow0(d.omega as int);
    }
    let mut i: usize = 0;
    while i < d.size
        invariant
            d.wf(),
            p == d.modulus,
            i <= d.size,
            roots.len() == i,
            cur < p,
            cur == domain_root(*d, i as nat),
            forall|j: int| 0 <= j < i ==> roots[j] == domain_root(*d, j as nat),
            forall|j: int| 0 <= j < i ==> roots[j] < p,
        decreases d.size - i,
    {
        roots.push(cur);
        proof {
            lemma_fpow_step(p as int, d.omega as int, i as nat);
        }
        cur = mul_mod(p, cur, d.omega);
        i = i + 1;
    }
    roots
}

/// The denominator of the closed-form Lagrange evaluation at an off-domain
/// point: size * (x - omega^i), as a residue.
pub open spec fn lagrange_denom(d: Domain, i: nat, x: int) -> int {
    fmul(d.modulus as int, (d.size as int) % (d.modulus as int), fsub(d.modulus as int, x, domain_root(d, i)))
}

/// The i-th Lagrange basis of the domain, evaluated at `x`. On a domain root
/// it is the indicator of that root; elsewhere it takes the closed form
/// Z(x) * omega^i / (size * (x - omega^i)).
pub open spec fn lagrange_at(d: Domain, i: nat, x: int) -> int {
    if in_domain(d, x) {
        if x == domain_root(d, i) { 1int } else { 0int }
    } else {
        fmul(
            d.modulus as int,
            fmul(d.modulus as int, vanishing_at(d, x), domain_root(d, i)),
            finv(d.modulus as int, lagrange_denom(d, i, x)),
        )
    }
}

/// Evaluates every Lagrange basis of the domain at `x`, in one pass.
/// `NonInvertible` can come back only when the modulus is not prime: it says
/// that some closed-form denominator, though non-zero, had no inverse.
pub fn evaluate_all_lagrange_bases(d: &Domain, x: u64) -> (r: Result<Vec<u64>, CeremonyError>)
    requires
        d.wf(),
        x < d.modulus,
    ensures
        match r {
            Ok(v) => {
                &&& v.len() == d.size
                &&& forall|i: int| 0 <= i < d.size ==> v[i] == lagrange_at(*d, i as nat, x as int)
                &&& forall|i: int| 0 <= i < d.size ==> v[i] < d.modulus
                &&& !in_domain(*d, x as int) ==> forall|i: nat| i < d.size
                    ==> has_inverse(d.modulus as int, #[trigger] lagrange_denom(*d, i, x as int))
            },
            Err(e) => {
                &&& e == CeremonyError::NonInvertible
                &&& !in_domain(*d, x as int)
                &&& exists|i: nat| i < d.size
                    && !has_inverse(d.modulus as int, #[trigger] lagrange_denom(*d, i, x as int))
            },
        },
{
    let p = d.modulus;
    let roots = domain_roots(d);
    let mut hit: bool = false;
    let mut scan: usize = 0;
    while scan < d.size
        invariant
            d.wf(),
            p == d.modulus,
            scan <= d.size,
            roots.len() == d.size,
            forall|j: int| 0 <= j < d.size ==> roots[j] == domain_root(*d, j as nat),
            forall|j: int| 0 <= j < d.size ==> roots[j] < p,
            !hit ==> forall|j: int| 0 <= j < scan ==> roots[j] != x,
            hit ==> in_domain(*d, x as int),
        decreases d.size - scan,
    {
        if roots[scan] == x {
            hit = true;
            proof {
                assert(x == domain_root(*d, scan as nat));
            }
        }
        scan = scan + 1;
    }
    if hit {
        let mut v: Vec<u64> = Vec::new();
        let mut i: usize = 0;
        while i < d.size
            invariant
                d.wf(),
                p == d.modulus,
                p >= 2,
                i <= d.size,
                v.len() == i,
                roots.len() == d.size,
                in_domain(*d, x as int),
                forall|j: int| 0 <= j < d.size ==> roots[j] == domain_root(*d, j as nat),
                forall|j: int| 0 <= j < i ==> v[j] == lagrange_at(*d, j as nat, x as int),
                forall|j: int| 0 <= j < i ==> v[j] < p,
            decreases d.size - i,
        {
            if roots[i] == x {
                v.push(1);
            } else {
                v.push(0);
            }
            i = i + 1;
        }
        Ok(v)
    } else {
        proof {
            assert(!in_domain(*d, x as int)) by {
                assert forall|i: nat| i < d.size implies x != #[trigger] domain_root(*d, i) by {
                    assert(roots[i as int] != x);
                }
            }
        }
        let z = evaluate_vanishing(d, x);
        let n_res: u64 = (d.size as u64) % p;
        let mut v: Vec<u64> = Vec::new();
        let mut i: usize = 0;
        while i < d.size
            invariant
                d.wf(),
                p == d.modulus,
                p >= 2,
                x < p,
                i <= d.size,
                v.len() == i,
                roots.len() == d.size,
                !in_domain(*d, x as int),
                z == vanishing_at(*d, x as int),
                z < p,
                n_res == (d.size as int) % (p as int),
                n_res < p,
                forall|j: int| 0 <= j < d.size ==> roots[j] == domain_root(*d, j as nat),
                forall|j: int| 0 <= j < d.size ==> roots[j] < p,
                forall|j: int| 0 <= j < i ==> v[j] == lagrange_at(*d, j as nat, x as int),
                forall|j: int| 0 <= j < i ==> v[j] < p,
                forall|j: nat| j < i ==> has_inverse(p as int, #[trigger] lagrange_denom(*d, j, x as int)),
            decreases d.size - i,
        {
            let diff = sub_mod(p, x, roots[i]);
            let denom = mul_mod(p, n_res, diff);
            match inv_mod(p, denom) {
                Some(y) => {
                    proof {
                        lemma_finv_unique(p as int, denom as int, y as int);
                    }
                    let num = mul_mod(p, z, roots[i]);
                    v.push(mul_mod(p, num, y));
                }
                None => {
                    proof {
                        assert(denom as int == lagrange_denom(*d, i as nat, x as int));
                    }
                    return Err(CeremonyError::NonInvertible);
                }
            }
            i = i + 1;
        }
        Ok(v)
    }
}

/// Draws uniform field elements until one lies outside the domain, giving up
/// after a fixed retry bound. Whatever the draws were, an element that comes
/// back never vanishes on the domain.
pub fn sample_outside_domain(d: &Domain, rng: &mut rand::rngs::StdRng) -> (r: Result<
    u64,
    CeremonyError,
>)
    requires
        d.wf(),
    ensures
        match r {
            Ok(tau) => tau < d.modulus && vanishing_at(*d, tau as int) != 0
                && !in_domain(*d, tau as int),
            Err(e) => e == CeremonyError::DegenerateSample,
        },
{
    let mut attempts: u64 = 0;
    while attempts < 64
        invariant
            d.wf(),
        decreases 64 - attempts,
    {
        let x = crate::sampling::sample_below(rng, d.modulus);
        if evaluate_vanishing(d, x) != 0 {
            proof {
                lemma_nonvanishing_outside(*d, x as int);
            }
            return Ok(x);
        }
        attempts = attempts + 1;
    }
    Err(CeremonyError::DegenerateSample)
}

/// Powers of two below the domain size are the only ones below `min_size`:
/// the size a domain was built with is the smallest power of two at or above
/// the bound it was asked for.
pub proof fn lemma_domain_size_minimal(d: Domain, min_size: usize, j: nat)
    requires
        d.size == pow2(d.log_size as nat),
        d.size >= min_size,
        d.log_size > 0 ==> pow2((d.log_size - 1) as nat) < min_size,
        pow2(j) >= min_size,
    ensures
        pow2(j) >= d.size,
{
    if j < d.log_size as nat {
        assert(j <= (d.log_size - 1) as nat);
        if j < (d.log_size - 1) as nat {
            lemma_pow2_strictly_increases(j, (d.log_size - 1) as nat);
        }
        assert(pow2(j) <= pow2((d.log_size - 1) as nat));
        assert(false);
    } else {
        if (d.log_size as nat) < j {
            lemma_pow2_strictly_increases(d.log_size as nat, j);
        }
    }
}

/// There is only one domain for a given field structure and size bound: the
/// domain of an R1CS is a pure function of the constraint and instance counts.
pub proof fn lemma_domain_unique(fs: FieldSpec, min_size: int, d1: Domain, d2: Domain)
    requires
        is_domain_for(fs, min_size, d1),
        is_domain_for(fs, min_size, d2),
    ensures
        d1 == d2,
{
    if d1.log_size < d2.log_size {
        assert(d1.log_size as nat <= (d2.log_size - 1) as nat);
        if (d1.log_size as nat) < (d2.log_size - 1) as nat {
            lemma_pow2_strictly_increases(d1.log_size as nat, (d2.log_size - 1) as nat);
        }
        assert(false);
    }
    if d2.log_size < d1.log_size {
        assert(d2.log_size as nat <= (d1.log_size - 1) as nat);
        if (d2.log_size as nat) < (d1.log_size - 1) as nat {
            lemma_pow2_strictly_increases(d2.log_size as nat, (d1.log_size - 1) as nat);
        }
        assert(false);
    }
    assert(d1.log_size == d2.log_size);
}

/// The vanishing polynomial is zero at every root of the domain.
pub proof fn lemma_root_vanishes(d: Domain, i: nat)
    requires
        d.wf(),
        i < d.size,
    ensures
        vanishing_at(d, domain_root(d, i)) == 0,
{
    let p = d.modulus as int;
    let w = d.omega as int;
    let n = d.size as nat;
    lemma_fpow_multiplies(p, w, i, n);
    lemma_fpow_multiplies(p, w, n, i);
    assert(i * n == n * i) by (nonlinear_arith);
    assert(fpow(p, domain_root(d, i), n) == fpow(p, 1, i));
    assert(fpow(p, 1, i) == 1) by {
        vstd::arithmetic::power::lemma1_pow(i);
        vstd::arithmetic::div_mod::lemma_small_mod(1nat, p as nat);
    }
    assert(vanishing_at(d, domain_root(d, i)) == 0int % p);
    vstd::arithmetic::div_mod::lemma_small_mod(0nat, p as nat);
}

/// A point where the vanishing polynomial does not vanish lies outside the
/// domain.
pub proof fn lemma_nonvanishing_outside(d: Domain, x: int)
    requires
        d.wf(),
        vanishing_at(d, x) != 0,
    ensures
        !in_domain(d, x),
{
    if in_domain(d, x) {
        let i = choose|i: nat| i < d.size && x == #[trigger] domain_root(d, i);
        lemma_root_vanishes(d, i);
    }
}

/// Distinct exponents below the domain size give distinct roots.
pub proof fn lemma_roots_distinct(d: Domain, i: nat, j: nat)
    requires
        d.wf(),
        i < j,
        j < d.size,
    ensures
        domain_root(d, i) != domain_root(d, j),
{
    let p = d.modulus as int;
    let w = d.omega as int;
    let n = d.size as nat;
    if domain_root(d, i) == domain_root(d, j) {
        lemma_fpow_adds(p, w, i, (n - j) as nat);
        lemma_fpow_adds(p, w, j, (n - j) as nat);
        assert(fpow(p, w, (i + n - j) as nat) == fpow(p, w, n));
        assert(0 < i + n - j < n);
        assert(false);
    }
}

/// Interpolation correctness of the Lagrange bases: at the j-th domain root,
/// basis i evaluates to 1 when i is j and to 0 otherwise.
pub proof fn lemma_lagrange_basis_indicator(d: Domain, i: nat, j: nat)
    requires
        d.wf(),
        i < d.size,
        j < d.size,
    ensures
        lagrange_at(d, i, domain_root(d, j)) == if i == j { 1int } else { 0int },
{
    let x = domain_root(d, j);
    assert(in_domain(d, x));
    if i != j {
        if i < j {
            lemma_roots_distinct(d, i, j);
        } else {
            lemma_roots_distinct(d, j, i);
        }
    }
}

/// In a prime field, an element of exact order `2^k` has among its powers
/// every solution of x^(2^k) = 1: there are at most `2^k` such roots, and
/// the cycle provides all of them.
proof fn lemma_pow2_roots_in_cycle(p: int, w: int, k: nat, x: int)
    requires
        is_prime(p),
        0 <= w < p,
        0 <= x < p,
        fpow(p, w, pow2(k)) == 1,
        forall|t: nat| 0 < t < pow2(k) ==> #[trigger] fpow(p, w, t) != 1,
        fpow(p, x, pow2(k)) == 1,
    ensures
        exists|i: nat| i < pow2(k) && x == #[trigger] fpow(p, w, i),
    decreases k,
{
    vstd::arithmetic::div_mod::lemma_small_mod(1nat, p as nat);
    if k == 0 {
        lemma2_to64();
        assert(fpow(p, x, 1nat) == x) by {
            vstd::arithmetic::power::lemma_pow1(x);
            vstd::arithmetic::div_mod::lemma_small_mod(x as nat, p as nat);
        }
        assert(fpow(p, w, 0nat) == 1) by {
            vstd::arithmetic::power::lemma_pow0(w);
        }
        assert(0nat < pow2(0) && x == fpow(p, w, 0nat));
    } else {
        let km = (k - 1) as nat;
        let half = pow2(km);
        let n = pow2(k);
        lemma_pow2_unfold(k);
        lemma_pow2_pos(km);
        // the square of the generator has exact order half
        let w2 = fpow(p, w, 2nat);
        vstd::arithmetic::div_mod::lemma_mod_bound(
            vstd::arithmetic::power::pow(w, 2nat), p);
        lemma_fpow_multiplies(p, w, 2nat, half);
        assert(fpow(p, w2, half) == 1);
        assert forall|t: nat| 0 < t < half implies #[trigger] fpow(p, w2, t) != 1 by {
            lemma_fpow_multiplies(p, w, 2nat, t);
            assert(0 < 2 * t < n) by (nonlinear_arith)
                requires 0 < t < half, n == 2 * half,
            ;
            assert(fpow(p, w, (2 * t) as nat) != 1);
        }
        // the square of x solves y^half = 1
        let y = fpow(p, x, 2nat);
        vstd::arithmetic::div_mod::lemma_mod_bound(
            vstd::arithmetic::power::pow(x, 2nat), p);
        lemma_fpow_multiplies(p, x, 2nat, half);
        assert(fpow(p, y, half) == 1);
        lemma_pow2_roots_in_cycle(p, w2, km, y);
        let j = choose|i: nat| i < half && y == #[trigger] fpow(p, w2, i);
        lemma_fpow_multiplies(p, w, 2nat, j);
        assert(y == fpow(p, w, (2 * j) as nat));
        // shift x down by w^(n - j): the result squares to 1
        let m = (n - j) as nat;
        let wm = fpow(p, w, m);
        let wj = fpow(p, w, j);
        vstd::arithmetic::div_mod::lemma_mod_bound(
            vstd::arithmetic::power::pow(w, m), p);
        vstd::arithmetic::div_mod::lemma_mod_bound(
            vstd::arithmetic::power::pow(w, j), p);
        let z = fmul(p, x, wm);
        vstd::arithmetic::div_mod::lemma_mod_bound(x * wm, p);
        assert(fmul(p, z, z) == fmul(p, fmul(p, x, x), fmul(p, wm, wm))) by {
            vstd::arithmetic::div_mod::lemma_mul_mod_noop_general(x * wm, x * wm, p);
            vstd::arithmetic::div_mod::lemma_mul_mod_noop_general(x * x, wm * wm, p);
            assert((x * wm) * (x * wm) == (x * x) * (wm * wm)) by (nonlinear_arith);
        }
        assert(fmul(p, x, x) == y) by {
            lemma_fpow_adds(p, x, 1nat, 1nat);
            assert(fpow(p, x, 1nat) == x) by {
                vstd::arithmetic::power::lemma_pow1(x);
                vstd::arithmetic::div_mod::lemma_small_mod(x as nat, p as nat);
            }
        }
        assert(fmul(p, wm, wm) == fpow(p, w, (m + m) as nat)) by {
            lemma_fpow_adds(p, w, m, m);
        }
        assert(fmul(p, z, z) == fpow(p, w, ((2 * j) + (m + m)) as nat)) by {
            lemma_fpow_adds(p, w, (2 * j) as nat, (m + m) as nat);
        }
        assert(2 * j + (m + m) == n + n);
        assert(fpow(p, w, (n + n) as nat) == 1) by {
            lemma_fpow_adds(p, w, n, n);
        }
        crate::field::lemma_square_roots_of_one(p, z);
        // the powers of w on either side of x cancel
        assert(fmul(p, wm, wj) == 1) by {
            lemma_fpow_adds(p, w, m, j);
            assert(m + j == n);
        }
        assert(fmul(p, fmul(p, x, wm), wj) == x) by {
            lemma_fmul_assoc(p, x, wm as int, wj as int);
            lemma_fmul_identity(p, x);
        }
        if z == 1 {
            assert(x == wj) by {
                lemma_fmul_identity(p, wj);
            }
            assert(j < n && x == fpow(p, w, j));
        } else {
            // z == p - 1, which is the generator's half-order power
            let h = fpow(p, w, half);
            vstd::arithmetic::div_mod::lemma_mod_bound(
                vstd::arithmetic::power::pow(w, half), p);
            assert(fmul(p, h, h) == 1) by {
                lemma_fpow_adds(p, w, half, half);
                assert(half + half == n);
            }
            assert(h != 1) by {
                assert(0 < half < n);
            }
            crate::field::lemma_square_roots_of_one(p, h);
            assert(h == p - 1);
            assert(x == fmul(p, h, wj));
            assert(fmul(p, h, wj) == fpow(p, w, (half + j) as nat)) by {
                lemma_fpow_adds(p, w, half, j);
            }
            assert(half + j < n && x == fpow(p, w, (half + j) as nat));
        }
    }
}

/// Over a prime modulus the domain is exactly the vanishing locus: a point
/// where x^size - 1 vanishes is one of the domain's roots.
pub proof fn lemma_vanishing_only_on_domain(d: Domain, x: int)
    requires
        d.wf(),
        is_prime(d.modulus as int),
        0 <= x < d.modulus,
        vanishing_at(d, x) == 0,
    ensures
        in_domain(d, x),
{
    let p = d.modulus as int;
    let n = d.size as nat;
    let u = fpow(p, x, n);
    vstd::arithmetic::div_mod::lemma_mod_bound(
        vstd::arithmetic::power::pow(x, n), p);
    if u == 0 {
        vstd::arithmetic::div_mod::lemma_mod_add_multiples_vanish(-1, p);
        vstd::arithmetic::div_mod::lemma_small_mod((p - 1) as nat, p as nat);
        assert(false);
    }
    vstd::arithmetic::div_mod::lemma_small_mod((u - 1) as nat, p as nat);
    assert(u == 1);
    lemma_pow2_roots_in_cycle(p, d.omega as int, d.log_size as nat, x);
    let i = choose|i: nat| i < pow2(d.log_size as nat)
        && x == #[trigger] fpow(p, d.omega as int, i);
    assert(i < d.size && x == domain_root(d, i));
}

/// Over a prime modulus, a residue lies in the domain exactly when the
/// vanishing polynomial is zero at it.
pub proof fn lemma_domain_is_vanishing_locus(d: Domain, x: int)
    requires
        d.wf(),
        is_prime(d.modulus as int),
        0 <= x < d.modulus,
    ensures
        in_domain(d, x) <==> vanishing_at(d, x) == 0,
{
    if in_domain(d, x) {
        let i = choose|i: nat| i < d.size && x == #[trigger] domain_root(d, i);
        lemma_root_vanishes(d, i);
    } else {
        if vanishing_at(d, x) == 0 {
            lemma_vanishing_only_on_domain(d, x);
        }
    }
}

/// Over a prime modulus, the generator of a domain of two or more points
/// forces the modulus to be odd.
proof fn lemma_domain_modulus_odd(d: Domain)
    requires
        d.wf(),
        d.size >= 2,
    ensures
        d.modulus >= 3,
{
    let p = d.modulus as int;
    if p == 2 {
        if d.omega == 1 {
            assert(fpow(p, 1, 1nat) == 1) by {
                vstd::arithmetic::power::lemma1_pow(1nat);
                vstd::arithmetic::div_mod::lemma_small_mod(1nat, p as nat);
            }
        } else {
            assert(fpow(p, 0, d.size as nat) == 0) by {
                vstd::arithmetic::power::lemma0_pow(d.size as nat);
                vstd::arithmetic::div_mod::lemma_small_mod(0nat, p as nat);
            }
        }
        assert(false);
    }
}

/// Over a prime modulus, every closed-form Lagrange denominator at an
/// off-domain point is invertible: the `NonInvertible` failure cannot occur
/// in a genuine prime field.
pub proof fn lemma_lagrange_denoms_invertible(d: Domain, x: int)
    requires
        d.wf(),
        is_prime(d.modulus as int),
        !in_domain(d, x),
        0 <= x < d.modulus,
    ensures
        forall|i: nat| i < d.size
            ==> has_inverse(d.modulus as int, #[trigger] lagrange_denom(d, i, x)),
{
    let p = d.modulus as int;
    if d.log_size == 0 {
        assert(d.size == 1) by {
            vstd::arithmetic::power2::lemma2_to64();
        }
        vstd::arithmetic::div_mod::lemma_small_mod(1nat, p as nat);
        assert((d.size as int) % p == 1);
    } else {
        vstd::arithmetic::power2::lemma_pow2_strictly_increases(0nat, d.log_size as nat);
        vstd::arithmetic::power2::lemma2_to64();
        lemma_domain_modulus_odd(d);
        crate::field::lemma_pow2_mod_prime_nonzero(p, d.log_size as nat);
    }
    assert((d.size as int) % p != 0);
    vstd::arithmetic::div_mod::lemma_mod_bound(d.size as int, p);
    assert forall|i: nat| i < d.size implies has_inverse(
        p,
        #[trigger] lagrange_denom(d, i, x),
    ) by {
        let r = domain_root(d, i);
        vstd::arithmetic::div_mod::lemma_mod_bound(
            vstd::arithmetic::power::pow(d.omega as int, i),
            p,
        );
        let diff = fsub(p, x, r);
        if x >= r {
            vstd::arithmetic::div_mod::lemma_small_mod((x - r) as nat, p as nat);
            if x == r {
                assert(in_domain(d, x));
            }
            assert(0 < diff < p);
        } else {
            vstd::arithmetic::div_mod::lemma_mod_add_multiples_vanish(x - r, p);
            vstd::arithmetic::div_mod::lemma_small_mod((x - r + p) as nat, p as nat);
            assert(0 < diff < p);
        }
        crate::field::lemma_no_zero_divisors(p, (d.size as int) % p, diff);
        vstd::arithmetic::div_mod::lemma_mod_bound(((d.size as int) % p) * diff, p);
        crate::field::lemma_prime_inverse(p, lagrange_denom(d, i, x));
    }
}

/// The field sum of the first `k` Lagrange bases of the domain at `x`.
pub open spec fn lagrange_partial_sum(d: Domain, x: int, k: nat) -> int
    decreases k,
{
    if k == 0 {
        0int
    } else {
        fadd(d.modulus as int, lagrange_partial_sum(d, x, (k - 1) as nat), lagrange_at(d, (k - 1) as nat, x))
    }
}

proof fn lemma_lagrange_sum_prefix(d: Domain, j: nat, k: nat)
    requires
        d.wf(),
        j < d.size,
        k <= d.size,
    ensures
        lagrange_partial_sum(d, domain_root(d, j), k) == if j < k { 1int } else { 0int },
    decreases k,
{
    let p = d.modulus as int;
    if k > 0 {
        lemma_lagrange_sum_prefix(d, j, (k - 1) as nat);
        lemma_lagrange_basis_indicator(d, (k - 1) as nat, j);
        if j < k - 1 {
            lemma_fadd_zero(p, 1int);
        } else if j == k - 1 {
            lemma_fadd_zero(p, 1int);
        } else {
            lemma_fadd_zero(p, 0int);
        }
    }
}

/// Interpolation correctness, summed: at every root of the domain the
/// Lagrange bases add up to 1 in the field.
pub proof fn lemma_lagrange_bases_sum_to_one(d: Domain, j: nat)
    requires
        d.wf(),
        j < d.size,
    ensures
        lagrange_partial_sum(d, domain_root(d, j), d.size as nat) == 1,
{
    lemma_lagrange_sum_prefix(d, j, d.size as nat);
}

/// From a root of exact order `2^adicity`, the power `root^(2^(adicity - k))`
/// generates a subgroup of exact order `2^k`.
proof fn lemma_generated_subgroup(fs: FieldSpec, k: nat, d: Domain)
    requires
        fs.wf(),
        k <= fs.adicity,
        d.modulus == fs.modulus,
        d.log_size == k,
        d.size == pow2(k),
        d.omega == fpow(fs.modulus as int, fs.root as int, pow2((fs.adicity - k) as nat)),
        d.omega < d.modulus,
    ensures
        d.wf(),
{
    let p = fs.modulus as int;
    let root = fs.root as int;
    let m2 = pow2((fs.adicity - k) as nat);
    lemma_pow2_adds((fs.adicity - k) as nat, k);
    assert(m2 * pow2(k) == pow2(fs.adicity as nat));
    lemma_fpow_multiplies(p, root, m2, pow2(k));
    assert(fpow(p, d.omega as int, d.size as nat) == 1);
    assert forall|t: nat| 0 < t < d.size implies #[trigger] fpow(p, d.omega as int, t) != 1 by {
        lemma_fpow_multiplies(p, root, m2, t);
        lemma_pow2_pos((fs.adicity - k) as nat);
        assert(m2 * t < m2 * pow2(k)) by (nonlinear_arith)
            requires m2 >= 1, 0 < t < pow2(k),
        ;
        assert(m2 * t >= 1) by (nonlinear_arith)
            requires m2 >= 1, t >= 1,
        ;
        assert(fpow(p, root, (m2 * t) as nat) != 1);
    }
}

} // verus!
