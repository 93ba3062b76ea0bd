//! The prover's own computations between the rounds: the domains of a
//! circuit, the proving key on packed shares, and the formulas that each party
//! applies to its shares.

use crate::domain::{
    generators_sound, get_k_value_for_domain, log2_floor, two_pow_exec, EvaluationDomain,
};
use crate::field::{all_canonical, fadd, fmul, fsub, modulus, pow_mod, two_pow, Scalar};
use crate::pss::{lemma_log2_double, PackedSharingParams};
use crate::random::random_fr;
use rand::rngs::StdRng;
use vstd::prelude::*;

verus! {

/// The largest base-two logarithm of a number of gates: the domain eight times
/// as large must still exist.
pub const MAX_LOG_GATES: u32 = 25;

/// `n` is a number of gates that the field supports: a power of two, at most
/// `2^25`.
pub open spec fn is_gate_count(n: nat) -> bool {
    &&& n >= 1
    &&& two_pow(log2_floor(n)) == n
    &&& log2_floor(n) <= MAX_LOG_GATES
}

/// The domains of a circuit: one point for each gate, and the eightfold domain
/// on which the quotient is computed.
#[derive(Clone, Copy, Debug, PartialEq, Eq)]
pub struct PlonkDomain {
    /// Number of gates.
    pub n_gates: usize,
    /// Domain of size `n_gates`.
    pub gates: EvaluationDomain,
    /// Domain of size `8 * n_gates`.
    pub gates8: EvaluationDomain,
}

impl PlonkDomain {
    /// The two domains are well formed and have the sizes `n_gates` and
    /// `8 * n_gates`.
    pub open spec fn wf(&self) -> bool {
        &&& is_gate_count(self.n_gates as nat)
        &&& self.gates.wf()
        &&& self.gates8.wf()
        &&& self.gates.len_spec() == self.n_gates
        &&& self.gates8.len_spec() == 8 * self.n_gates
    }

    /// The domains of a circuit of `n_gates` gates. They exist when `n_gates`
    /// is a power of two whose domains the field has.
    pub fn new(n_gates: usize) -> (r: Option<PlonkDomain>)
        ensures
            r.is_some() <==> is_gate_count(n_gates as nat) && generators_sound(
                log2_floor(n_gates as nat),
            ) && generators_sound(log2_floor(n_gates as nat) + 3),
            r.is_some() ==> r.unwrap().wf() && r.unwrap().n_gates == n_gates,
    {
        if n_gates == 0 {
            return None;
        }
        let k = get_k_value_for_domain(n_gates);
        if k > MAX_LOG_GATES {
            return None;
        }
        if two_pow_exec(k) != n_gates {
            return None;
        }
        proof {
            lemma_log2_double(n_gates as nat);
            lemma_log2_double(2 * n_gates as nat);
            lemma_log2_double(4 * n_gates as nat);
            assert(two_pow((k + 1) as nat) == 2 * n_gates);
            assert(two_pow((k + 2) as nat) == 2 * two_pow((k + 1) as nat));
            assert(two_pow((k + 3) as nat) == 2 * two_pow((k + 2) as nat));
        }
        let k8 = get_k_value_for_domain(8 * n_gates);
        let gates = match EvaluationDomain::new(k) {
            Some(d) => d,
            None => { return None; },
        };
        let gates8 = match EvaluationDomain::new(k8) {
            Some(d) => d,
            None => { return None; },
        };
        Some(PlonkDomain { n_gates, gates, gates8 })
    }
}

/// The proving key on packed shares: the selector and the permutation
/// polynomials over the eightfold domain.
#[derive(Clone, Debug, PartialEq, Eq)]
pub struct PackProvingKey {
    pub ql: Vec<Scalar>,
    pub qr: Vec<Scalar>,
    pub qm: Vec<Scalar>,
    pub qo: Vec<Scalar>,
    pub qc: Vec<Scalar>,
    pub s1: Vec<Scalar>,
    pub s2: Vec<Scalar>,
    pub s3: Vec<Scalar>,
}

impl PackProvingKey {
    /// All eight vectors have `len` canonical entries.
    pub open spec fn wf(&self, len: nat) -> bool {
        &&& self.ql@.len() == len && all_canonical(self.ql@)
        &&& self.qr@.len() == len && all_canonical(self.qr@)
        &&& self.qm@.len() == len && all_canonical(self.qm@)
        &&& self.qo@.len() == len && all_canonical(self.qo@)
        &&& self.qc@.len() == len && all_canonical(self.qc@)
        &&& self.s1@.len() == len && all_canonical(self.s1@)
        &&& self.s2@.len() == len && all_canonical(self.s2@)
        &&& self.s3@.len() == len && all_canonical(self.s3@)
    }

    /// A key of random shares for a circuit of `n_gates` gates: eight vectors of
    /// `8 * n_gates / l` entries.
    pub fn new(n_gates: usize, rng: &mut StdRng, pp: &PackedSharingParams) -> (r: PackProvingKey)
        requires
            pp.wf(),
            8 * n_gates <= usize::MAX,
        ensures
            r.wf(((8 * n_gates) / (pp.l as int)) as nat),
    {
        let len = 8 * n_gates / pp.l;
        let _first = random_fr(rng);
        let mut qm: Vec<Scalar> = Vec::new();
        let mut ql: Vec<Scalar> = Vec::new();
        let mut qr: Vec<Scalar> = Vec::new();
        let mut qo: Vec<Scalar> = Vec::new();
        let mut qc: Vec<Scalar> = Vec::new();
        let mut s1: Vec<Scalar> = Vec::new();
        let mut s2: Vec<Scalar> = Vec::new();
        let mut s3: Vec<Scalar> = Vec::new();
        let mut i: usize = 0;
        while i < len
            invariant
                i <= len,
                (PackProvingKey { ql, qr, qm, qo, qc, s1, s2, s3 }).wf(i as nat),
            decreases len - i,
        {
            qm.push(random_fr(rng));
            ql.push(random_fr(rng));
            qr.push(random_fr(rng));
            qo.push(random_fr(rng));
            qc.push(random_fr(rng));
            s1.push(random_fr(rng));
            s2.push(random_fr(rng));
            s3.push(random_fr(rng));
            i = i + 1;
        }
        PackProvingKey { ql, qr, qm, qo, qc, s1, s2, s3 }
    }
}

/// The `i`-th element of the domain: the `i`-th power of its generator.
pub fn element(i: usize, dom: &EvaluationDomain) -> (r: Scalar)
    requires
        dom.wf(),
    ensures
        r.wf(),
        r@ == pow_mod(dom.omega@, i as nat) % modulus(),
{
    dom.omega.pow(i as u64)
}

/// One factor of the permutation argument: `w + beta * s + gamma`.
pub open spec fn perm_factor(w: nat, beta: nat, s: nat, gamma: nat) -> nat {
    fadd(fadd(w, fmul(beta, s)), gamma)
}

/// The product of the three factors of the permutation argument for the wire
/// values `a`, `b`, `c`.
pub open spec fn perm_term(
    a: nat,
    b: nat,
    c: nat,
    beta: nat,
    sa: nat,
    sb: nat,
    sc: nat,
    gamma: nat,
) -> nat {
    fmul(
        fmul(perm_factor(a, beta, sa, gamma), perm_factor(b, beta, sb, gamma)),
        perm_factor(c, beta, sc, gamma),
    )
}

/// `w + beta * s + gamma`.
fn perm_factor_exec(w: &Scalar, beta: &Scalar, s: &Scalar, gamma: &Scalar) -> (r: Scalar)
    ensures
        r.wf(),
        r@ == perm_factor(w@, beta@, s@, gamma@),
{
    w.plus(&beta.times(s)).plus(gamma)
}

/// The product of the three factors of the permutation argument.
fn perm_term_exec(
    a: &Scalar,
    b: &Scalar,
    c: &Scalar,
    beta: &Scalar,
    sa: &Scalar,
    sb: &Scalar,
    sc: &Scalar,
    gamma: &Scalar,
) -> (r: Scalar)
    ensures
        r.wf(),
        r@ == perm_term(a@, b@, c@, beta@, sa@, sb@, sc@, gamma@),
{
    let fa = perm_factor_exec(a, beta, sa, gamma);
    let fb = perm_factor_exec(b, beta, sb, gamma);
    let fc = perm_factor_exec(c, beta, sc, gamma);
    fa.times(&fb).times(&fc)
}

/// The power `base^i` as the prover's loops build it: one multiplication by
/// `base` for each step.
pub open spec fn running_power(base: nat, i: nat) -> nat
    decreases i,
{
    if i == 0 {
        1
    } else {
        fmul(running_power(base, (i - 1) as nat), base)
    }
}

/// The numerators and the denominators of the permutation argument, from a
/// party's shares of the wire values and of the permutation polynomials. For
/// each position `i`, the denominator is the product of the factors
/// `w + beta * s + gamma` over the three wires, and the numerator the same
/// product with the `i`-th power of `omega` in place of `s`.
pub fn permutation_terms(
    aevals: &Vec<Scalar>,
    bevals: &Vec<Scalar>,
    cevals: &Vec<Scalar>,
    pk: &PackProvingKey,
    beta: &Scalar,
    gamma: &Scalar,
    omega: &Scalar,
) -> (r: (Vec<Scalar>, Vec<Scalar>))
    requires
        aevals@.len() == bevals@.len(),
        aevals@.len() == cevals@.len(),
        aevals@.len() <= pk.s1@.len(),
        aevals@.len() <= pk.s2@.len(),
        aevals@.len() <= pk.s3@.len(),
    ensures
        r.0@.len() == aevals@.len(),
        r.1@.len() == aevals@.len(),
        all_canonical(r.0@),
        all_canonical(r.1@),
        forall|i: int|
            0 <= i < aevals@.len() ==> (#[trigger] r.0@[i])@ == perm_term(
                aevals@[i]@,
                bevals@[i]@,
                cevals@[i]@,
                beta@,
                running_power(omega@, i as nat),
                running_power(omega@, i as nat),
                running_power(omega@, i as nat),
                gamma@,
            ),
        forall|i: int|
            0 <= i < aevals@.len() ==> (#[trigger] r.1@[i])@ == perm_term(
                aevals@[i]@,
                bevals@[i]@,
                cevals@[i]@,
                beta@,
                pk.s1@[i]@,
                pk.s2@[i]@,
                pk.s3@[i]@,
                gamma@,
            ),
{
    let mut num: Vec<Scalar> = Vec::new();
    let mut den: Vec<Scalar> = Vec::new();
    let mut omegai = Scalar::from_u64(1);
    let mut i: usize = 0;
    while i < aevals.len()
        invariant
            i <= aevals@.len(),
            aevals@.len() == bevals@.len(),
            aevals@.len() == cevals@.len(),
            aevals@.len() <= pk.s1@.len(),
            aevals@.len() <= pk.s2@.len(),
            aevals@.len() <= pk.s3@.len(),
            num@.len() == i,
            den@.len() == i,
            all_canonical(num@),
            all_canonical(den@),
            omegai@ == running_power(omega@, i as nat),
            forall|j: int|
                0 <= j < i ==> (#[trigger] num@[j])@ == perm_term(
                    aevals@[j]@,
                    bevals@[j]@,
                    cevals@[j]@,
                    beta@,
                    running_power(omega@, j as nat),
                    running_power(omega@, j as nat),
                    running_power(omega@, j as nat),
                    gamma@,
                ),
            forall|j: int|
                0 <= j < i ==> (#[trigger] den@[j])@ == perm_term(
                    aevals@[j]@,
                    bevals@[j]@,
                    cevals@[j]@,
                    beta@,
                    pk.s1@[j]@,
                    pk.s2@[j]@,
                    pk.s3@[j]@,
                    gamma@,
                ),
        decreases aevals@.len() - i,
    {
        let d = perm_term_exec(
            &aevals[i],
            &bevals[i],
            &cevals[i],
            beta,
            &pk.s1[i],
            &pk.s2[i],
            &pk.s3[i],
            gamma,
        );
        let n = perm_term_exec(
            &aevals[i],
            &bevals[i],
            &cevals[i],
            beta,
            &omegai,
            &omegai,
            &omegai,
            gamma,
        );
        den.push(d);
        num.push(n);
        omegai = omegai.times(omega);
        i = i + 1;
    }
    (num, den)
}

/// The arithmetic constraint at one position:
/// `a * b * qm + a * ql + b * qr + c * qo + qc`.
pub open spec fn gate_value(a: nat, b: nat, c: nat, qm: nat, ql: nat, qr: nat, qo: nat, qc: nat)
    -> nat {
    fadd(fadd(fadd(fadd(fmul(fmul(a, b), qm), fmul(a, ql)), fmul(b, qr)), fmul(c, qo)), qc)
}

/// The arithmetic constraint at one position.
fn gate_value_exec(
    a: &Scalar,
    b: &Scalar,
    c: &Scalar,
    qm: &Scalar,
    ql: &Scalar,
    qr: &Scalar,
    qo: &Scalar,
    qc: &Scalar,
) -> (r: Scalar)
    ensures
        r.wf(),
        r@ == gate_value(a@, b@, c@, qm@, ql@, qr@, qo@, qc@),
{
    a.times(b).times(qm).plus(&a.times(ql)).plus(&b.times(qr)).plus(&c.times(qo)).plus(qc)
}

/// The linearisation polynomial on a party's shares: at each position the
/// arithmetic constraint with the opened wire values in place of the wires.
/// The product of the first two openings stands where the constraint has
/// `a * b`.
pub fn linearisation(
    open_a: &Scalar,
    open_b: &Scalar,
    open_c: &Scalar,
    pk: &PackProvingKey,
    len: usize,
) -> (revals: Vec<Scalar>)
    requires
        len <= pk.qm@.len(),
        len <= pk.ql@.len(),
        len <= pk.qr@.len(),
        len <= pk.qo@.len(),
        len <= pk.qc@.len(),
    ensures
        revals@.len() == len,
        all_canonical(revals@),
        forall|i: int|
            0 <= i < len ==> (#[trigger] revals@[i])@ == gate_value(
                open_a@,
                open_b@,
                open_c@,
                pk.qm@[i]@,
                pk.ql@[i]@,
                pk.qr@[i]@,
                pk.qo@[i]@,
                pk.qc@[i]@,
            ),
{
    let mut revals: Vec<Scalar> = Vec::new();
    let mut i: usize = 0;
    while i < len
        invariant
            i <= len,
            len <= pk.qm@.len(),
            len <= pk.ql@.len(),
            len <= pk.qr@.len(),
            len <= pk.qo@.len(),
            len <= pk.qc@.len(),
            revals@.len() == i,
            all_canonical(revals@),
            forall|j: int|
                0 <= j < i ==> (#[trigger] revals@[j])@ == gate_value(
                    open_a@,
                    open_b@,
                    open_c@,
                    pk.qm@[j]@,
                    pk.ql@[j]@,
                    pk.qr@[j]@,
                    pk.qo@[j]@,
                    pk.qc@[j]@,
                ),
        decreases len - i,
    {
        let r = gate_value_exec(
            open_a,
            open_b,
            open_c,
            &pk.qm[i],
            &pk.ql[i],
            &pk.qr[i],
            &pk.qo[i],
            &pk.qc[i],
        );
        revals.push(r);
        i = i + 1;
    }
    revals
}

/// A party's wire values and permutation product over the eightfold domain.
pub struct WireShares {
    pub a: Vec<Scalar>,
    pub b: Vec<Scalar>,
    pub c: Vec<Scalar>,
    pub z: Vec<Scalar>,
}

/// The verifier's challenges of the first three rounds.
pub struct Challenges {
    pub beta: Scalar,
    pub gamma: Scalar,
    pub alpha: Scalar,
}

/// The public scalars whose powers run along the eightfold domain: its
/// generator, that generator's power with the number of gates, and the same
/// power of the generator shifted into the coset.
pub struct DomainSteps {
    pub omega: Scalar,
    pub omegan: Scalar,
    pub womegan: Scalar,
}

/// The quotient's numerator at position `i`: to the entry `t0` that is there
/// the arithmetic constraint is added, then the numerator of the permutation argument
/// times `omegan^i - 1` times `alpha`, then the denominator of the permutation
/// argument times `womegan^i - 1` times `alpha` is subtracted, and
/// `(z - 1) * alpha^2` is added.
pub open spec fn quotient_term(
    t0: nat,
    w: WireShares,
    pk: PackProvingKey,
    ch: Challenges,
    st: DomainSteps,
    i: int,
) -> nat {
    let a = w.a@[i]@;
    let b = w.b@[i]@;
    let c = w.c@[i]@;
    let omegai = running_power(st.omega@, i as nat);
    let t1 = fadd(
        t0,
        gate_value(a, b, c, pk.qm@[i]@, pk.ql@[i]@, pk.qr@[i]@, pk.qo@[i]@, pk.qc@[i]@),
    );
    let t2 = fadd(
        t1,
        fmul(
            fmul(
                perm_term(a, b, c, ch.beta@, omegai, omegai, omegai, ch.gamma@),
                fsub(running_power(st.omegan@, i as nat), 1),
            ),
            ch.alpha@,
        ),
    );
    let t3 = fsub(
        t2,
        fmul(
            fmul(
                perm_term(a, b, c, ch.beta@, pk.s1@[i]@, pk.s2@[i]@, pk.s3@[i]@, ch.gamma@),
                fsub(running_power(st.womegan@, i as nat), 1),
            ),
            ch.alpha@,
        ),
    );
    fadd(t3, fmul(fmul(fmul(fsub(w.z@[i]@, 1), 1), ch.alpha@), ch.alpha@))
}

/// The quotient's numerator on a party's shares over the eightfold domain:
/// each entry of `tevals8` is replaced by the quotient term at its position.
pub fn quotient_terms(
    tevals8: &mut Vec<Scalar>,
    w: &WireShares,
    pk: &PackProvingKey,
    ch: &Challenges,
    st: &DomainSteps,
)
    requires
        pk.wf(pk.qm@.len()),
        old(tevals8)@.len() <= pk.qm@.len(),
        old(tevals8)@.len() <= w.a@.len(),
        old(tevals8)@.len() <= w.b@.len(),
        old(tevals8)@.len() <= w.c@.len(),
        old(tevals8)@.len() <= w.z@.len(),
    ensures
        final(tevals8)@.len() == old(tevals8)@.len(),
        all_canonical(final(tevals8)@),
        forall|i: int|
            0 <= i < old(tevals8)@.len() ==> (#[trigger] final(tevals8)@[i])@ == quotient_term(
                old(tevals8)@[i]@,
                *w,
                *pk,
                *ch,
                *st,
                i,
            ),
{
    let len = tevals8.len();
    let one = Scalar::from_u64(1);
    let mut omegai = Scalar::from_u64(1);
    let mut omegani = Scalar::from_u64(1);
    let mut womegani = Scalar::from_u64(1);
    let mut i: usize = 0;
    while i < len
        invariant
            i <= len,
            one@ == 1,
            pk.wf(pk.qm@.len()),
            len == old(tevals8)@.len(),
            tevals8@.len() == len,
            len <= pk.qm@.len(),
            len <= w.a@.len(),
            len <= w.b@.len(),
            len <= w.c@.len(),
            len <= w.z@.len(),
            omegai@ == running_power(st.omega@, i as nat),
            omegani@ == running_power(st.omegan@, i as nat),
            womegani@ == running_power(st.womegan@, i as nat),
            forall|j: int| i <= j < len ==> tevals8@[j] == old(tevals8)@[j],
            forall|j: int|
                0 <= j < i ==> (#[trigger] tevals8@[j]).wf() && tevals8@[j]@ == quotient_term(
                    old(tevals8)@[j]@,
                    *w,
                    *pk,
                    *ch,
                    *st,
                    j,
                ),
        decreases len - i,
    {
        let gate = gate_value_exec(
            &w.a[i],
            &w.b[i],
            &w.c[i],
            &pk.qm[i],
            &pk.ql[i],
            &pk.qr[i],
            &pk.qo[i],
            &pk.qc[i],
        );
        let t1 = tevals8[i].plus(&gate);
        let num = perm_term_exec(
            &w.a[i],
            &w.b[i],
            &w.c[i],
            &ch.beta,
            &omegai,
            &omegai,
            &omegai,
            &ch.gamma,
        );
        let t2 = t1.plus(&num.times(&omegani.minus(&one)).times(&ch.alpha));
        let den = perm_term_exec(
            &w.a[i],
            &w.b[i],
            &w.c[i],
            &ch.beta,
            &pk.s1[i],
            &pk.s2[i],
            &pk.s3[i],
            &ch.gamma,
        );
        let t3 = t2.minus(&den.times(&womegani.minus(&one)).times(&ch.alpha));
        let t4 = t3.plus(&w.z[i].minus(&one).times(&one).times(&ch.alpha).times(&ch.alpha));
        tevals8.set(i, t4);
        omegai = omegai.times(&st.omega);
        omegani = omegani.times(&st.omegan);
        womegani = womegani.times(&st.womegan);
        i = i + 1;
    }
}

/// Every eighth entry of `v`, from the first on.
pub fn every_eighth(v: &Vec<Scalar>) -> (r: Vec<Scalar>)
    ensures
        r@.len() == (v@.len() + 7) / 8,
        forall|i: int| 0 <= i < r@.len() ==> #[trigger] r@[i] == v@[8 * i],
{
    let mut out: Vec<Scalar> = Vec::new();
    let mut i: usize = 0;
    while i < v.len()
        invariant
            i == 8 * out@.len(),
            i == 0 || i < v@.len(),
            forall|j: int| 0 <= j < out@.len() ==> #[trigger] out@[j] == v@[8 * j],
        decreases v@.len() - i,
    {
        out.push(v[i]);
        if v.len() - i <= 8 {
            return out;
        }
        i = i + 8;
    }
    out
}

} // verus!
