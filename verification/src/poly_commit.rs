//! Polynomial commitments on one machine: a key of group elements, commitments
//! to a polynomial given by its values over a domain, and openings at a point.

use crate::curve::{all_points, encodings, msm, msm_value, G1Point};
use crate::domain::{fft_values, ifft_values, resized, EvaluationDomain};
use crate::field::{
    all_canonical, divide_by_linear, eval_at, evaluate, modulus, pow_mod, quotient_values,
    reduced, values, Scalar,
};
use crate::random::create_random_group_elements;
use rand::rngs::StdRng;
use vstd::prelude::*;

verus! {

/// The multi-scalar product of the key with the values `evals`, as far as the
/// shorter of the two reaches.
pub open spec fn commitment_value(key: Seq<Seq<u8>>, evals: Seq<nat>) -> Seq<u8> {
    let m = if key.len() <= evals.len() { key.len() as int } else { evals.len() as int };
    msm_value(key.subrange(0, m), evals.subrange(0, m))
}

/// The values, over the domain, of the quotient of the polynomial with the
/// values `evals` by `X - point`.
pub open spec fn quotient_evals(evals: Seq<nat>, point: nat, dom: EvaluationDomain) -> Seq<nat> {
    fft_values(quotient_values(ifft_values(evals, dom), point), dom)
}

/// The multi-scalar product of `bases` and `scalars`, as far as the shorter of
/// the two reaches.
pub fn commit_prefix(bases: &Vec<G1Point>, scalars: &Vec<Scalar>) -> (r: G1Point)
    requires
        all_points(bases@),
    ensures
        r.wf(),
        r@ == commitment_value(encodings(bases@), values(scalars@)),
{
    let m = if bases.len() <= scalars.len() { bases.len() } else { scalars.len() };
    let mut b = bases.clone();
    assert(b@ =~= bases@);
    b.truncate(m);
    let mut s = scalars.clone();
    assert(s@ =~= scalars@);
    s.truncate(m);
    assert(encodings(b@) =~= encodings(bases@).subrange(0, m as int));
    assert(values(s@) =~= values(scalars@).subrange(0, m as int));
    msm(&b, &s)
}

/// A commitment key: one group element for each point of the domain.
#[derive(Clone, Debug, PartialEq, Eq)]
pub struct PolyCk {
    /// The key, in evaluation form.
    pub powers_of_tau: Vec<G1Point>,
}

impl PolyCk {
    /// Every element of the key is a point of the group.
    pub open spec fn wf(&self) -> bool {
        all_points(self.powers_of_tau@)
    }

    /// A key of `domain_size` random group elements.
    pub fn new(domain_size: usize, rng: &mut StdRng) -> (r: PolyCk)
        ensures
            r.wf(),
            r.powers_of_tau@.len() == domain_size,
    {
        PolyCk { powers_of_tau: create_random_group_elements(rng, domain_size) }
    }

    /// The commitment to the polynomial with the values `pevals`.
    pub fn commit(&self, pevals: &Vec<Scalar>) -> (r: G1Point)
        requires
            self.wf(),
        ensures
            r.wf(),
            r@ == commitment_value(encodings(self.powers_of_tau@), values(pevals@)),
    {
        commit_prefix(&self.powers_of_tau, pevals)
    }

    /// The value at `point` of the polynomial that takes the values `pevals` over
    /// the domain: the polynomial whose coefficients the inverse transform
    /// gives, and whose value at the `i`-th point of the domain is `pevals[i]`.
    pub fn open(&self, pevals: &Vec<Scalar>, point: Scalar, dom: &EvaluationDomain) -> (r: Scalar)
        requires
            dom.wf(),
            pevals@.len() == dom.len_spec(),
        ensures
            r.wf(),
            r@ == eval_at(ifft_values(values(pevals@), *dom), point@),
            forall|i: int|
                0 <= i < pevals@.len() ==> #[trigger] eval_at(
                    ifft_values(values(pevals@), *dom),
                    pow_mod(dom.omega@, i as nat),
                ) == pevals@[i]@ % modulus(),
    {
        let mut evals = pevals.clone();
        assert(evals@ =~= pevals@);
        let pcoeffs = Self::ifft(&mut evals, dom);
        proof {
            let c = values(pcoeffs@);
            assert(resized(c, dom.len_spec()) =~= c);
            assert(resized(values(pevals@), dom.len_spec()) =~= values(pevals@));
            assert forall|i: int| 0 <= i < pevals@.len() implies #[trigger] eval_at(
                c,
                pow_mod(dom.omega@, i as nat),
            ) == pevals@[i]@ % modulus() by {
                assert(fft_values(c, *dom)[i] == eval_at(c, pow_mod(dom.omega@, i as nat)));
                assert(reduced(values(pevals@))[i] == pevals@[i]@ % modulus());
            }
        }
        evaluate(&pcoeffs, &point)
    }

    /// The proof that goes with an opening at `point`: the commitment to the
    /// quotient of the polynomial by `X - point`.
    pub fn witness(&self, pevals: &Vec<Scalar>, point: Scalar, dom: &EvaluationDomain) -> (r:
        G1Point)
        requires
            self.wf(),
            dom.wf(),
            pevals@.len() == dom.len_spec(),
        ensures
            r.wf(),
            r@ == commitment_value(
                encodings(self.powers_of_tau@),
                quotient_evals(values(pevals@), point@, *dom),
            ),
    {
        let mut evals = pevals.clone();
        assert(evals@ =~= pevals@);
        let pcoeffs = Self::ifft(&mut evals, dom);
        proof {
            crate::domain::lemma_two_pow_bound(dom.k as nat);
        }
        let mut qcoeffs = divide_by_linear(&pcoeffs, &point);
        let qevals = Self::fft(&mut qcoeffs, dom);
        commit_prefix(&self.powers_of_tau, &qevals)
    }

    /// The forward transform of `poly` over `domain`; `poly` is cut or padded to
    /// the domain's size.
    pub fn fft(poly: &mut Vec<Scalar>, domain: &EvaluationDomain) -> (out: Vec<Scalar>)
        requires
            domain.wf(),
        ensures
            final(poly)@.len() == domain.len_spec(),
            out@.len() == domain.len_spec(),
            all_canonical(out@),
            values(out@) == fft_values(values(old(poly)@), *domain),
            ifft_values(values(out@), *domain) == reduced(
                resized(values(old(poly)@), domain.len_spec()),
            ),
    {
        domain.fft(poly)
    }

    /// The inverse transform of `poly` over `domain`; `poly` is cut or padded to
    /// the domain's size.
    pub fn ifft(poly: &mut Vec<Scalar>, domain: &EvaluationDomain) -> (out: Vec<Scalar>)
        requires
            domain.wf(),
        ensures
            final(poly)@.len() == domain.len_spec(),
            out@.len() == domain.len_spec(),
            all_canonical(out@),
            values(out@) == ifft_values(values(old(poly)@), *domain),
            fft_values(values(out@), *domain) == reduced(
                resized(values(old(poly)@), domain.len_spec()),
            ),
    {
        domain.ifft(poly)
    }
}

} // verus!
