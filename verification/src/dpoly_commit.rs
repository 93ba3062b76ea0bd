//! Polynomial commitments on packed shares: what one party computes between
//! the rounds with the king.

use crate::curve::{all_points, encodings, msm, msm_value, G1Point};
use crate::field::{all_canonical, eval_at, evaluate, modulus, values, Scalar};
use crate::pss::PackedSharingParams;
use crate::random::create_random_group_elements;
use rand::rngs::StdRng;
use vstd::prelude::*;

verus! {

/// A commitment key on packed shares: one group element for each packed
/// position.
#[derive(Clone, Debug, PartialEq, Eq)]
pub struct PackPolyCk {
    /// The key, in evaluation form.
    pub powers_of_tau: Vec<G1Point>,
}

impl PackPolyCk {
    /// Every element of the key is a point of the group.
    pub open spec fn wf(&self) -> bool {
        all_points(self.powers_of_tau@)
    }

    /// A key of `domain_size / l` random group elements.
    pub fn new(domain_size: usize, rng: &mut StdRng, pp: &PackedSharingParams) -> (r: PackPolyCk)
        requires
            pp.wf(),
        ensures
            r.wf(),
            r.powers_of_tau@.len() == domain_size / pp.l,
    {
        PackPolyCk { powers_of_tau: create_random_group_elements(rng, domain_size / pp.l) }
    }

    /// This party's share of the commitment to the polynomial whose packed
    /// values it holds in `peval_share`: its local multi-scalar product, which
    /// goes to the king.
    pub fn commit(&self, peval_share: &Vec<Scalar>) -> (r: G1Point)
        requires
            self.wf(),
            peval_share@.len() == self.powers_of_tau@.len(),
        ensures
            r.wf(),
            r@ == msm_value(encodings(self.powers_of_tau@), values(peval_share@)),
    {
        msm(&self.powers_of_tau, peval_share)
    }

    /// This party's share, of degree two, of the value at `point` of the
    /// polynomial whose packed coefficients it holds: the sum of its
    /// coefficients, each multiplied by the matching power of the point.
    pub fn open_eval_share(pcoeff_share: &Vec<Scalar>, point: &Scalar) -> (r: Scalar)
        ensures
            r.wf(),
            r@ == eval_at(values(pcoeff_share@), point@),
    {
        evaluate(pcoeff_share, point)
    }

    /// This party's packed values of the quotient: its packed values of the
    /// truncated polynomial, each multiplied by the public Toeplitz scalar.
    pub fn open_quotient_share(ptrunc_evals: &Vec<Scalar>, toeplitz: &Scalar) -> (r: Vec<Scalar>)
        ensures
            r@.len() == ptrunc_evals@.len(),
            all_canonical(r@),
            forall|i: int|
                0 <= i < r@.len() ==> (#[trigger] r@[i])@ == (ptrunc_evals@[i]@ * toeplitz@)
                    % modulus(),
    {
        scale_all(ptrunc_evals, toeplitz)
    }
}

/// Each scalar of `v` multiplied by `factor`.
pub fn scale_all(v: &Vec<Scalar>, factor: &Scalar) -> (r: Vec<Scalar>)
    ensures
        r@.len() == v@.len(),
        all_canonical(r@),
        forall|i: int|
            0 <= i < r@.len() ==> (#[trigger] r@[i])@ == (v@[i]@ * factor@) % modulus(),
{
    let mut out: Vec<Scalar> = Vec::new();
    let mut i: usize = 0;
    while i < v.len()
        invariant
            i <= v@.len(),
            out@.len() == i,
            all_canonical(out@),
            forall|j: int| 0 <= j < i ==> (#[trigger] out@[j])@ == (v@[j]@ * factor@) % modulus(),
        decreases v@.len() - i,
    {
        out.push(v[i].times(factor));
        i = i + 1;
    }
    out
}

} // verus!
