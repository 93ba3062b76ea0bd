//! Random scalars and group elements, drawn from a seeded generator.

use crate::curve::{all_points, generator_encoding, point_scaled, G1Point};
use crate::field::Scalar;
use ff::Field;
use halo2curves::bn256::Fr;
use rand::rngs::StdRng;
use vstd::prelude::*;

verus! {

/// The standard generator of the `rand` crate.
#[verifier::external_type_specification]
#[verifier::external_body]
pub struct ExStdRng(StdRng);

/// `Fr::random` of halo2curves on the generator: some field element, in canonical
/// form. Nothing more holds of every draw.
#[verifier::external_body]
pub fn random_fr(rng: &mut StdRng) -> (r: Scalar)
    ensures
        r.wf(),
{
    let bytes = Fr::random(rng).to_bytes();
    let w: Vec<u64> = bytes.chunks_exact(8).map(|c| u64::from_le_bytes(c.try_into().unwrap())).collect();
    Scalar { limbs: [w[0], w[1], w[2], w[3]] }
}

/// `p` is the group's generator multiplied by some canonical scalar.
pub open spec fn is_multiple_of_generator(p: G1Point) -> bool {
    exists|s: Scalar| s.wf() && p@ == point_scaled(generator_encoding(), #[trigger] s@)
}

/// A group element: the generator multiplied by a random scalar.
pub fn create_random_group_element(rng: &mut StdRng) -> (r: G1Point)
    ensures
        r.wf(),
        is_multiple_of_generator(r),
{
    let random_scalar = random_fr(rng);
    G1Point::generator().times(&random_scalar)
}

/// `size` random group elements.
pub fn create_random_group_elements(rng: &mut StdRng, size: usize) -> (r: Vec<G1Point>)
    ensures
        r@.len() == size,
        all_points(r@),
        forall|i: int| 0 <= i < size ==> is_multiple_of_generator(#[trigger] r@[i]),
{
    let mut out: Vec<G1Point> = Vec::new();
    let mut i: usize = 0;
    while i < size
        invariant
            i <= size,
            out@.len() == i,
            all_points(out@),
            forall|j: int| 0 <= j < i ==> is_multiple_of_generator(#[trigger] out@[j]),
        decreases size - i,
    {
        let p = create_random_group_element(rng);
        out.push(p);
        i = i + 1;
    }
    out
}

} // verus!
