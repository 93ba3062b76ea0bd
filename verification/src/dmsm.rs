//! Packing of group elements and the king's part of the distributed
//! multi-scalar multiplication.

use crate::curve::{
    all_encodings, all_points, encodings, fft_on_group_elements, group_fft_values,
    group_ifft_values, group_resized, identity_encoding, ifft_on_group_elements, points_total,
    sum_points, G1Point,
};
use crate::pss::PackedSharingParams;
use vstd::prelude::*;

verus! {

/// A coefficient beyond the degree bound was not the neutral element: the
/// inputs were no packed shares of that degree.
#[derive(Clone, Copy, Debug, PartialEq, Eq)]
pub struct DegreeBoundError {
    /// The degree bound that was checked.
    pub bound: usize,
    /// The lowest index above the bound with a coefficient other than the neutral
    /// element.
    pub index: usize,
}

/// The degree bound of packed shares: `t + l`, or twice that for shares of
/// degree two.
pub open spec fn degree_bound(degree2: bool, pp: PackedSharingParams) -> nat {
    if degree2 {
        (2 * (pp.t + pp.l)) as nat
    } else {
        (pp.t + pp.l) as nat
    }
}

/// The coefficients, over the share domain, of the polynomial behind the
/// shares.
pub open spec fn share_coeffs(shares: Seq<Seq<u8>>, pp: PackedSharingParams) -> Seq<Seq<u8>> {
    group_ifft_values(shares, pp.share)
}

/// The polynomial behind the shares stays within the degree bound: its
/// coefficients above the bound, up to the number of parties, are all the
/// neutral element.
pub open spec fn within_degree(coeffs: Seq<Seq<u8>>, degree2: bool, pp: PackedSharingParams)
    -> bool {
    forall|i: int|
        degree_bound(degree2, pp) < i < pp.n ==> #[trigger] coeffs[i] == identity_encoding()
}

/// The secrets behind group-element shares whose polynomial has the
/// coefficients `coeffs`: its values over the secret domain, the first `l` of
/// them; for degree two its values over the larger secret domain, every second
/// one of the first `2l`.
pub open spec fn unpackexp_values(coeffs: Seq<Seq<u8>>, degree2: bool, pp: PackedSharingParams)
    -> Seq<Seq<u8>> {
    if degree2 {
        Seq::new(pp.l as nat, |i: int| group_fft_values(coeffs, pp.secret2)[2 * i])
    } else {
        group_fft_values(coeffs, pp.secret).subrange(0, pp.l as int)
    }
}

/// The shares of the group-element secrets `s`.
pub open spec fn packexp_values(s: Seq<Seq<u8>>, pp: PackedSharingParams) -> Seq<Seq<u8>> {
    group_fft_values(group_ifft_values(s, pp.secret), pp.share)
}

/// The coefficients, over the share domain, of the polynomial that packs the
/// secrets `s`: the secrets' interpolant over the secret domain, with the
/// neutral element in the places above.
pub open spec fn packed_coeffs(s: Seq<Seq<u8>>, pp: PackedSharingParams) -> Seq<Seq<u8>> {
    group_resized(group_ifft_values(s, pp.secret), pp.n as nat)
}

/// The first index from `from` on at which `coeffs` is not the neutral element,
/// if there is one below `n`.
fn first_not_neutral(coeffs: &Vec<G1Point>, from: usize, n: usize) -> (r: Option<usize>)
    requires
        coeffs@.len() == n,
    ensures
        r.is_none() <==> (forall|i: int| from <= i < n ==> #[trigger] coeffs@[i]@
            == identity_encoding()),
        r.is_some() ==> from <= r.unwrap() < n && coeffs@[r.unwrap() as int]@
            != identity_encoding() && (forall|i: int| from <= i < r.unwrap() ==> #[trigger] coeffs@[i]@
            == identity_encoding()),
{
    let mut i: usize = from;
    while i < n
        invariant
            coeffs@.len() == n,
            from <= i,
            forall|j: int| from <= j < i && j < n ==> #[trigger] coeffs@[j]@ == identity_encoding(),
        decreases n - i,
    {
        if !coeffs[i].is_identity() {
            return Some(i);
        }
        i = i + 1;
    }
    None
}

/// The secrets behind shares of group elements. The shares are first checked
/// to lie on a polynomial within the degree bound; if they do not, the error
/// names the first coefficient that shows it.
pub fn unpackexp(shares: &Vec<G1Point>, degree2: bool, pp: &PackedSharingParams) -> (r: Result<
    Vec<G1Point>,
    DegreeBoundError,
>)
    requires
        pp.wf(),
        all_points(shares@),
    ensures
        r.is_ok() <==> within_degree(share_coeffs(encodings(shares@), *pp), degree2, *pp),
        r.is_ok() ==> r.unwrap()@.len() == pp.l && all_points(r.unwrap()@) && encodings(
            r.unwrap()@,
        ) == unpackexp_values(share_coeffs(encodings(shares@), *pp), degree2, *pp),
        r.is_err() ==> r.unwrap_err().bound == degree_bound(degree2, *pp) && degree_bound(
            degree2,
            *pp,
        ) < r.unwrap_err().index < pp.n && share_coeffs(
            encodings(shares@),
            *pp,
        )[r.unwrap_err().index as int] != identity_encoding() && (forall|i: int|
            degree_bound(degree2, *pp) < i < r.unwrap_err().index ==> #[trigger] share_coeffs(
                encodings(shares@),
                *pp,
            )[i] == identity_encoding()),
        !degree2 ==> forall|s: Seq<Seq<u8>>|
            s.len() == pp.l && all_encodings(s) && share_coeffs(encodings(shares@), *pp)
                == #[trigger] packed_coeffs(s, *pp) ==> r.is_ok() && encodings(r.unwrap()@) == s,
{
    let mut result = shares.clone();
    assert(result@ =~= shares@);
    ifft_on_group_elements(&mut result, &pp.share);
    let ghost coeffs = encodings(result@);
    let d: usize = if degree2 { 2 * (pp.t + pp.l) } else { pp.t + pp.l };
    assert(coeffs == share_coeffs(encodings(shares@), *pp));
    assert(forall|i: int| 0 <= i < pp.n ==> coeffs[i] == (#[trigger] result@[i])@);
    match first_not_neutral(&result, d + 1, pp.n) {
        Some(index) => {
            assert(coeffs[index as int] == result@[index as int]@);
            assert forall|s: Seq<Seq<u8>>| !degree2 && s.len() == pp.l implies coeffs
                != #[trigger] packed_coeffs(s, *pp) by {
                if !degree2 {
                    assert(packed_coeffs(s, *pp)[index as int] == identity_encoding());
                }
            }
            return Err(DegreeBoundError { bound: d, index });
        },
        None => {},
    }
    if degree2 {
        fft_on_group_elements(&mut result, &pp.secret2);
        let mut kept: Vec<G1Point> = Vec::new();
        let mut i: usize = 0;
        while i < pp.l
            invariant
                pp.wf(),
                i <= pp.l,
                result@.len() == 4 * pp.l,
                all_points(result@),
                all_points(kept@),
                kept@.len() == i,
                forall|j: int| 0 <= j < i ==> kept@[j] == result@[2 * j],
            decreases pp.l - i,
        {
            kept.push(result[2 * i]);
            i = i + 1;
        }
        assert(encodings(kept@) =~= unpackexp_values(coeffs, degree2, *pp));
        Ok(kept)
    } else {
        let ghost before = encodings(result@);
        let neutral = G1Point::identity();
        fft_on_group_elements(&mut result, &pp.secret);
        let ghost evals = encodings(result@);
        result.truncate(pp.l);
        assert(encodings(result@) =~= unpackexp_values(coeffs, degree2, *pp));
        proof {
            assert forall|s: Seq<Seq<u8>>|
                s.len() == pp.l && all_encodings(s) && before == #[trigger] packed_coeffs(
                    s,
                    *pp,
                ) implies encodings(result@) == s by {
                let b = group_resized(s, pp.secret.len_spec());
                assert(group_resized(b, pp.secret.len_spec()) =~= b);
                assert(group_ifft_values(b, pp.secret) == group_ifft_values(s, pp.secret));
                assert(group_resized(before, pp.secret.len_spec()) =~= group_ifft_values(
                    s,
                    pp.secret,
                ));
                assert(evals == b);
                assert(encodings(result@) =~= s);
            }
        }
        Ok(result)
    }
}

/// The `n` shares of `l` group-element secrets.
pub fn packexp_from_public(secrets: &Vec<G1Point>, pp: &PackedSharingParams) -> (shares: Vec<
    G1Point,
>)
    requires
        pp.wf(),
        secrets@.len() == pp.l,
        all_points(secrets@),
    ensures
        shares@.len() == pp.n,
        all_points(shares@),
        encodings(shares@) == packexp_values(encodings(secrets@), *pp),
        share_coeffs(encodings(shares@), *pp) == packed_coeffs(encodings(secrets@), *pp),
        within_degree(share_coeffs(encodings(shares@), *pp), false, *pp),
{
    let mut result = secrets.clone();
    assert(result@ =~= secrets@);
    ifft_on_group_elements(&mut result, &pp.secret);
    fft_on_group_elements(&mut result, &pp.share);
    result
}

/// The king's part of the distributed multi-scalar multiplication. From the
/// parties' local products, which are shares of degree two, the king recovers
/// the secret products, adds them up and hands every party that sum.
pub fn d_msm_king(shares: &Vec<G1Point>, pp: &PackedSharingParams) -> (r: Result<
    Vec<G1Point>,
    DegreeBoundError,
>)
    requires
        pp.wf(),
        all_points(shares@),
    ensures
        r.is_ok() <==> within_degree(share_coeffs(encodings(shares@), *pp), true, *pp),
        r.is_ok() ==> r.unwrap()@.len() == pp.n && all_points(r.unwrap()@) && (forall|i: int|
            0 <= i < pp.n ==> (#[trigger] r.unwrap()@[i])@ == points_total(
                unpackexp_values(share_coeffs(encodings(shares@), *pp), true, *pp),
            )),
{
    match unpackexp(shares, true, pp) {
        Err(e) => Err(e),
        Ok(secrets) => {
            let output = sum_points(&secrets);
            let mut answer: Vec<G1Point> = Vec::new();
            let mut i: usize = 0;
            while i < pp.n
                invariant
                    i <= pp.n,
                    answer@.len() == i,
                    output.wf(),
                    forall|j: int| 0 <= j < i ==> answer@[j] == output,
                decreases pp.n - i,
            {
                answer.push(output);
                i = i + 1;
            }
            Ok(answer)
        },
    }
}

} // verus!
