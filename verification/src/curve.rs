//! Points of the BN254 group G1, held by their canonical compressed encoding,
//! with the group operations and the transforms over a vector of points.

use crate::domain::{two_pow_exec, EvaluationDomain};
use crate::field::{modulus, pow_mod, root_of_order, two_pow, values, Scalar};
use group::{Group, GroupEncoding};
use halo2_proofs::arithmetic::{best_fft, best_multiexp};
use halo2curves::bn256::{Fr, G1Affine, G1};
use vstd::prelude::*;

verus! {

/// Whether 32 bytes are the compressed encoding of a point of the group.
pub uninterp spec fn is_encoding(bytes: Seq<u8>) -> bool;

/// The encoding of the sum of the two points that `a` and `b` encode.
pub uninterp spec fn point_sum(a: Seq<u8>, b: Seq<u8>) -> Seq<u8>;

/// The encoding of the point that `a` encodes, multiplied by the scalar `s`.
pub uninterp spec fn point_scaled(a: Seq<u8>, s: nat) -> Seq<u8>;

/// The encoding of the neutral element: the identity flag and nothing else.
pub open spec fn identity_encoding() -> Seq<u8> {
    Seq::new(32, |i: int| if i == 31 { 0x40u8 } else { 0u8 })
}

/// The encoding of the group's fixed generator, the point `(1, 2)`.
pub open spec fn generator_encoding() -> Seq<u8> {
    Seq::new(32, |i: int| if i == 0 { 1u8 } else { 0u8 })
}

/// A point of the group, as its compressed encoding.
#[derive(Clone, Copy, Debug, PartialEq, Eq)]
pub struct G1Point {
    pub bytes: [u8; 32],
}

impl View for G1Point {
    type V = Seq<u8>;

    open spec fn view(&self) -> Seq<u8> {
        self.bytes@
    }
}

/// The encodings of a sequence of points.
pub open spec fn encodings(s: Seq<G1Point>) -> Seq<Seq<u8>> {
    Seq::new(s.len(), |i: int| s[i]@)
}

/// Every point of the sequence is well formed.
pub open spec fn all_points(s: Seq<G1Point>) -> bool {
    forall|i: int| 0 <= i < s.len() ==> (#[trigger] s[i]).wf()
}

/// Every entry of the sequence is the encoding of a point.
pub open spec fn all_encodings(s: Seq<Seq<u8>>) -> bool {
    forall|i: int| 0 <= i < s.len() ==> is_encoding(#[trigger] s[i])
}

/// The sum of the points, from the first to the last.
pub open spec fn points_total(points: Seq<Seq<u8>>) -> Seq<u8>
    decreases points.len(),
{
    if points.len() == 0 {
        identity_encoding()
    } else {
        point_sum(points_total(points.drop_last()), points.last())
    }
}

/// The multi-scalar product: the sum of the bases, each multiplied by its
/// scalar.
pub open spec fn msm_value(bases: Seq<Seq<u8>>, scalars: Seq<nat>) -> Seq<u8>
    decreases bases.len(),
{
    if bases.len() == 0 {
        identity_encoding()
    } else {
        point_sum(
            msm_value(bases.drop_last(), scalars.drop_last()),
            point_scaled(bases.last(), scalars.last()),
        )
    }
}

/// The value at the scalar `x` of the polynomial whose coefficients are the
/// points `coeffs`, lowest degree first.
pub open spec fn group_eval_at(coeffs: Seq<Seq<u8>>, x: nat) -> Seq<u8>
    decreases coeffs.len(),
{
    if coeffs.len() == 0 {
        identity_encoding()
    } else {
        point_sum(coeffs[0], point_scaled(group_eval_at(coeffs.skip(1), x), x))
    }
}

/// The Fourier transform of the points `coeffs` over the powers of `omega`.
pub open spec fn group_dft(coeffs: Seq<Seq<u8>>, omega: nat) -> Seq<Seq<u8>> {
    Seq::new(coeffs.len(), |j: int| group_eval_at(coeffs, pow_mod(omega, j as nat)))
}

/// Each point of `s` multiplied by `factor`.
pub open spec fn group_scaled(s: Seq<Seq<u8>>, factor: nat) -> Seq<Seq<u8>> {
    Seq::new(s.len(), |i: int| point_scaled(s[i], factor))
}

/// `s` cut or padded with the neutral element to length `n`.
pub open spec fn group_resized(s: Seq<Seq<u8>>, n: nat) -> Seq<Seq<u8>> {
    Seq::new(n, |i: int| if i < s.len() { s[i] } else { identity_encoding() })
}

/// The forward transform of the points `v` over the domain `d`.
pub open spec fn group_fft_values(v: Seq<Seq<u8>>, d: EvaluationDomain) -> Seq<Seq<u8>> {
    group_dft(group_resized(v, d.len_spec()), d.omega@)
}

/// The inverse transform of the points `v` over the domain `d`.
pub open spec fn group_ifft_values(v: Seq<Seq<u8>>, d: EvaluationDomain) -> Seq<Seq<u8>> {
    group_scaled(group_dft(group_resized(v, d.len_spec()), d.omega_inv@), d.size_inv@)
}

/// `G1::from_bytes` of halo2curves on a compressed encoding: whether it decodes
/// to a point.
#[verifier::external_body]
fn g1_decodes(bytes: &[u8; 32]) -> (r: bool)
    ensures
        r == is_encoding(bytes@),
{
    bool::from(G1::from_bytes(&(*bytes).into()).is_some())
}

/// `G1::identity()`, encoded by `to_bytes`: an all-zero abscissa with the
/// identity flag set in the last byte.
#[verifier::external_body]
fn g1_identity() -> (r: G1Point)
    ensures
        r.wf(),
        r@ == identity_encoding(),
{
    G1Point { bytes: G1::identity().to_bytes().into() }
}

/// `G1::generator()`, encoded by `to_bytes`: the abscissa one, with an even
/// ordinate and so no flag.
#[verifier::external_body]
fn g1_generator() -> (r: G1Point)
    ensures
        r.wf(),
        r@ == generator_encoding(),
{
    G1Point { bytes: G1::generator().to_bytes().into() }
}

/// The group addition of halo2curves on two decoded points, encoded again.
#[verifier::external_body]
fn g1_add(a: &G1Point, b: &G1Point) -> (r: G1Point)
    requires
        a.wf(),
        b.wf(),
    ensures
        r.wf(),
        r@ == point_sum(a@, b@),
{
    let sum = G1::from_bytes(&a.bytes.into()).unwrap() + G1::from_bytes(&b.bytes.into()).unwrap();
    G1Point { bytes: sum.to_bytes().into() }
}

/// The scalar multiplication of halo2curves on a decoded point and the field
/// element congruent to the scalar's limbs, encoded again.
#[verifier::external_body]
fn g1_scale(a: &G1Point, s: &Scalar) -> (r: G1Point)
    requires
        a.wf(),
    ensures
        r.wf(),
        r@ == point_scaled(a@, s@),
{
    let product = G1::from_bytes(&a.bytes.into()).unwrap() * Fr::from_raw(s.limbs);
    G1Point { bytes: product.to_bytes().into() }
}

/// `best_fft` of halo2 on group elements: for `omega` of multiplicative order
/// `2^log_n` it replaces the coefficients in `a` by the values, at the
/// successive powers of `omega`, of the polynomial with those coefficients. As
/// its documentation says, the transform is invertible: its inverse is the same
/// transform with the inverse of `omega`, followed by a division of each entry
/// by the size. The last two clauses state that the two undo each other, in
/// the one order and in the other.
#[verifier::external_body]
fn g1_fft(a: &mut Vec<G1Point>, omega: &Scalar, log_n: u32)
    requires
        log_n < 32,
        old(a)@.len() == two_pow(log_n as nat),
        all_points(old(a)@),
        root_of_order(omega@, log_n as nat),
    ensures
        all_points(final(a)@),
        encodings(final(a)@) == group_dft(encodings(old(a)@), omega@),
        forall|inv: nat, size_inv: nat|
            (omega@ * inv) % modulus() == 1 && (two_pow(log_n as nat) * size_inv) % modulus() == 1
                ==> #[trigger] group_scaled(group_dft(encodings(final(a)@), inv), size_inv)
                == encodings(old(a)@),
        forall|b: Seq<Seq<u8>>, inv: nat, size_inv: nat|
            b.len() == old(a)@.len() && all_encodings(b) && (omega@ * inv) % modulus() == 1 && (
            two_pow(log_n as nat) * size_inv) % modulus() == 1 && encodings(old(a)@)
                == #[trigger] group_scaled(group_dft(b, inv), size_inv) ==> encodings(final(a)@)
                == b,
{
    let mut v: Vec<G1> = a.iter().map(|p| G1::from_bytes(&p.bytes.into()).unwrap()).collect();
    best_fft(&mut v, Fr::from_raw(omega.limbs), log_n);
    for (p, g) in a.iter_mut().zip(v.iter()) {
        *p = G1Point { bytes: g.to_bytes().into() };
    }
}

/// `best_multiexp` of halo2 on decoded bases and the field elements congruent
/// to the scalars: the sum of the bases, each multiplied by its scalar. It
/// panics on vectors of different lengths, which the precondition leaves out.
#[verifier::external_body]
fn g1_msm(bases: &Vec<G1Point>, scalars: &Vec<Scalar>) -> (r: G1Point)
    requires
        bases@.len() == scalars@.len(),
        all_points(bases@),
    ensures
        r.wf(),
        r@ == msm_value(encodings(bases@), values(scalars@)),
{
    let b: Vec<G1Affine> = bases.iter().map(|p| G1Affine::from_bytes(&p.bytes.into()).unwrap()).collect();
    let s: Vec<Fr> = scalars.iter().map(|x| Fr::from_raw(x.limbs)).collect();
    G1Point { bytes: best_multiexp(&s, &b).to_bytes().into() }
}

impl G1Point {
    /// The bytes encode a point of the group.
    pub open spec fn wf(&self) -> bool {
        is_encoding(self@)
    }

    /// The point that `bytes` encode, if they encode one.
    pub fn from_bytes(bytes: [u8; 32]) -> (r: Option<G1Point>)
        ensures
            r.is_some() <==> is_encoding(bytes@),
            r.is_some() ==> r.unwrap().bytes == bytes && r.unwrap().wf(),
    {
        if g1_decodes(&bytes) {
            Some(G1Point { bytes })
        } else {
            None
        }
    }

    /// The neutral element.
    pub fn identity() -> (r: G1Point)
        ensures
            r.wf(),
            r@ == identity_encoding(),
    {
        g1_identity()
    }

    /// The group's fixed generator.
    pub fn generator() -> (r: G1Point)
        ensures
            r.wf(),
            r@ == generator_encoding(),
    {
        g1_generator()
    }

    /// Group addition.
    pub fn plus(&self, other: &G1Point) -> (r: G1Point)
        requires
            self.wf(),
            other.wf(),
        ensures
            r.wf(),
            r@ == point_sum(self@, other@),
    {
        g1_add(self, other)
    }

    /// Multiplication by a scalar.
    pub fn times(&self, s: &Scalar) -> (r: G1Point)
        requires
            self.wf(),
        ensures
            r.wf(),
            r@ == point_scaled(self@, s@),
    {
        g1_scale(self, s)
    }

    /// Whether the point is the neutral element.
    pub fn is_identity(&self) -> (r: bool)
        ensures
            r == (self@ == identity_encoding()),
    {
        let mut i: usize = 0;
        let mut same = true;
        while i < 32
            invariant
                i <= 32,
                same == (forall|j: int|
                    0 <= j < i ==> #[trigger] self@[j] == identity_encoding()[j]),
            decreases 32 - i,
        {
            let expected: u8 = if i == 31 { 0x40 } else { 0 };
            assert(expected == identity_encoding()[i as int]);
            if self.bytes[i] != expected {
                assert(self@[i as int] != identity_encoding()[i as int]);
                same = false;
            }
            i = i + 1;
        }
        assert(same ==> self@ =~= identity_encoding());
        same
    }
}

/// The sum of the points.
pub fn sum_points(points: &Vec<G1Point>) -> (r: G1Point)
    requires
        all_points(points@),
    ensures
        r.wf(),
        r@ == points_total(encodings(points@)),
{
    let mut acc = G1Point::identity();
    let mut i: usize = 0;
    while i < points.len()
        invariant
            i <= points@.len(),
            all_points(points@),
            acc.wf(),
            acc@ == points_total(encodings(points@).subrange(0, i as int)),
        decreases points@.len() - i,
    {
        proof {
            let next = encodings(points@).subrange(0, i + 1);
            assert(next.drop_last() =~= encodings(points@).subrange(0, i as int));
            assert(next.last() == points@[i as int]@);
        }
        acc = acc.plus(&points[i]);
        i = i + 1;
    }
    assert(encodings(points@).subrange(0, i as int) =~= encodings(points@));
    acc
}

/// The multi-scalar product of bases and scalars of one length.
pub fn msm(bases: &Vec<G1Point>, scalars: &Vec<Scalar>) -> (r: G1Point)
    requires
        bases@.len() == scalars@.len(),
        all_points(bases@),
    ensures
        r.wf(),
        r@ == msm_value(encodings(bases@), values(scalars@)),
{
    g1_msm(bases, scalars)
}

/// The forward transform of group elements in place: `points` is cut or padded
/// with the neutral element to the domain's size and replaced by its transform.
pub fn fft_on_group_elements(points: &mut Vec<G1Point>, domain: &EvaluationDomain)
    requires
        domain.wf(),
        all_points(old(points)@),
    ensures
        final(points)@.len() == domain.len_spec(),
        all_points(final(points)@),
        encodings(final(points)@) == group_fft_values(encodings(old(points)@), *domain),
        group_ifft_values(encodings(final(points)@), *domain) == group_resized(
            encodings(old(points)@),
            domain.len_spec(),
        ),
        forall|b: Seq<Seq<u8>>|
            b.len() == domain.len_spec() && all_encodings(b) && group_resized(
                encodings(old(points)@),
                domain.len_spec(),
            ) == #[trigger] group_ifft_values(b, *domain) ==> encodings(final(points)@) == b,
{
    let n = two_pow_exec(domain.k);
    resize_with_identity(points, n);
    let ghost padded = encodings(points@);
    g1_fft(points, &domain.omega, domain.k);
    assert(points@.len() == encodings(points@).len());
    proof {
        assert(group_resized(encodings(points@), domain.len_spec()) =~= encodings(points@));
        assert(group_scaled(
            group_dft(encodings(points@), domain.omega_inv@),
            domain.size_inv@,
        ) == padded);
        assert forall|b: Seq<Seq<u8>>|
            b.len() == domain.len_spec() && all_encodings(b) && padded
                == #[trigger] group_ifft_values(b, *domain) implies encodings(points@) == b by {
            assert(group_resized(b, domain.len_spec()) =~= b);
            assert(padded == group_scaled(group_dft(b, domain.omega_inv@), domain.size_inv@));
        }
    }
}

/// The inverse transform of group elements in place: `points` is cut or padded
/// with the neutral element to the domain's size and replaced by the
/// coefficients of the polynomial that takes those values.
pub fn ifft_on_group_elements(points: &mut Vec<G1Point>, domain: &EvaluationDomain)
    requires
        domain.wf(),
        all_points(old(points)@),
    ensures
        final(points)@.len() == domain.len_spec(),
        all_points(final(points)@),
        encodings(final(points)@) == group_ifft_values(encodings(old(points)@), *domain),
{
    let n = two_pow_exec(domain.k);
    resize_with_identity(points, n);
    g1_fft(points, &domain.omega_inv, domain.k);
    assert(points@.len() == encodings(points@).len());
    let ghost raw = points@;
    let mut i: usize = 0;
    while i < n
        invariant
            i <= n,
            points@.len() == n,
            raw.len() == n,
            all_points(raw),
            forall|j: int| 0 <= j < i ==> (#[trigger] points@[j]).wf() && points@[j]@
                == point_scaled(raw[j]@, domain.size_inv@),
            forall|j: int| i <= j < n ==> points@[j] == raw[j],
        decreases n - i,
    {
        assert(raw[i as int].wf());
        let x = points[i].times(&domain.size_inv);
        points.set(i, x);
        i = i + 1;
    }
    assert(encodings(points@) =~= group_scaled(encodings(raw), domain.size_inv@));
}

/// Cuts `v` or pads it with the neutral element to length `n`.
pub fn resize_with_identity(v: &mut Vec<G1Point>, n: usize)
    requires
        all_points(old(v)@),
    ensures
        final(v)@.len() == n,
        all_points(final(v)@),
        forall|i: int| 0 <= i < n && i < old(v)@.len() ==> final(v)@[i] == old(v)@[i],
        encodings(final(v)@) == group_resized(encodings(old(v)@), n as nat),
{
    if n <= v.len() {
        v.truncate(n);
    } else {
        let neutral = G1Point::identity();
        while v.len() < n
            invariant
                old(v)@.len() <= v@.len() <= n,
                neutral.wf(),
                neutral@ == identity_encoding(),
                forall|i: int| 0 <= i < old(v)@.len() ==> v@[i] == old(v)@[i],
                forall|i: int| old(v)@.len() <= i < v@.len() ==> v@[i] == neutral,
            decreases n - v@.len(),
        {
            v.push(neutral);
        }
    }
    assert(encodings(v@) =~= group_resized(encodings(old(v)@), n as nat));
}

} // verus!
