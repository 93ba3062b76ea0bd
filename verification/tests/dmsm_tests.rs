use dist_primitives::curve::{msm, sum_points, G1Point};
use dist_primitives::dmsm::{d_msm_king, packexp_from_public, unpackexp};
use dist_primitives::field::Scalar;
use dist_primitives::pack::{pack_vec, transpose};
use dist_primitives::pss::PackedSharingParams;
use rand::RngCore;

const L: usize = 2;
const N: usize = L * 4;
const M: usize = 1 << 8;

fn random_fr<R: RngCore>(rng: &mut R) -> Scalar {
    let values = [rng.next_u64(), rng.next_u64(), rng.next_u64(), rng.next_u64()];
    Scalar::from_raw(values)
}

fn create_random_group_elements<R: RngCore>(rng: &mut R, size: usize) -> Vec<G1Point> {
    (0..size)
        .map(|_| {
            let random_scalar = random_fr(rng);
            G1Point::identity().times(&random_scalar)
        })
        .collect()
}

fn create_spread_group_elements<R: RngCore>(rng: &mut R, size: usize) -> Vec<G1Point> {
    (0..size)
        .map(|_| {
            let random_scalar = random_fr(rng);
            G1Point::generator().times(&random_scalar)
        })
        .collect()
}

fn pack_group_columns(bases: &Vec<G1Point>, pp: &PackedSharingParams) -> Vec<Vec<G1Point>> {
    let shares: Vec<Vec<G1Point>> =
        bases.chunks(pp.l).map(|s| packexp_from_public(&s.to_vec(), pp)).collect();
    transpose(shares)
}

#[test]
fn pack_unpack_test() {
    let pp = PackedSharingParams::new(L).unwrap();
    let rng = &mut ark_std::test_rng();
    let secrets = create_random_group_elements(rng, L);

    let shares = packexp_from_public(&secrets, &pp);
    let result = unpackexp(&shares, false, &pp).unwrap();

    assert_eq!(secrets, result);
}

#[test]
fn pack_unpack2_test() {
    let pp = PackedSharingParams::new(L).unwrap();
    let rng = &mut ark_std::test_rng();

    let gsecrets = create_random_group_elements(rng, M);
    let fsecrets: Vec<Scalar> = vec![Scalar::from_u64(1); M];

    let expected = msm(&gsecrets, &fsecrets);

    let gshares = pack_group_columns(&gsecrets, &pp);
    let fshares = transpose(pack_vec(&fsecrets, &pp));

    let mut result = vec![G1Point::identity(); N];
    for i in 0..N {
        result[i] = msm(&gshares[i], &fshares[i]);
    }

    let result = sum_points(&unpackexp(&result, true, &pp).unwrap());
    assert_eq!(expected, result);
}

#[test]
fn group_packing_round_trip_on_spread_points() {
    for l in [2usize, 4] {
        let pp = PackedSharingParams::new(l).unwrap();
        let rng = &mut ark_std::test_rng();
        let secrets = create_spread_group_elements(rng, l);
        let shares = packexp_from_public(&secrets, &pp);
        assert_eq!(shares.len(), 4 * l);
        assert_ne!(shares[..l], secrets[..]);
        let result = unpackexp(&shares, false, &pp).unwrap();
        assert_eq!(secrets, result);
    }
}

#[test]
fn distributed_msm_equals_reference() {
    let pp = PackedSharingParams::new(L).unwrap();
    let rng = &mut ark_std::test_rng();
    let bases = create_spread_group_elements(rng, M);
    let scalars: Vec<Scalar> = (0..M).map(|_| random_fr(rng)).collect();

    let expected = msm(&bases, &scalars);
    assert!(!expected.is_identity());

    let gshares = pack_group_columns(&bases, &pp);
    let fshares = transpose(pack_vec(&scalars, &pp));
    let local: Vec<G1Point> = (0..N).map(|i| msm(&gshares[i], &fshares[i])).collect();

    let answer = d_msm_king(&local, &pp).unwrap();
    assert_eq!(answer.len(), N);
    for share in answer.iter() {
        assert_eq!(share.bytes, expected.bytes);
    }
}

#[test]
fn msm_of_small_input_is_the_plain_sum() {
    let g = G1Point::generator();
    let two_g = g.plus(&g);
    let five_g = g.times(&Scalar::from_u64(5));
    let bases = vec![g, two_g];
    let scalars = vec![Scalar::from_u64(1), Scalar::from_u64(2)];
    assert_eq!(msm(&bases, &scalars), five_g);
    assert_eq!(msm(&Vec::new(), &Vec::new()), G1Point::identity());
    assert_eq!(sum_points(&vec![g, two_g, two_g]), five_g);
}

#[test]
fn shares_above_the_degree_bound_are_refused() {
    let pp = PackedSharingParams::new(L).unwrap();
    let g = G1Point::generator();
    // A single non-neutral share is a polynomial of full degree.
    let mut shares = vec![G1Point::identity(); N];
    shares[1] = g;
    let err = unpackexp(&shares, false, &pp).unwrap_err();
    assert_eq!(err.bound, pp.t + pp.l);
    assert_eq!(err.index, pp.t + pp.l + 1);
    let err2 = unpackexp(&shares, true, &pp).unwrap_err();
    assert_eq!(err2.bound, 2 * (pp.t + pp.l));
    assert_eq!(err2.index, N - 1);
    assert!(d_msm_king(&shares, &pp).is_err());
}

#[test]
fn point_encodings() {
    let id = G1Point::identity();
    let mut expected = [0u8; 32];
    expected[31] = 0x40;
    assert_eq!(id.bytes, expected);
    assert!(id.is_identity());
    let g = G1Point::generator();
    let mut one = [0u8; 32];
    one[0] = 1;
    assert_eq!(g.bytes, one);
    assert!(!g.is_identity());
    assert_eq!(G1Point::from_bytes(one), Some(g));
    // The abscissa 4 is on no point of the curve: 4^3 + 3 = 67 is no square.
    let mut bad = [0xffu8; 32];
    bad[31] = 0x3f;
    assert_eq!(G1Point::from_bytes(bad), None);
    assert_eq!(g.plus(&id), g);
    assert_eq!(g.times(&Scalar::from_u64(0)), id);
}
