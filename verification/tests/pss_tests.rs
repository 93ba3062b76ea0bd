use dist_primitives::domain::{get_k_value_for_domain, EvaluationDomain, EvaluationDomainExt};
use dist_primitives::field::Scalar;
use dist_primitives::pss::PackedSharingParams;
use rand::RngCore;

const L: usize = 4;
const N: usize = L * 4;
const T: usize = N / 2 - L - 1;

fn random_fr<R: RngCore>(rng: &mut R) -> Scalar {
    let values = [rng.next_u64(), rng.next_u64(), rng.next_u64(), rng.next_u64()];
    Scalar::from_raw(values)
}

#[test]
fn test_initialize() {
    let pp = PackedSharingParams::new(L).unwrap();
    assert_eq!(pp.t, L - 1);
    assert_eq!(pp.l, L);
    assert_eq!(pp.n, N);
    assert_eq!(1 << pp.share.k, N);
    assert_eq!(1 << pp.secret.k, L + T + 1);
    assert_eq!(1 << pp.secret2.k, 2 * (L + T + 1));
}

#[test]
fn test_pack_from_public() {
    let pp = PackedSharingParams::new(L).unwrap();
    let rng = &mut ark_std::test_rng();
    let mut secrets = [Scalar::from_u64(0); L];
    for i in 0..L {
        secrets[i] = random_fr(rng);
    }
    let mut secrets = secrets.to_vec();
    let expected = secrets.clone();

    pp.pack_from_public_in_place(&mut secrets);
    pp.unpack_in_place(&mut secrets);

    assert_eq!(expected, secrets);
}

#[test]
fn test_multiplication() {
    let pp = PackedSharingParams::new(L).unwrap();
    let rng = &mut ark_std::test_rng();
    let mut secrets = [Scalar::from_u64(0); L];
    for i in 0..L {
        secrets[i] = random_fr(rng);
    }
    let mut secrets = secrets.to_vec();
    let expected: Vec<Scalar> = secrets.iter().map(|x| x.times(x)).collect();

    pp.pack_from_public_in_place(&mut secrets);

    let mut shares: Vec<Scalar> = secrets.iter().map(|x| x.times(x)).collect();

    pp.unpack2_in_place(&mut shares);

    assert_eq!(expected, shares);
}

#[test]
fn pss_smoke_seven_eleven() {
    let pp = PackedSharingParams::new(2).unwrap();
    let secrets = vec![Scalar::from_u64(7), Scalar::from_u64(11)];
    let shares = pp.pack_from_public(&secrets);
    assert_eq!(shares.len(), 8);
    assert_ne!(shares[..2], secrets[..]);
    let back = pp.unpack(&shares);
    assert_eq!(back, vec![Scalar::from_u64(7), Scalar::from_u64(11)]);
}

#[test]
fn domain_size_and_log() {
    let d = EvaluationDomain::new(3).unwrap();
    assert_eq!(d.size(), 8);
    assert_eq!(get_k_value_for_domain(8), 3);
    assert_eq!(get_k_value_for_domain(9), 3);
    assert_eq!(get_k_value_for_domain(1), 0);
    assert_eq!(get_k_value_for_domain(0), 0);
    assert!(EvaluationDomain::new(29).is_none());
    assert!(PackedSharingParams::new(3).is_none());
    assert!(PackedSharingParams::new(0).is_none());
}

#[test]
fn even_shares_are_the_secrets() {
    for l in [1usize, 2, 4, 8] {
        let pp = PackedSharingParams::new(l).unwrap();
        let secrets: Vec<Scalar> = (0..l).map(|i| Scalar::from_u64(100 + i as u64)).collect();
        let shares = pp.pack_from_public(&secrets);
        assert_eq!(shares.len(), 4 * l);
        for i in 0..l {
            assert_eq!(shares[2 * i], secrets[i]);
        }
        assert_eq!(pp.unpack(&shares), secrets);
        assert_eq!(pp.unpack2(&shares), secrets);
    }
}

#[test]
fn unpack2_keeps_every_second_share() {
    let pp = PackedSharingParams::new(2).unwrap();
    let shares: Vec<Scalar> = (1..=8).map(Scalar::from_u64).collect();
    assert_eq!(pp.unpack2(&shares), vec![Scalar::from_u64(1), Scalar::from_u64(3)]);
    let mut in_place = shares.clone();
    pp.unpack2_in_place(&mut in_place);
    assert_eq!(in_place, vec![Scalar::from_u64(1), Scalar::from_u64(3)]);
}

#[test]
fn transforms_are_inverse_and_pad_with_zeros() {
    let d = EvaluationDomain::new(2).unwrap();
    let mut short = vec![Scalar::from_u64(5), Scalar::from_u64(6)];
    let evals = PackedSharingParams::fft(&mut short, &d);
    assert_eq!(short, vec![Scalar::from_u64(5), Scalar::from_u64(6), Scalar::from_u64(0), Scalar::from_u64(0)]);
    // The value at the first point is the sum of the coefficients.
    assert_eq!(evals[0], Scalar::from_u64(11));
    // The value at the third point, minus one, is 5 - 6.
    assert_eq!(evals[2], Scalar::from_u64(5).minus(&Scalar::from_u64(6)));
    let back = PackedSharingParams::ifft(&mut evals.clone(), &d);
    assert_eq!(back, short);
    let mut long: Vec<Scalar> = (1..=6).map(Scalar::from_u64).collect();
    let cut = PackedSharingParams::fft(&mut long, &d);
    assert_eq!(long.len(), 4);
    assert_eq!(cut[0], Scalar::from_u64(10));
    let coeffs = d.ifft(&mut vec![Scalar::from_u64(3); 4]);
    assert_eq!(coeffs, vec![Scalar::from_u64(3), Scalar::from_u64(0), Scalar::from_u64(0), Scalar::from_u64(0)]);
}

#[test]
fn pack_and_unpack_leave_their_argument() {
    let pp = PackedSharingParams::new(2).unwrap();
    let secrets = vec![Scalar::from_u64(7), Scalar::from_u64(11)];
    let mut in_place = secrets.clone();
    pp.pack_from_public_in_place(&mut in_place);
    assert_eq!(in_place, pp.pack_from_public(&secrets));
    assert_eq!(secrets, vec![Scalar::from_u64(7), Scalar::from_u64(11)]);
    let mut back = in_place.clone();
    pp.unpack_in_place(&mut back);
    assert_eq!(back, secrets);
}
