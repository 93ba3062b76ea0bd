use dist_primitives::curve::{msm, G1Point};
use dist_primitives::dfft::pack_strided;
use dist_primitives::pack::transpose;
use dist_primitives::domain::{EvaluationDomain, EvaluationDomainExt};
use dist_primitives::dpoly_commit::{scale_all, PackPolyCk};
use dist_primitives::field::{divide_by_linear, Scalar};
use dist_primitives::plonk::{
    element, every_eighth, linearisation, permutation_terms, quotient_terms, Challenges,
    DomainSteps, PackProvingKey, PlonkDomain, WireShares,
};
use dist_primitives::poly_commit::PolyCk;
use dist_primitives::pss::PackedSharingParams;
use dist_primitives::random::{create_random_group_element, create_random_group_elements, random_fr};
use rand::rngs::StdRng;
use rand::SeedableRng;

fn horner(coeffs: &Vec<Scalar>, z: &Scalar) -> Scalar {
    let mut acc = Scalar::from_u64(0);
    for c in coeffs.iter().rev() {
        acc = acc.times(z).plus(c);
    }
    acc
}

#[test]
fn commit_and_open() {
    let m = 256;
    let dom = EvaluationDomain::new(8).unwrap();
    assert_eq!(dom.size(), m);
    let mut rng = StdRng::seed_from_u64(7);
    let ck = PolyCk::new(m, &mut rng);
    assert_eq!(ck.powers_of_tau.len(), m);
    let pevals: Vec<Scalar> = (0..m).map(|i| Scalar::from_u64(i as u64)).collect();
    let z = Scalar::from_u64(123);

    let commitment = ck.commit(&pevals);
    assert_eq!(commitment, msm(&ck.powers_of_tau, &pevals));

    let coeffs = PolyCk::ifft(&mut pevals.clone(), &dom);
    let expected = horner(&coeffs, &z);
    assert_eq!(ck.open(&pevals, z, &dom), expected);
    assert_ne!(expected, Scalar::from_u64(0));

    // The polynomial takes its values back over the domain.
    assert_eq!(horner(&coeffs, &element(5, &dom)), Scalar::from_u64(5));
    assert_eq!(ck.open(&pevals, element(9, &dom), &dom), Scalar::from_u64(9));

    // The proof commits to the quotient by X - z.
    let mut q = divide_by_linear(&coeffs, &z);
    let qevals = PolyCk::fft(&mut q, &dom);
    assert_eq!(ck.witness(&pevals, z, &dom), msm(&ck.powers_of_tau, &qevals));
}

#[test]
fn commit_stops_at_the_shorter_vector() {
    let mut rng = StdRng::seed_from_u64(3);
    let ck = PolyCk::new(4, &mut rng);
    let evals: Vec<Scalar> = (1..=6).map(Scalar::from_u64).collect();
    assert_eq!(ck.commit(&evals), msm(&ck.powers_of_tau, &evals[..4].to_vec()));
    let short: Vec<Scalar> = (1..=2).map(Scalar::from_u64).collect();
    assert_eq!(ck.commit(&short), msm(&ck.powers_of_tau[..2].to_vec(), &short));
}

#[test]
fn quotient_times_divisor_is_the_polynomial() {
    let mut rng = StdRng::seed_from_u64(11);
    let p: Vec<Scalar> = (0..9).map(|_| random_fr(&mut rng)).collect();
    let z = random_fr(&mut rng);
    let x = random_fr(&mut rng);
    let q = divide_by_linear(&p, &z);
    assert_eq!(q.len(), 8);
    let lhs = horner(&q, &x).times(&x.minus(&z));
    let rhs = horner(&p, &x).minus(&horner(&p, &z));
    assert_eq!(lhs, rhs);
}

#[test]
fn random_elements() {
    let mut rng = StdRng::seed_from_u64(1);
    let a = random_fr(&mut rng);
    let b = random_fr(&mut rng);
    assert_ne!(a, b);
    assert_eq!(Scalar::from_raw(a.limbs), a);
    let p = create_random_group_element(&mut rng);
    assert!(G1Point::from_bytes(p.bytes).is_some());
    assert!(!p.is_identity());
    let v = create_random_group_elements(&mut rng, 5);
    assert_eq!(v.len(), 5);
    assert_ne!(v[0], v[1]);
    let mut again = StdRng::seed_from_u64(1);
    assert_eq!(random_fr(&mut again), a);
}

#[test]
fn packed_key_and_local_steps() {
    let pp = PackedSharingParams::new(2).unwrap();
    let mut rng = StdRng::seed_from_u64(5);
    let ck = PackPolyCk::new(16, &mut rng, &pp);
    assert_eq!(ck.powers_of_tau.len(), 8);
    let share: Vec<Scalar> = (1..=8).map(Scalar::from_u64).collect();
    assert_eq!(ck.commit(&share), msm(&ck.powers_of_tau, &share));
    // 1 + 2 * 3 + 3 * 9 = 34
    let coeffs: Vec<Scalar> = (1..=3).map(Scalar::from_u64).collect();
    assert_eq!(PackPolyCk::open_eval_share(&coeffs, &Scalar::from_u64(3)), Scalar::from_u64(34));
    let scaled = PackPolyCk::open_quotient_share(&coeffs, &Scalar::from_u64(123));
    assert_eq!(scaled, vec![Scalar::from_u64(123), Scalar::from_u64(246), Scalar::from_u64(369)]);
    assert_eq!(scale_all(&coeffs, &Scalar::from_u64(0)), vec![Scalar::from_u64(0); 3]);
}

#[test]
fn plonk_domains() {
    let pd = PlonkDomain::new(16).unwrap();
    assert_eq!(pd.n_gates, 16);
    assert_eq!(pd.gates.size(), 16);
    assert_eq!(pd.gates8.size(), 128);
    assert!(PlonkDomain::new(0).is_none());
    assert!(PlonkDomain::new(12).is_none());
    assert!(PlonkDomain::new(1 << 26).is_none());
    let one = Scalar::from_u64(1);
    assert_eq!(element(0, &pd.gates), one);
    assert_eq!(element(1, &pd.gates), pd.gates.omega);
    assert_eq!(element(16, &pd.gates), one);
    assert_eq!(element(8, &pd.gates), Scalar::from_u64(0).minus(&one));
    assert_eq!(element(8, &pd.gates8), pd.gates.omega);
}

fn small_key() -> PackProvingKey {
    let v = |a: u64| vec![Scalar::from_u64(a), Scalar::from_u64(a + 1)];
    PackProvingKey {
        ql: v(2),
        qr: v(3),
        qm: v(4),
        qo: v(5),
        qc: v(6),
        s1: v(7),
        s2: v(8),
        s3: v(9),
    }
}

#[test]
fn proving_key_of_random_shares() {
    let pp = PackedSharingParams::new(2).unwrap();
    let mut rng = StdRng::seed_from_u64(2);
    let pk = PackProvingKey::new(4, &mut rng, &pp);
    for v in [&pk.ql, &pk.qr, &pk.qm, &pk.qo, &pk.qc, &pk.s1, &pk.s2, &pk.s3] {
        assert_eq!(v.len(), 16);
    }
    assert_ne!(pk.ql, pk.qr);
}

#[test]
fn permutation_terms_on_exact_values() {
    let pk = small_key();
    let a = vec![Scalar::from_u64(1), Scalar::from_u64(2)];
    let b = vec![Scalar::from_u64(3), Scalar::from_u64(4)];
    let c = vec![Scalar::from_u64(5), Scalar::from_u64(6)];
    let beta = Scalar::from_u64(2);
    let gamma = Scalar::from_u64(1);
    let omega = Scalar::from_u64(10);
    let (num, den) = permutation_terms(&a, &b, &c, &pk, &beta, &gamma, &omega);
    // i = 0: omega^0 = 1: (1+2+1)(3+2+1)(5+2+1) = 192; (1+14+1)(3+16+1)(5+18+1) = 7680
    // i = 1: omega^1 = 10: (2+20+1)(4+20+1)(6+20+1) = 15525; (2+16+1)(4+18+1)(6+20+1) = 11799
    assert_eq!(num, vec![Scalar::from_u64(192), Scalar::from_u64(15525)]);
    assert_eq!(den, vec![Scalar::from_u64(7680), Scalar::from_u64(11799)]);
}

#[test]
fn linearisation_on_exact_values() {
    let pk = small_key();
    let r = linearisation(&Scalar::from_u64(2), &Scalar::from_u64(3), &Scalar::from_u64(5), &pk, 2);
    // 6*4 + 2*2 + 3*3 + 5*5 + 6 = 68; 6*5 + 2*3 + 3*4 + 5*6 + 7 = 85
    assert_eq!(r, vec![Scalar::from_u64(68), Scalar::from_u64(85)]);
    assert_eq!(linearisation(&Scalar::from_u64(2), &Scalar::from_u64(3), &Scalar::from_u64(5), &pk, 0), Vec::new());
}

#[test]
fn quotient_terms_on_exact_values() {
    let pk = small_key();
    let w = WireShares {
        a: vec![Scalar::from_u64(1), Scalar::from_u64(2)],
        b: vec![Scalar::from_u64(3), Scalar::from_u64(4)],
        c: vec![Scalar::from_u64(5), Scalar::from_u64(6)],
        z: vec![Scalar::from_u64(4), Scalar::from_u64(3)],
    };
    let ch = Challenges {
        beta: Scalar::from_u64(2),
        gamma: Scalar::from_u64(1),
        alpha: Scalar::from_u64(3),
    };
    let st = DomainSteps {
        omega: Scalar::from_u64(10),
        omegan: Scalar::from_u64(5),
        womegan: Scalar::from_u64(2),
    };
    let mut t = vec![Scalar::from_u64(100), Scalar::from_u64(200)];
    quotient_terms(&mut t, &w, &pk, &ch, &st);
    // i = 0: the running powers are 1, so both permutation terms vanish:
    //   100 + (1*3*4 + 1*2 + 3*3 + 5*5 + 6) + (4 - 1) * 9 = 100 + 54 + 27 = 181
    // i = 1: 200 + (2*4*5 + 2*3 + 4*4 + 6*6 + 7) + 15525 * 4 * 3 - 11799 * 1 * 3 + 2 * 9
    //      = 200 + 105 + 186300 - 35397 + 18 = 151226
    assert_eq!(t, vec![Scalar::from_u64(181), Scalar::from_u64(151226)]);
}

#[test]
fn every_eighth_entry() {
    let v: Vec<Scalar> = (0..17).map(Scalar::from_u64).collect();
    assert_eq!(every_eighth(&v), vec![Scalar::from_u64(0), Scalar::from_u64(8), Scalar::from_u64(16)]);
    let v: Vec<Scalar> = (0..16).map(Scalar::from_u64).collect();
    assert_eq!(every_eighth(&v), vec![Scalar::from_u64(0), Scalar::from_u64(8)]);
    assert_eq!(every_eighth(&Vec::new()), Vec::new());
    assert_eq!(every_eighth(&vec![Scalar::from_u64(4)]), vec![Scalar::from_u64(4)]);
}

#[test]
fn shares_of_an_opening_reconstruct_to_the_value() {
    let pp = PackedSharingParams::new(2).unwrap();
    let dom = EvaluationDomain::new(4).unwrap();
    let m = dom.size();
    let cols = m / pp.l;
    let mut rng = StdRng::seed_from_u64(9);
    let coeffs: Vec<Scalar> = (0..m).map(|_| random_fr(&mut rng)).collect();
    let z = Scalar::from_u64(123);
    let expected = horner(&coeffs, &z);

    // Each party evaluates its packed coefficients at the public point.
    let rows = transpose(pack_strided(&coeffs, &pp));
    let shares: Vec<Scalar> = rows.iter().map(|row| PackPolyCk::open_eval_share(row, &z)).collect();
    // The shares pack one partial sum for each of the l rows of the layout.
    let partial = pp.unpack(&shares);
    let step = z.pow(cols as u64);
    let mut weight = Scalar::from_u64(1);
    let mut total = Scalar::from_u64(0);
    for j in 0..pp.l {
        total = total.plus(&partial[j].times(&weight));
        weight = weight.times(&step);
    }
    assert_eq!(total, expected);
}

#[test]
fn fft_and_ifft_of_the_key_type_are_inverse() {
    let dom = EvaluationDomain::new(3).unwrap();
    let x: Vec<Scalar> = (0..8).map(|i| Scalar::from_u64(i * 7 + 1)).collect();
    let evals = PolyCk::fft(&mut x.clone(), &dom);
    assert_ne!(evals, x);
    assert_eq!(PolyCk::ifft(&mut evals.clone(), &dom), x);
    let coeffs = PolyCk::ifft(&mut x.clone(), &dom);
    assert_eq!(PolyCk::fft(&mut coeffs.clone(), &dom), x);
}
