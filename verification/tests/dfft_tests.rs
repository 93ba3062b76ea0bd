use dist_primitives::dfft::{fft1, fft2, fft_in_place_rearrange};
use dist_primitives::domain::{EvaluationDomain, EvaluationDomainExt};
use dist_primitives::field::Scalar;

fn local_mirror(x: &Vec<Scalar>, l: usize, k: u32, inverse: bool) -> Vec<Scalar> {
    let dom = EvaluationDomain::new(k).unwrap();
    let base = if inverse { dom.omega_inv } else { dom.omega };
    let m = dom.size();
    let mbyl = m / l;
    let mut x = x.clone();
    fft_in_place_rearrange(&mut x, k);
    let mut slices: Vec<Vec<Scalar>> = Vec::new();
    for ii in 0..l {
        let slice: Vec<Scalar> = (0..mbyl).map(|col| x[col + ii * mbyl]).collect();
        slices.push(fft1(&slice, l, &base));
    }
    let mut sx: Vec<Scalar> = Vec::new();
    for col in 0..mbyl {
        for ii in 0..l {
            sx.push(slices[ii][col]);
        }
    }
    fft2(&sx, l, &base)
}

#[test]
fn local_phases_equal_reference_fft() {
    let k = 8;
    let dom = EvaluationDomain::new(k).unwrap();
    let x: Vec<Scalar> = (0..dom.size()).map(|i| Scalar::from_u64(i as u64)).collect();
    let expected = dom.fft(&mut x.clone());
    let got = local_mirror(&x, 2, k, false);
    assert_eq!(expected, got);
}

#[test]
fn local_phases_equal_reference_fft_l4() {
    let k = 6;
    let dom = EvaluationDomain::new(k).unwrap();
    let x: Vec<Scalar> = (0..dom.size()).map(|i| Scalar::from_u64((i * i + 1) as u64)).collect();
    let expected = dom.fft(&mut x.clone());
    let got = local_mirror(&x, 4, k, false);
    assert_eq!(expected, got);
}

use dist_primitives::dfft::{d_fft_king, pack_strided};
use dist_primitives::pack::transpose;
use dist_primitives::pss::PackedSharingParams;
use rand::RngCore;

fn random_fr<R: RngCore>(rng: &mut R) -> Scalar {
    let values = [rng.next_u64(), rng.next_u64(), rng.next_u64(), rng.next_u64()];
    Scalar::from_raw(values)
}

fn share_columns(v: &Vec<Scalar>, pp: &PackedSharingParams) -> Vec<Vec<Scalar>> {
    transpose(pack_strided(v, pp))
}

fn reconstruct_columns(rows: Vec<Vec<Scalar>>, pp: &PackedSharingParams) -> Vec<Scalar> {
    let columns = transpose(rows);
    let cols = columns.len();
    let mut out = vec![Scalar::from_u64(0); cols * pp.l];
    for (i, column) in columns.iter().enumerate() {
        let secrets = pp.unpack(column);
        for j in 0..pp.l {
            out[i + j * cols] = secrets[j];
        }
    }
    out
}

fn distributed(
    rows: &Vec<Vec<Scalar>>,
    inverse: bool,
    rearrange: bool,
    pad: usize,
    dom: &EvaluationDomain,
    pp: &PackedSharingParams,
) -> Vec<Vec<Scalar>> {
    let base = if inverse { dom.omega_inv } else { dom.omega };
    let after: Vec<Vec<Scalar>> = rows.iter().map(|row| fft1(row, pp.l, &base)).collect();
    d_fft_king(&after, inverse, rearrange, pad, dom, pp)
}

#[test]
fn rearrange_is_the_bit_reversal() {
    let mut v: Vec<Scalar> = (0..8).map(Scalar::from_u64).collect();
    fft_in_place_rearrange(&mut v, 3);
    let expected: Vec<Scalar> = [0u64, 4, 2, 6, 1, 5, 3, 7].iter().map(|i| Scalar::from_u64(*i)).collect();
    assert_eq!(v, expected);
    let mut one = vec![Scalar::from_u64(9)];
    fft_in_place_rearrange(&mut one, 0);
    assert_eq!(one, vec![Scalar::from_u64(9)]);
}

#[test]
fn distributed_fft_equals_reference_fft() {
    let pp = PackedSharingParams::new(2).unwrap();
    let k = 8;
    let dom = EvaluationDomain::new(k).unwrap();
    let x: Vec<Scalar> = (0..dom.size()).map(|i| Scalar::from_u64(i as u64 + 1)).collect();
    let expected = dom.fft(&mut x.clone());

    let mut arranged = x.clone();
    fft_in_place_rearrange(&mut arranged, k);
    let rows = share_columns(&arranged, &pp);
    assert_eq!(rows.len(), pp.n);
    assert_eq!(rows[0].len(), dom.size() / pp.l);
    let out = distributed(&rows, false, false, 1, &dom, &pp);
    assert_eq!(reconstruct_columns(out, &pp), expected);
}

#[test]
fn distributed_ifft_equals_reference_ifft() {
    let pp = PackedSharingParams::new(4).unwrap();
    let k = 6;
    let dom = EvaluationDomain::new(k).unwrap();
    let rng = &mut ark_std::test_rng();
    let x: Vec<Scalar> = (0..dom.size()).map(|_| random_fr(rng)).collect();
    let expected = dom.ifft(&mut x.clone());

    let mut arranged = x.clone();
    fft_in_place_rearrange(&mut arranged, k);
    let rows = share_columns(&arranged, &pp);
    let out = distributed(&rows, true, false, 1, &dom, &pp);
    assert_eq!(reconstruct_columns(out, &pp), expected);
}

#[test]
fn distributed_fft_and_ifft_are_inverse() {
    let pp = PackedSharingParams::new(4).unwrap();
    let k = 10;
    let dom = EvaluationDomain::new(k).unwrap();
    let rng = &mut ark_std::test_rng();
    let x: Vec<Scalar> = (0..1024).map(|_| random_fr(rng)).collect();
    let mut arranged = x.clone();
    fft_in_place_rearrange(&mut arranged, k);
    let rows = share_columns(&arranged, &pp);

    let coeffs = distributed(&rows, true, true, 1, &dom, &pp);
    let back = distributed(&coeffs, false, false, 1, &dom, &pp);
    assert_eq!(reconstruct_columns(back, &pp), x);

    let evals = distributed(&rows, false, true, 1, &dom, &pp);
    let back = distributed(&evals, true, false, 1, &dom, &pp);
    assert_eq!(reconstruct_columns(back, &pp), x);
}

#[test]
fn distributed_ifft_extends_the_domain() {
    let pp = PackedSharingParams::new(2).unwrap();
    let k = 4;
    let dom = EvaluationDomain::new(k).unwrap();
    let dom8 = EvaluationDomain::new(k + 3).unwrap();
    let x: Vec<Scalar> = (0..dom.size()).map(|i| Scalar::from_u64(3 * i as u64 + 2)).collect();
    let coeffs = dom.ifft(&mut x.clone());
    let expected = dom8.fft(&mut coeffs.clone());

    let mut arranged = x.clone();
    fft_in_place_rearrange(&mut arranged, k);
    let rows = share_columns(&arranged, &pp);
    let lifted = distributed(&rows, true, true, 8, &dom, &pp);
    assert_eq!(lifted[0].len(), 8 * dom.size() / pp.l);
    let out = distributed(&lifted, false, false, 1, &dom8, &pp);
    let got = reconstruct_columns(out, &pp);
    assert_eq!(got, expected);
    // Every eighth value over the large domain is a value over the small one.
    for i in 0..dom.size() {
        assert_eq!(got[8 * i], x[i]);
    }
}

#[test]
fn local_phases_equal_reference_fft_for_other_packing_factors() {
    for l in [1usize, 8, 16] {
        let k = 5;
        let dom = EvaluationDomain::new(k).unwrap();
        let x: Vec<Scalar> = (0..dom.size()).map(|i| Scalar::from_u64((7 * i + 3) as u64)).collect();
        let expected = dom.fft(&mut x.clone());
        assert_eq!(local_mirror(&x, l, k, false), expected, "packing factor {}", l);
        let expected = dom.ifft(&mut x.clone());
        let scaled: Vec<Scalar> =
            local_mirror(&x, l, k, true).iter().map(|v| v.times(&dom.size_inv)).collect();
        assert_eq!(scaled, expected, "packing factor {}", l);
    }
}
