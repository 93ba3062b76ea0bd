use dist_primitives::dpp::{d_pp_king, partial_products, unpack_columns};
use dist_primitives::field::Scalar;
use dist_primitives::pack::{deg_red_king, pack_vec, transpose};
use dist_primitives::pss::PackedSharingParams;
use rand::RngCore;

fn random_fr<R: RngCore>(rng: &mut R) -> Scalar {
    let values = [rng.next_u64(), rng.next_u64(), rng.next_u64(), rng.next_u64()];
    Scalar::from_raw(values)
}

fn reconstruct(rows: Vec<Vec<Scalar>>, pp: &PackedSharingParams) -> Vec<Scalar> {
    transpose(rows).into_iter().flat_map(|x| pp.unpack(&x)).collect()
}

#[test]
fn transpose_exchanges_rows_and_columns() {
    let m = vec![vec![1u64, 2, 3], vec![4, 5, 6]];
    assert_eq!(transpose(m), vec![vec![1, 4], vec![2, 5], vec![3, 6]]);
    let empty: Vec<Vec<u64>> = Vec::new();
    assert_eq!(transpose(empty), Vec::<Vec<u64>>::new());
}

#[test]
fn pack_vec_packs_chunk_by_chunk() {
    let pp = PackedSharingParams::new(2).unwrap();
    let secrets: Vec<Scalar> = (1..=6).map(Scalar::from_u64).collect();
    let shares = pack_vec(&secrets, &pp);
    assert_eq!(shares.len(), 3);
    for k in 0..3 {
        assert_eq!(shares[k], pp.pack_from_public(&secrets[2 * k..2 * k + 2].to_vec()));
        assert_eq!(pp.unpack(&shares[k]), secrets[2 * k..2 * k + 2].to_vec());
    }
}

#[test]
fn degree_reduction_keeps_the_squares() {
    for l in [2usize, 4] {
        let pp = PackedSharingParams::new(l).unwrap();
        let rng = &mut ark_std::test_rng();
        let x: Vec<Scalar> = (0..4 * l).map(|_| random_fr(rng)).collect();
        let squares: Vec<Scalar> = x.iter().map(|v| v.times(v)).collect();
        let rows = transpose(pack_vec(&x, &pp));
        let squared_rows: Vec<Vec<Scalar>> =
            rows.iter().map(|row| row.iter().map(|v| v.times(v)).collect()).collect();
        let reduced = deg_red_king(squared_rows, &pp);
        assert_eq!(reduced.len(), pp.n);
        assert_eq!(reconstruct(reduced, &pp), squares);
    }
}

#[test]
fn degree_reduction_of_empty_rows() {
    let pp = PackedSharingParams::new(2).unwrap();
    let rows: Vec<Vec<Scalar>> = vec![Vec::new(); pp.n];
    let reduced = deg_red_king(rows, &pp);
    assert_eq!(reduced, vec![Vec::<Scalar>::new(); pp.n]);
}

#[test]
fn partial_products_on_exact_values() {
    let num: Vec<Scalar> = [2u64, 3, 4].iter().map(|v| Scalar::from_u64(*v)).collect();
    let den: Vec<Scalar> = [1u64, 1, 2].iter().map(|v| Scalar::from_u64(*v)).collect();
    let z = partial_products(&num, &den).unwrap();
    assert_eq!(z, vec![Scalar::from_u64(2), Scalar::from_u64(6), Scalar::from_u64(12)]);
    let zero_den: Vec<Scalar> = [1u64, 0, 2].iter().map(|v| Scalar::from_u64(*v)).collect();
    assert_eq!(partial_products(&num, &zero_den), None);
    assert_eq!(partial_products(&Vec::new(), &Vec::new()), Some(Vec::new()));
}

#[test]
fn partial_products_of_equal_vectors_are_ones() {
    let pp = PackedSharingParams::new(2).unwrap();
    let m = 16;
    let x: Vec<Scalar> = (0..m).map(|i| Scalar::from_u64(i as u64 + 1)).collect();
    let rows = transpose(pack_vec(&x, &pp));
    assert_eq!(unpack_columns(&rows, &pp), x);
    let result = d_pp_king(&rows, &rows, &pp).unwrap();
    assert_eq!(reconstruct(result, &pp), vec![Scalar::from_u64(1); m]);
}

#[test]
fn partial_products_of_ones_are_ones() {
    for l in [2usize, 4] {
        let pp = PackedSharingParams::new(l).unwrap();
        let ones = vec![Scalar::from_u64(1); 4 * l];
        let rows = transpose(pack_vec(&ones, &pp));
        let result = d_pp_king(&rows, &rows, &pp).unwrap();
        assert_eq!(reconstruct(result, &pp), ones);
    }
}

#[test]
fn distributed_partial_products_equal_the_plain_ones() {
    let pp = PackedSharingParams::new(2).unwrap();
    let rng = &mut ark_std::test_rng();
    let num: Vec<Scalar> = (0..8).map(|_| random_fr(rng)).collect();
    let den: Vec<Scalar> = (0..8).map(|_| random_fr(rng)).collect();
    let expected = partial_products(&num, &den).unwrap();
    let num_rows = transpose(pack_vec(&num, &pp));
    let den_rows = transpose(pack_vec(&den, &pp));
    let result = d_pp_king(&num_rows, &den_rows, &pp).unwrap();
    assert_eq!(reconstruct(result, &pp), expected);
    let zero_rows = transpose(pack_vec(&vec![Scalar::from_u64(0); 8], &pp));
    assert_eq!(d_pp_king(&num_rows, &zero_rows, &pp), None);
}
