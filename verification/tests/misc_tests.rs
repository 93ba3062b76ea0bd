use dist_primitives::calldata::{encode_calldata, push_be_bytes};
use dist_primitives::curve::{
    fft_on_group_elements, ifft_on_group_elements, resize_with_identity, G1Point,
};
use dist_primitives::dfft::{
    butterfly_columns, butterfly_rows, fft1, fft2, reverse_bits_exec, rotate_right_one, twiddles,
};
use dist_primitives::domain::{
    get_domain_size, resize_with_zeros, two_pow_exec, EvaluationDomain,
};
use dist_primitives::field::Scalar;
use dist_primitives::pack::empty_rows;
use dist_primitives::poly_commit::commit_prefix;

fn s(x: u64) -> Scalar {
    Scalar::from_u64(x)
}

fn neg(x: u64) -> Scalar {
    s(0).minus(&s(x))
}

#[test]
fn calldata_is_big_endian_inputs_then_proof() {
    let mut out = vec![9u8];
    push_be_bytes(&mut out, &Scalar { limbs: [0x0102030405060708, 0, 0, 0xa1a2a3a4a5a6a7a8] });
    let mut expected = vec![9u8, 0xa1, 0xa2, 0xa3, 0xa4, 0xa5, 0xa6, 0xa7, 0xa8];
    expected.extend_from_slice(&[0u8; 16]);
    expected.extend_from_slice(&[1, 2, 3, 4, 5, 6, 7, 8]);
    assert_eq!(out, expected);

    let instances = vec![vec![s(1), s(258)], vec![], vec![s(3)]];
    let calldata = encode_calldata(&instances, &vec![0xde, 0xad]);
    assert_eq!(calldata.len(), 3 * 32 + 2);
    assert_eq!(calldata[31], 1);
    assert_eq!(calldata[62], 1);
    assert_eq!(calldata[63], 2);
    assert_eq!(calldata[95], 3);
    assert_eq!(&calldata[96..], &[0xde, 0xad]);
    assert_eq!(calldata.iter().filter(|b| **b != 0).count(), 6);
    assert_eq!(encode_calldata(&Vec::new(), &vec![7]), vec![7]);
}

#[test]
fn domain_generators() {
    let d = EvaluationDomain::new(4).unwrap();
    assert_eq!(get_domain_size(&d), 16);
    assert_eq!(two_pow_exec(0), 1);
    assert_eq!(two_pow_exec(28), 1 << 28);
    assert_ne!(d.omega, s(1));
    assert_ne!(d.omega, d.omega_inv);
    assert_eq!(d.omega.times(&d.omega_inv), s(1));
    assert_eq!(d.size_inv.times(&s(16)), s(1));
    assert_eq!(d.omega.pow(8), neg(1));
    let d0 = EvaluationDomain::new(0).unwrap();
    assert_eq!(d0.omega, s(1));
    assert_eq!(d0.fft(&mut vec![s(5)]), vec![s(5)]);
    let half = EvaluationDomain::new(3).unwrap();
    assert_eq!(d.omega.times(&d.omega), half.omega);
    assert!(EvaluationDomain::new(28).is_some());
}

#[test]
fn resizing() {
    let mut v = vec![s(1), s(2), s(3)];
    resize_with_zeros(&mut v, 5);
    assert_eq!(v, vec![s(1), s(2), s(3), s(0), s(0)]);
    resize_with_zeros(&mut v, 2);
    assert_eq!(v, vec![s(1), s(2)]);
    let g = G1Point::generator();
    let mut p = vec![g];
    resize_with_identity(&mut p, 3);
    assert_eq!(p, vec![g, G1Point::identity(), G1Point::identity()]);
    resize_with_identity(&mut p, 0);
    assert!(p.is_empty());
    assert_eq!(empty_rows(3), vec![Vec::<Scalar>::new(); 3]);
}

#[test]
fn group_transform_on_small_input() {
    let d = EvaluationDomain::new(1).unwrap();
    let g = G1Point::generator();
    let two_g = g.plus(&g);
    let mut v = vec![two_g, g];
    fft_on_group_elements(&mut v, &d);
    // Values at 1 and at -1 of the polynomial 2g + g X.
    assert_eq!(v, vec![g.times(&s(3)), g]);
    ifft_on_group_elements(&mut v, &d);
    assert_eq!(v, vec![two_g, g]);
    let mut short = vec![g];
    fft_on_group_elements(&mut short, &d);
    assert_eq!(short, vec![g, g]);
}

#[test]
fn commit_prefix_on_small_input() {
    let g = G1Point::generator();
    let bases = vec![g, g, g];
    assert_eq!(commit_prefix(&bases, &vec![s(2), s(5)]), g.times(&s(7)));
    assert_eq!(commit_prefix(&bases, &Vec::new()), G1Point::identity());
}

#[test]
fn reversal_and_rotation() {
    assert_eq!(reverse_bits_exec(1, 3), 4);
    assert_eq!(reverse_bits_exec(6, 3), 3);
    assert_eq!(reverse_bits_exec(5, 4), 10);
    assert_eq!(reverse_bits_exec(0, 0), 0);
    let mut v = vec![s(1), s(2), s(3)];
    rotate_right_one(&mut v);
    assert_eq!(v, vec![s(3), s(1), s(2)]);
    let mut e: Vec<Scalar> = Vec::new();
    rotate_right_one(&mut e);
    assert!(e.is_empty());
}

#[test]
fn butterflies_on_exact_values() {
    assert_eq!(twiddles(&s(3), 3), vec![s(3), s(9), s(27)]);
    assert_eq!(twiddles(&s(3), 0), Vec::new());
    // Two blocks of two entries, stride 3: (a, b) -> (a + 3 b, a - 3 b).
    let v = vec![s(10), s(1), s(20), s(2)];
    assert_eq!(butterfly_columns(&v, 1, 2, &s(3)), vec![s(13), s(7), s(26), s(14)]);
    // One block of four entries: the second pair uses the stride squared.
    assert_eq!(butterfly_columns(&v, 2, 1, &s(3)), vec![s(70), s(19), neg(50), neg(17)]);
    // Two rows of two entries: row k uses the (k + 1)-th power of the stride.
    assert_eq!(butterfly_rows(&v, 2, 1, &s(3)), vec![s(13), s(38), s(7), s(2)]);
    // One row of four entries.
    assert_eq!(butterfly_rows(&v, 1, 2, &s(3)), vec![s(13), s(26), s(7), s(14)]);
}

#[test]
fn phases_on_short_vectors() {
    let one = vec![s(4)];
    assert_eq!(fft1(&one, 2, &s(3)), one);
    assert_eq!(fft2(&one, 1, &s(3)), one);
    let v = vec![s(1), s(2), s(3)];
    assert_eq!(fft1(&v, 1, &s(3)), v);
    // With no level to run, the second phase only turns the vector.
    assert_eq!(fft2(&v, 2, &s(3)), vec![s(3), s(1), s(2)]);
    // One level of the first phase on two entries, stride 5^(1*2) = 25.
    assert_eq!(fft1(&vec![s(1), s(2)], 2, &s(5)), vec![s(51), neg(49)]);
}
