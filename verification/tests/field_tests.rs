use dist_primitives::fibo::get_fibo_seq;
use dist_primitives::field::{divide_by_linear, evaluate, Scalar};

const MODULUS: [u64; 4] =
    [0x43e1f593f0000001, 0x2833e84879b97091, 0xb85045b68181585d, 0x30644e72e131a029];

fn minus_one() -> Scalar {
    Scalar { limbs: [MODULUS[0] - 1, MODULUS[1], MODULUS[2], MODULUS[3]] }
}

#[test]
fn from_raw_reduces_modulo_the_field_order() {
    assert_eq!(Scalar::from_raw(MODULUS), Scalar::from_u64(0));
    let mut above = MODULUS;
    above[0] += 5;
    assert_eq!(Scalar::from_raw(above), Scalar::from_u64(5));
    assert_eq!(Scalar::from_raw([9, 0, 0, 0]), Scalar { limbs: [9, 0, 0, 0] });
}

#[test]
fn field_operations_on_exact_values() {
    let two = Scalar::from_u64(2);
    let three = Scalar::from_u64(3);
    assert_eq!(two.plus(&three), Scalar::from_u64(5));
    assert_eq!(two.times(&three), Scalar::from_u64(6));
    assert_eq!(three.minus(&two), Scalar::from_u64(1));
    assert_eq!(two.minus(&three), minus_one());
    assert_eq!(minus_one().plus(&two), Scalar::from_u64(1));
    assert_eq!(minus_one().times(&minus_one()), Scalar::from_u64(1));
    assert_eq!(two.pow(10), Scalar::from_u64(1024));
    assert_eq!(two.pow(0), Scalar::from_u64(1));
    let big = Scalar::from_u64(u64::MAX);
    assert_eq!(big.plus(&Scalar::from_u64(1)), Scalar { limbs: [0, 1, 0, 0] });
}

#[test]
fn inverse_of_zero_and_of_others() {
    assert_eq!(Scalar::from_u64(0).invert(), None);
    assert_eq!(Scalar::from_raw(MODULUS).invert(), None);
    let seven = Scalar::from_u64(7);
    let inv = seven.invert().unwrap();
    assert_eq!(seven.times(&inv), Scalar::from_u64(1));
    assert_ne!(inv, seven);
    assert_eq!(minus_one().invert(), Some(minus_one()));
}

#[test]
fn same_compares_limbs() {
    assert!(Scalar::from_u64(4).same(&Scalar::from_u64(4)));
    assert!(!Scalar::from_u64(4).same(&Scalar::from_u64(5)));
}

#[test]
fn evaluation_and_division_by_a_linear_factor() {
    // p(X) = 1 + 2 X + 3 X^2
    let p = vec![Scalar::from_u64(1), Scalar::from_u64(2), Scalar::from_u64(3)];
    assert_eq!(evaluate(&p, &Scalar::from_u64(2)), Scalar::from_u64(17));
    assert_eq!(evaluate(&p, &Scalar::from_u64(0)), Scalar::from_u64(1));
    assert_eq!(evaluate(&Vec::new(), &Scalar::from_u64(9)), Scalar::from_u64(0));
    // (p(X) - p(2)) / (X - 2) = 8 + 3 X
    let q = divide_by_linear(&p, &Scalar::from_u64(2));
    assert_eq!(q, vec![Scalar::from_u64(8), Scalar::from_u64(3)]);
    assert_eq!(divide_by_linear(&vec![Scalar::from_u64(5)], &Scalar::from_u64(2)), Vec::new());
}

#[test]
fn fibo_sequence() {
    assert_eq!(get_fibo_seq(1, 1, 8), vec![1, 1, 2, 3, 5, 8, 13, 21]);
    assert_eq!(get_fibo_seq(5, 2, 2), vec![5, 2]);
    assert_eq!(get_fibo_seq(0, 3, 5), vec![0, 3, 3, 6, 9]);
    let seq = get_fibo_seq(1, 1, 14);
    assert_eq!(seq[13], 377);
}
