//! Scalars of the BN254 scalar field, held as four little-endian limbs, and the
//! arithmetic facts that the rest of the library states its contracts with.

use ff::Field;
use halo2_proofs::arithmetic::{best_fft, eval_polynomial, kate_division};
use halo2curves::bn256::Fr;
use vstd::prelude::*;

verus! {

/// Two to the power 64, the weight of one limb.
pub open spec fn limb_base() -> nat {
    0x1_0000_0000_0000_0000
}

/// The number that four little-endian limbs stand for.
pub open spec fn limbs_value(limbs: Seq<u64>) -> nat {
    (limbs[0] as nat) + limb_base() * ((limbs[1] as nat) + limb_base() * ((limbs[2] as nat)
        + limb_base() * (limbs[3] as nat)))
}

/// The order of the scalar field.
pub open spec fn modulus() -> nat {
    0x43e1f593f0000001 + limb_base() * (0x2833e84879b97091 + limb_base() * (0xb85045b68181585d
        + limb_base() * 0x30644e72e131a029))
}

/// `base` raised to `exp`, reduced modulo the field order.
pub open spec fn pow_mod(base: nat, exp: nat) -> nat
    decreases exp,
{
    if exp == 0 {
        1
    } else {
        (base * pow_mod(base, (exp - 1) as nat)) % modulus()
    }
}

/// `base` squared `times` times over, reduced modulo the field order: the power
/// `base^(2^times)`.
pub open spec fn square_chain(base: nat, times: nat) -> nat
    decreases times,
{
    if times == 0 {
        base % modulus()
    } else {
        let prev = square_chain(base, (times - 1) as nat);
        (prev * prev) % modulus()
    }
}

/// Two to the power `k`.
pub open spec fn two_pow(k: nat) -> nat
    decreases k,
{
    if k == 0 {
        1
    } else {
        2 * two_pow((k - 1) as nat)
    }
}

/// `omega` generates the multiplicative subgroup of order `2^k`: its
/// `2^(k-1)`-th power is minus one (for `k = 0`, it is one).
pub open spec fn root_of_order(omega: nat, k: nat) -> bool {
    if k == 0 {
        omega % modulus() == 1
    } else {
        square_chain(omega, (k - 1) as nat) == modulus() - 1
    }
}

/// The value at `x` of the polynomial with coefficients `coeffs`, lowest degree
/// first, reduced modulo the field order.
pub open spec fn eval_at(coeffs: Seq<nat>, x: nat) -> nat
    decreases coeffs.len(),
{
    if coeffs.len() == 0 {
        0
    } else {
        (coeffs[0] + x * eval_at(coeffs.skip(1), x)) % modulus()
    }
}

/// The sum of two numbers in the field.
pub open spec fn fadd(a: nat, b: nat) -> nat {
    (a + b) % modulus()
}

/// The difference of two numbers in the field.
pub open spec fn fsub(a: nat, b: nat) -> nat {
    ((a as int - b as int) % (modulus() as int)) as nat
}

/// The product of two numbers in the field.
pub open spec fn fmul(a: nat, b: nat) -> nat {
    (a * b) % modulus()
}

/// A scalar, as four little-endian 64-bit limbs.
#[derive(Clone, Copy, Debug, PartialEq, Eq)]
pub struct Scalar {
    pub limbs: [u64; 4],
}

impl View for Scalar {
    type V = nat;

    open spec fn view(&self) -> nat {
        limbs_value(self.limbs@)
    }
}

/// The numbers that a sequence of scalars stands for.
pub open spec fn values(s: Seq<Scalar>) -> Seq<nat> {
    Seq::new(s.len(), |i: int| s[i]@)
}

/// Every scalar of the sequence is canonical.
pub open spec fn all_canonical(s: Seq<Scalar>) -> bool {
    forall|i: int| 0 <= i < s.len() ==> (#[trigger] s[i]).wf()
}

/// The discrete Fourier transform of `coeffs` over the powers of `omega`: entry
/// `j` is the polynomial's value at `omega^j`.
pub open spec fn dft(coeffs: Seq<nat>, omega: nat) -> Seq<nat> {
    Seq::new(coeffs.len(), |j: int| eval_at(coeffs, pow_mod(omega, j as nat)))
}

/// Each entry of `s` multiplied by `factor`, modulo the field order.
pub open spec fn scaled(s: Seq<nat>, factor: nat) -> Seq<nat> {
    Seq::new(s.len(), |i: int| (s[i] * factor) % modulus())
}

/// Each entry of `s` reduced modulo the field order.
pub open spec fn reduced(s: Seq<nat>) -> Seq<nat> {
    Seq::new(s.len(), |i: int| s[i] % modulus())
}

/// Multiplication of two field elements given by their limbs: `Fr::from_raw`
/// takes each operand to the element congruent to it, `*` multiplies in the
/// field, and `to_bytes` gives the canonical little-endian form of the product.
#[verifier::external_body]
fn fr_mul(a: &Scalar, b: &Scalar) -> (r: Scalar)
    ensures
        r@ == (a@ * b@) % modulus(),
{
    let bytes = (Fr::from_raw(a.limbs) * Fr::from_raw(b.limbs)).to_bytes();
    let w: Vec<u64> = bytes.chunks_exact(8).map(|c| u64::from_le_bytes(c.try_into().unwrap())).collect();
    Scalar { limbs: [w[0], w[1], w[2], w[3]] }
}

/// Addition of two field elements given by their limbs, through `Fr::from_raw`,
/// `+` and `to_bytes`: the canonical form of the sum.
#[verifier::external_body]
fn fr_add(a: &Scalar, b: &Scalar) -> (r: Scalar)
    ensures
        r@ == (a@ + b@) % modulus(),
{
    let bytes = (Fr::from_raw(a.limbs) + Fr::from_raw(b.limbs)).to_bytes();
    let w: Vec<u64> = bytes.chunks_exact(8).map(|c| u64::from_le_bytes(c.try_into().unwrap())).collect();
    Scalar { limbs: [w[0], w[1], w[2], w[3]] }
}

/// Subtraction of two field elements given by their limbs, through
/// `Fr::from_raw`, `-` and `to_bytes`: the canonical form of the difference.
#[verifier::external_body]
fn fr_sub(a: &Scalar, b: &Scalar) -> (r: Scalar)
    ensures
        r@ == ((a@ as int) - (b@ as int)) % (modulus() as int),
{
    let bytes = (Fr::from_raw(a.limbs) - Fr::from_raw(b.limbs)).to_bytes();
    let w: Vec<u64> = bytes.chunks_exact(8).map(|c| u64::from_le_bytes(c.try_into().unwrap())).collect();
    Scalar { limbs: [w[0], w[1], w[2], w[3]] }
}

/// The multiplicative inverse, through `Fr::invert`, which fails exactly on
/// zero; on success the product of the operand and the canonical result is one.
#[verifier::external_body]
fn fr_invert(a: &Scalar) -> (r: Option<Scalar>)
    ensures
        r.is_none() <==> a@ % modulus() == 0,
        r.is_some() ==> r.unwrap().wf() && (a@ * r.unwrap()@) % modulus() == 1,
{
    let inv: Option<Fr> = Fr::from_raw(a.limbs).invert().into();
    let bytes = inv?.to_bytes();
    let w: Vec<u64> = bytes.chunks_exact(8).map(|c| u64::from_le_bytes(c.try_into().unwrap())).collect();
    Some(Scalar { limbs: [w[0], w[1], w[2], w[3]] })
}

/// `best_fft` of halo2 on field elements: for `omega` of multiplicative order
/// `2^log_n` it replaces the coefficients in `a` by the polynomial's values at
/// the successive powers of `omega`, each in canonical form. As its
/// documentation says, the transform is undone by the same transform with the
/// inverse of `omega`, followed by a division of each entry by the size.
#[verifier::external_body]
pub(crate) fn fr_fft(a: &mut Vec<Scalar>, omega: &Scalar, log_n: u32)
    requires
        log_n < 32,
        old(a)@.len() == two_pow(log_n as nat),
        root_of_order(omega@, log_n as nat),
    ensures
        all_canonical(final(a)@),
        values(final(a)@) == dft(values(old(a)@), omega@),
        forall|inv: nat, size_inv: nat|
            (omega@ * inv) % modulus() == 1 && (two_pow(log_n as nat) * size_inv) % modulus() == 1
                ==> #[trigger] scaled(dft(values(final(a)@), inv), size_inv) == reduced(
                values(old(a)@),
            ),
{
    let mut v: Vec<Fr> = a.iter().map(|s| Fr::from_raw(s.limbs)).collect();
    best_fft(&mut v, Fr::from_raw(omega.limbs), log_n);
    for (s, f) in a.iter_mut().zip(v.iter()) {
        let w: Vec<u64> = f.to_bytes().chunks_exact(8).map(|c| u64::from_le_bytes(c.try_into().unwrap())).collect();
        *s = Scalar { limbs: [w[0], w[1], w[2], w[3]] };
    }
}

/// Coefficient `j` of the quotient of the polynomial `coeffs` by `X - point`:
/// the top one is the polynomial's leading coefficient, and each one below is
/// the polynomial's next coefficient plus `point` times the one above.
pub open spec fn quotient_coeff(coeffs: Seq<nat>, point: nat, j: nat) -> nat
    decreases coeffs.len() - j,
{
    if j + 2 >= coeffs.len() {
        coeffs[(j + 1) as int] % modulus()
    } else {
        (coeffs[(j + 1) as int] + point * quotient_coeff(coeffs, point, j + 1)) % modulus()
    }
}

/// The quotient of the polynomial `coeffs` by `X - point`, the remainder
/// dropped.
pub open spec fn quotient_values(coeffs: Seq<nat>, point: nat) -> Seq<nat> {
    Seq::new((coeffs.len() - 1) as nat, |j: int| quotient_coeff(coeffs, point, j as nat))
}

/// `pow_vartime` of the `ff` crate on the field element congruent to the limbs
/// of `base`: its power with the exponent `exp`, in canonical form.
#[verifier::external_body]
fn fr_pow(base: &Scalar, exp: u64) -> (r: Scalar)
    ensures
        r.wf(),
        r@ == pow_mod(base@, exp as nat) % modulus(),
{
    let bytes = Fr::from_raw(base.limbs).pow_vartime([exp]).to_bytes();
    let w: Vec<u64> = bytes.chunks_exact(8).map(|c| u64::from_le_bytes(c.try_into().unwrap())).collect();
    Scalar { limbs: [w[0], w[1], w[2], w[3]] }
}

/// `eval_polynomial` of halo2: the value at `point` of the polynomial with the
/// coefficients `poly`, in canonical form.
#[verifier::external_body]
fn fr_eval(poly: &Vec<Scalar>, point: &Scalar) -> (r: Scalar)
    ensures
        r.wf(),
        r@ == eval_at(values(poly@), point@),
{
    let coeffs: Vec<Fr> = poly.iter().map(|s| Fr::from_raw(s.limbs)).collect();
    let bytes = eval_polynomial(&coeffs, Fr::from_raw(point.limbs)).to_bytes();
    let w: Vec<u64> = bytes.chunks_exact(8).map(|c| u64::from_le_bytes(c.try_into().unwrap())).collect();
    Scalar { limbs: [w[0], w[1], w[2], w[3]] }
}

/// `kate_division` of halo2: the quotient of the polynomial `poly` by
/// `X - point`, one coefficient shorter, in canonical form. It panics on an
/// empty polynomial, which the precondition leaves out.
#[verifier::external_body]
fn fr_quotient(poly: &Vec<Scalar>, point: &Scalar) -> (q: Vec<Scalar>)
    requires
        poly@.len() >= 1,
    ensures
        all_canonical(q@),
        values(q@) == quotient_values(values(poly@), point@),
{
    let coeffs: Vec<Fr> = poly.iter().map(|s| Fr::from_raw(s.limbs)).collect();
    let mut q: Vec<Scalar> = Vec::new();
    for f in kate_division(&coeffs, Fr::from_raw(point.limbs)) {
        let w: Vec<u64> = f.to_bytes().chunks_exact(8).map(|c| u64::from_le_bytes(c.try_into().unwrap())).collect();
        q.push(Scalar { limbs: [w[0], w[1], w[2], w[3]] });
    }
    q
}

/// The value at `point` of the polynomial with the coefficients `poly`, lowest
/// degree first.
pub fn evaluate(poly: &Vec<Scalar>, point: &Scalar) -> (r: Scalar)
    ensures
        r.wf(),
        r@ == eval_at(values(poly@), point@),
{
    fr_eval(poly, point)
}

/// The quotient of the polynomial `poly` by `X - point`.
pub fn divide_by_linear(poly: &Vec<Scalar>, point: &Scalar) -> (q: Vec<Scalar>)
    requires
        poly@.len() >= 1,
    ensures
        q@.len() == poly@.len() - 1,
        all_canonical(q@),
        values(q@) == quotient_values(values(poly@), point@),
{
    let q = fr_quotient(poly, point);
    assert(q@.len() == values(q@).len());
    q
}

impl Scalar {
    /// The scalar is in canonical form: below the field order.
    pub open spec fn wf(&self) -> bool {
        self@ < modulus()
    }

    /// The scalar that stands for `x`.
    pub fn from_u64(x: u64) -> (r: Scalar)
        ensures
            r@ == x,
            r.wf(),
    {
        let r = Scalar { limbs: [x, 0, 0, 0] };
        assert(r.limbs@[0] == x && r.limbs@[1] == 0 && r.limbs@[2] == 0 && r.limbs@[3] == 0);
        assert(r@ == x) by (nonlinear_arith)
            requires
                r@ == (x as nat) + limb_base() * (0 + limb_base() * (0 + limb_base() * 0)),
        ;
        assert(r@ < modulus()) by {
            lemma_modulus_large();
        }
        r
    }

    /// The canonical scalar congruent to the number that `limbs` stand for.
    pub fn from_raw(limbs: [u64; 4]) -> (r: Scalar)
        ensures
            r.wf(),
            r@ == limbs_value(limbs@) % modulus(),
    {
        let raw = Scalar { limbs };
        let one = Scalar::from_u64(1);
        let r = fr_mul(&raw, &one);
        proof {
            lemma_modulus_large();
            assert(raw@ * 1 == raw@) by (nonlinear_arith);
            lemma_mod_bound(raw@ as int);
        }
        r
    }

    /// Field addition.
    pub fn plus(&self, other: &Scalar) -> (r: Scalar)
        ensures
            r.wf(),
            r@ == (self@ + other@) % modulus(),
    {
        proof {
            lemma_mod_bound((self@ + other@) as int);
        }
        fr_add(self, other)
    }

    /// Field subtraction.
    pub fn minus(&self, other: &Scalar) -> (r: Scalar)
        ensures
            r.wf(),
            r@ == ((self@ as int) - (other@ as int)) % (modulus() as int),
    {
        proof {
            lemma_mod_bound((self@ as int) - (other@ as int));
        }
        fr_sub(self, other)
    }

    /// Field multiplication.
    pub fn times(&self, other: &Scalar) -> (r: Scalar)
        ensures
            r.wf(),
            r@ == (self@ * other@) % modulus(),
    {
        proof {
            lemma_mod_bound((self@ * other@) as int);
        }
        fr_mul(self, other)
    }

    /// The multiplicative inverse; `None` exactly for a scalar congruent to zero.
    pub fn invert(&self) -> (r: Option<Scalar>)
        ensures
            r.is_none() <==> self@ % modulus() == 0,
            r.is_some() ==> r.unwrap().wf() && (self@ * r.unwrap()@) % modulus() == 1,
    {
        fr_invert(self)
    }

    /// Two canonical scalars have the same limbs exactly when they stand for the
    /// same number.
    pub proof fn lemma_same_value(a: Scalar, b: Scalar)
        ensures
            (a.limbs@ == b.limbs@) <==> a@ == b@,
    {
        if a@ == b@ {
            lemma_limbs_injective(a.limbs@, b.limbs@);
            assert(a.limbs@ =~= b.limbs@);
        }
    }

    /// The power with the exponent `exp`.
    pub fn pow(&self, exp: u64) -> (r: Scalar)
        ensures
            r.wf(),
            r@ == pow_mod(self@, exp as nat) % modulus(),
    {
        fr_pow(self, exp)
    }

    /// Whether two scalars have the same limbs.
    pub fn same(&self, other: &Scalar) -> (r: bool)
        ensures
            r == (self.limbs@ == other.limbs@),
    {
        let r = self.limbs[0] == other.limbs[0] && self.limbs[1] == other.limbs[1]
            && self.limbs[2] == other.limbs[2] && self.limbs[3] == other.limbs[3];
        assert(r ==> self.limbs@ =~= other.limbs@);
        r
    }
}

/// Four limbs are determined by the number they stand for.
pub proof fn lemma_limbs_injective(a: Seq<u64>, b: Seq<u64>)
    requires
        a.len() == 4,
        b.len() == 4,
        limbs_value(a) == limbs_value(b),
    ensures
        a[0] == b[0],
        a[1] == b[1],
        a[2] == b[2],
        a[3] == b[3],
{
    let m = limb_base() as int;
    let a0 = a[0] as int;
    let a1 = a[1] as int;
    let a2 = a[2] as int;
    let a3 = a[3] as int;
    let b0 = b[0] as int;
    let b1 = b[1] as int;
    let b2 = b[2] as int;
    let b3 = b[3] as int;
    lemma_split_unique(a0, a1 + m * (a2 + m * a3), b0, b1 + m * (b2 + m * b3));
    lemma_split_unique(a1, a2 + m * a3, b1, b2 + m * b3);
    lemma_split_unique(a2, a3, b2, b3);
}

/// A number splits in one way into a low limb and the rest.
proof fn lemma_split_unique(lo1: int, hi1: int, lo2: int, hi2: int)
    requires
        0 <= lo1 < limb_base(),
        0 <= lo2 < limb_base(),
        lo1 + limb_base() * hi1 == lo2 + limb_base() * hi2,
    ensures
        lo1 == lo2,
        hi1 == hi2,
{
    assert(lo1 == lo2 && hi1 == hi2) by (nonlinear_arith)
        requires
            0 <= lo1 < 0x1_0000_0000_0000_0000,
            0 <= lo2 < 0x1_0000_0000_0000_0000,
            lo1 + 0x1_0000_0000_0000_0000 * hi1 == lo2 + 0x1_0000_0000_0000_0000 * hi2,
    ;
}

/// Numbers below the field order are left as they are by the reduction.
pub proof fn lemma_reduced_canonical(s: Seq<nat>)
    requires
        forall|i: int| 0 <= i < s.len() ==> #[trigger] s[i] < modulus(),
    ensures
        reduced(s) == s,
{
    assert forall|i: int| 0 <= i < s.len() implies reduced(s)[i] == s[i] by {
        vstd::arithmetic::div_mod::lemma_small_mod(s[i], modulus());
    }
    assert(reduced(s) =~= s);
}

/// A polynomial whose coefficients are all zero has the value zero.
pub proof fn lemma_eval_zeros(c: Seq<nat>, x: nat)
    requires
        forall|i: int| 0 <= i < c.len() ==> #[trigger] c[i] == 0,
    ensures
        eval_at(c, x) == 0,
    decreases c.len(),
{
    lemma_modulus_large();
    if c.len() > 0 {
        lemma_eval_zeros(c.skip(1), x);
        assert(c[0] == 0);
        assert(x * eval_at(c.skip(1), x) == 0) by (nonlinear_arith)
            requires
                eval_at(c.skip(1), x) == 0,
        ;
        vstd::arithmetic::div_mod::lemma_small_mod(0, modulus());
    }
}

/// Zero coefficients added at the top leave the value of a polynomial as it
/// is.
pub proof fn lemma_eval_padded(c: Seq<nat>, wide: Seq<nat>, x: nat)
    requires
        c.len() <= wide.len(),
        forall|i: int| 0 <= i < c.len() ==> wide[i] == c[i],
        forall|i: int| c.len() <= i < wide.len() ==> wide[i] == 0,
    ensures
        eval_at(wide, x) == eval_at(c, x),
    decreases c.len(),
{
    if c.len() == 0 {
        lemma_eval_zeros(wide, x);
    } else {
        lemma_eval_padded(c.skip(1), wide.skip(1), x);
    }
}

/// An even power of `w` is a power of its square.
pub proof fn lemma_pow_of_square(w: nat, w2: nat, i: nat)
    requires
        w2 == (w * w) % modulus(),
    ensures
        pow_mod(w, 2 * i) % modulus() == pow_mod(w2, i) % modulus(),
    decreases i,
{
    let p = modulus() as int;
    lemma_modulus_large();
    if i > 0 {
        lemma_pow_of_square(w, w2, (i - 1) as nat);
        let a = pow_mod(w, (2 * i - 2) as nat) as int;
        let b = pow_mod(w2, (i - 1) as nat) as int;
        let wi = w as int;
        assert(pow_mod(w, (2 * i - 1) as nat) == (wi * a) % p);
        assert(pow_mod(w, 2 * i) == (wi * ((wi * a) % p)) % p);
        assert(pow_mod(w2, i) == (((wi * wi) % p) * b) % p);
        vstd::arithmetic::div_mod::lemma_mul_mod_noop_right(wi, wi * a, p);
        assert(wi * (wi * a) == (wi * wi) * a) by (nonlinear_arith);
        vstd::arithmetic::div_mod::lemma_mul_mod_noop_right(wi * wi, a, p);
        vstd::arithmetic::div_mod::lemma_mul_mod_noop_right(wi * wi, b, p);
        vstd::arithmetic::div_mod::lemma_mul_mod_noop_left(wi * wi, b, p);
        vstd::arithmetic::div_mod::lemma_mod_twice(wi * (wi * a), p);
        vstd::arithmetic::div_mod::lemma_mod_twice(((wi * wi) % p) * b, p);
    }
}

/// Two points that agree modulo the field order give a polynomial one value.
pub proof fn lemma_eval_congruent(c: Seq<nat>, x: nat, y: nat)
    requires
        x % modulus() == y % modulus(),
    ensures
        eval_at(c, x) == eval_at(c, y),
    decreases c.len(),
{
    let p = modulus() as int;
    lemma_modulus_large();
    if c.len() > 0 {
        lemma_eval_congruent(c.skip(1), x, y);
        let e = eval_at(c.skip(1), x) as int;
        vstd::arithmetic::div_mod::lemma_mul_mod_noop_left(x as int, e, p);
        vstd::arithmetic::div_mod::lemma_mul_mod_noop_left(y as int, e, p);
        vstd::arithmetic::div_mod::lemma_add_mod_noop_right(c[0] as int, x * e, p);
        vstd::arithmetic::div_mod::lemma_add_mod_noop_right(c[0] as int, y * e, p);
    }
}

/// Scaling the coefficients of a polynomial scales its value.
pub proof fn lemma_eval_scaled(c: Seq<nat>, a: nat, x: nat)
    ensures
        eval_at(scaled(c, a), x) == (eval_at(c, x) * a) % modulus(),
    decreases c.len(),
{
    let p = modulus() as int;
    lemma_modulus_large();
    if c.len() == 0 {
        assert(scaled(c, a).len() == 0);
        assert(0 * a == 0);
    } else {
        let t = c.skip(1);
        lemma_eval_scaled(t, a, x);
        assert(scaled(c, a).skip(1) =~= scaled(t, a));
        let e = eval_at(t, x) as int;
        let c0 = c[0] as int;
        let ai = a as int;
        let xi = x as int;
        let u = c0 * ai;
        let v = xi * ((e * ai) % p);
        assert(scaled(c, a)[0] == u % p);
        assert(eval_at(scaled(c, a), x) == (u % p + v) % p);
        vstd::arithmetic::div_mod::lemma_add_mod_noop(u, v, p);
        vstd::arithmetic::div_mod::lemma_add_mod_noop(u % p, v, p);
        vstd::arithmetic::div_mod::lemma_mod_twice(u, p);
        assert((u % p + v) % p == (u + v) % p);
        vstd::arithmetic::div_mod::lemma_mul_mod_noop_right(xi, e * ai, p);
        vstd::arithmetic::div_mod::lemma_add_mod_noop_right(u, v, p);
        vstd::arithmetic::div_mod::lemma_add_mod_noop_right(u, xi * (e * ai), p);
        assert((u + v) % p == (u + xi * (e * ai)) % p);
        vstd::arithmetic::div_mod::lemma_mul_mod_noop_left(c0 + xi * e, ai, p);
        assert((c0 + xi * e) * ai == u + xi * (e * ai)) by (nonlinear_arith)
            requires
                u == c0 * ai,
        ;
    }
}

/// The transform of scaled coefficients is the scaled transform.
pub proof fn lemma_dft_scaled(c: Seq<nat>, a: nat, omega: nat)
    ensures
        dft(scaled(c, a), omega) == scaled(dft(c, omega), a),
{
    assert forall|j: int| 0 <= j < c.len() implies dft(scaled(c, a), omega)[j] == scaled(
        dft(c, omega),
        a,
    )[j] by {
        lemma_eval_scaled(c, a, pow_mod(omega, j as nat));
    }
    assert(dft(scaled(c, a), omega) =~= scaled(dft(c, omega), a));
}

/// The field order is more than 2^64.
pub proof fn lemma_modulus_large()
    ensures
        modulus() > 0x1_0000_0000_0000_0000,
{
    assert(modulus() > 0x1_0000_0000_0000_0000) by (nonlinear_arith)
        requires
            modulus() == 0x43e1f593f0000001 + limb_base() * (0x2833e84879b97091 + limb_base() * (
            0xb85045b68181585d + limb_base() * 0x30644e72e131a029)),
            limb_base() == 0x1_0000_0000_0000_0000,
    ;
}

/// A remainder modulo the field order lies below it.
pub proof fn lemma_mod_bound(x: int)
    ensures
        0 <= x % (modulus() as int) < modulus(),
{
    lemma_modulus_large();
    vstd::arithmetic::div_mod::lemma_mod_bound(x, modulus() as int);
}

} // verus!
