//! Evaluation domains: the multiplicative subgroups of order `2^k` of the scalar
//! field, with the forward and inverse Fourier transforms over them.

use crate::field::{
    all_canonical, dft, fr_fft, lemma_dft_scaled, lemma_modulus_large, modulus, reduced,
    root_of_order, scaled, square_chain, two_pow, values, Scalar,
};
use halo2_proofs::poly::EvaluationDomain as Halo2Domain;
use halo2curves::bn256::Fr;
use vstd::prelude::*;

verus! {

/// The largest `k` for which the scalar field has a subgroup of order `2^k`.
pub const MAX_LOG_SIZE: u32 = 28;

/// The generator that halo2 picks for the subgroup of order `2^k`.
pub uninterp spec fn omega_of(k: nat) -> nat;

/// The inverse of that generator, as halo2 computes it.
pub uninterp spec fn omega_inv_of(k: nat) -> nat;

/// `EvaluationDomain::new(1, k).get_omega()` of halo2, in canonical form. The
/// constructor panics when `k` exceeds the field's two-adicity, which the
/// precondition leaves out.
#[verifier::external_body]
fn domain_omega(k: u32) -> (r: Scalar)
    requires
        k <= MAX_LOG_SIZE,
    ensures
        r.wf(),
        r@ == omega_of(k as nat),
{
    let bytes = Halo2Domain::<Fr>::new(1, k).get_omega().to_bytes();
    let w: Vec<u64> = bytes.chunks_exact(8).map(|c| u64::from_le_bytes(c.try_into().unwrap())).collect();
    Scalar { limbs: [w[0], w[1], w[2], w[3]] }
}

/// `EvaluationDomain::new(1, k).get_omega_inv()` of halo2, in canonical form,
/// under the same precondition.
#[verifier::external_body]
fn domain_omega_inv(k: u32) -> (r: Scalar)
    requires
        k <= MAX_LOG_SIZE,
    ensures
        r.wf(),
        r@ == omega_inv_of(k as nat),
{
    let bytes = Halo2Domain::<Fr>::new(1, k).get_omega_inv().to_bytes();
    let w: Vec<u64> = bytes.chunks_exact(8).map(|c| u64::from_le_bytes(c.try_into().unwrap())).collect();
    Scalar { limbs: [w[0], w[1], w[2], w[3]] }
}

/// `s` cut or padded with zeros to length `n`.
pub open spec fn resized(s: Seq<nat>, n: nat) -> Seq<nat> {
    Seq::new(n, |i: int| if i < s.len() { s[i] } else { 0 })
}

/// The forward transform of `v` over the domain `d`: `v` is cut or padded to the
/// domain's size and evaluated at the successive powers of the generator.
pub open spec fn fft_values(v: Seq<nat>, d: EvaluationDomain) -> Seq<nat> {
    dft(resized(v, d.len_spec()), d.omega@)
}

/// The inverse transform of `v` over the domain `d`: `v` is cut or padded to the
/// domain's size, evaluated at the successive powers of the inverse generator
/// and divided by the size.
pub open spec fn ifft_values(v: Seq<nat>, d: EvaluationDomain) -> Seq<nat> {
    scaled(dft(resized(v, d.len_spec()), d.omega_inv@), d.size_inv@)
}

/// The generators that halo2 hands out for `k` do generate the subgroup of
/// order `2^k` and are inverse to each other.
pub open spec fn generators_sound(k: nat) -> bool {
    &&& root_of_order(omega_of(k), k)
    &&& root_of_order(omega_inv_of(k), k)
    &&& (omega_of(k) * omega_inv_of(k)) % modulus() == 1
}

/// An evaluation domain of size `2^k`.
#[derive(Clone, Copy, Debug, PartialEq, Eq)]
pub struct EvaluationDomain {
    /// Base-two logarithm of the size.
    pub k: u32,
    /// Generator of the subgroup.
    pub omega: Scalar,
    /// Inverse of the generator.
    pub omega_inv: Scalar,
    /// Inverse of the size, the divisor of the inverse transform.
    pub size_inv: Scalar,
}

/// The size of a domain.
pub trait EvaluationDomainExt {
    /// The domain is well formed.
    spec fn valid(&self) -> bool;

    /// Base-two logarithm of the size.
    spec fn log_size(&self) -> nat;

    /// The number of points, `2^k`.
    fn size(&self) -> (n: usize)
        requires
            self.valid(),
        ensures
            n == two_pow(self.log_size()),
    ;
}

impl EvaluationDomainExt for EvaluationDomain {
    open spec fn valid(&self) -> bool {
        self.wf()
    }

    open spec fn log_size(&self) -> nat {
        self.k as nat
    }

    fn size(&self) -> (n: usize) {
        two_pow_exec(self.k)
    }
}

/// `2^k` for `k` up to the field's two-adicity.
pub fn two_pow_exec(k: u32) -> (n: usize)
    requires
        k <= MAX_LOG_SIZE,
    ensures
        n == two_pow(k as nat),
        1 <= n <= 0x1000_0000,
{
    let mut n: usize = 1;
    let mut i: u32 = 0;
    while i < k
        invariant
            i <= k <= MAX_LOG_SIZE,
            n == two_pow(i as nat),
        decreases k - i,
    {
        proof {
            lemma_two_pow_bound((i + 1) as nat);
        }
        n = n * 2;
        i = i + 1;
    }
    proof {
        lemma_two_pow_bound(k as nat);
    }
    n
}

/// The base-two logarithm of `n`, rounded down; zero for `n = 0`.
pub open spec fn log2_floor(n: nat) -> nat
    decreases n,
{
    if n <= 1 {
        0
    } else {
        1 + log2_floor(n / 2)
    }
}

/// Halving `m` and doubling `p` keeps `n` within `p * m <= n < p * m + p`.
proof fn lemma_halve(p: int, m: int, n: int)
    requires
        p >= 1,
        m >= 2,
        p * m <= n,
        n < p * m + p,
    ensures
        (2 * p) * (m / 2) <= n,
        n < (2 * p) * (m / 2) + 2 * p,
        2 * p <= n,
{
    let q = m / 2;
    let r = m % 2;
    assert(m == 2 * q + r && 0 <= r < 2 && q >= 1);
    assert(p * m == 2 * p * q + p * r) by (nonlinear_arith)
        requires
            m == 2 * q + r,
    ;
    assert(0 <= p * r <= p) by (nonlinear_arith)
        requires
            0 <= r < 2,
            p >= 1,
    ;
    assert((2 * p) * q == 2 * p * q && 2 * p * q >= 2 * p) by (nonlinear_arith)
        requires
            q >= 1,
            p >= 1,
    ;
}

/// The `k` of the largest domain of at most `n` points: the base-two logarithm
/// of `n`, rounded down.
pub fn get_k_value_for_domain(n: usize) -> (k: u32)
    ensures
        k == log2_floor(n as nat),
        k < 64,
        n >= 1 ==> two_pow(k as nat) <= n < 2 * two_pow(k as nat),
{
    let mut m: usize = n;
    let mut k: u32 = 0;
    let ghost mut p: int = 1;
    assert(p * m == m) by (nonlinear_arith)
        requires
            p == 1,
    ;
    while m > 1
        invariant
            p == two_pow(k as nat),
            p >= 1,
            k < 64,
            k + log2_floor(m as nat) == log2_floor(n as nat),
            n >= 1 ==> m >= 1 && p * m <= n && n < p * m + p,
        decreases m,
    {
        proof {
            lemma_halve(p, m as int, n as int);
            if k >= 63 {
                lemma_two_pow_monotonic(63, k as nat);
                assert(two_pow(63) == 0x8000_0000_0000_0000) by {
                    reveal_with_fuel(two_pow, 65);
                }
            }
            p = 2 * p;
        }
        m = m / 2;
        k = k + 1;
    }
    proof {
        if n >= 1 {
            assert(p * m == p) by (nonlinear_arith)
                requires
                    m == 1,
            ;
        }
    }
    k
}

/// The number of points of a well-formed domain.
pub fn get_domain_size(domain: &EvaluationDomain) -> (n: usize)
    requires
        domain.wf(),
    ensures
        n == domain.len_spec(),
{
    two_pow_exec(domain.k)
}

/// `2^k` is positive, and at most `2^28` for `k` up to 28.
pub proof fn lemma_two_pow_bound(k: nat)
    ensures
        1 <= two_pow(k),
        k <= 28 ==> two_pow(k) <= 0x1000_0000,
{
    lemma_two_pow_monotonic(k, 28);
    lemma_two_pow_monotonic(0, k);
    assert(two_pow(28) == 0x1000_0000) by {
        reveal_with_fuel(two_pow, 30);
    }
}

/// `2^a <= 2^b` for `a <= b`.
pub proof fn lemma_two_pow_monotonic(a: nat, b: nat)
    ensures
        a <= b ==> two_pow(a) <= two_pow(b),
        1 <= two_pow(a),
    decreases a + b,
{
    if a > 0 {
        lemma_two_pow_monotonic((a - 1) as nat, 0);
    }
    if a < b {
        lemma_two_pow_monotonic(a, (b - 1) as nat);
    }
}

/// `base^(2^times)` by repeated squaring.
fn square_chain_exec(base: &Scalar, times: u32) -> (r: Scalar)
    requires
        base.wf(),
    ensures
        r.wf(),
        r@ == square_chain(base@, times as nat),
{
    let mut acc = *base;
    let mut i: u32 = 0;
    proof {
        lemma_modulus_large();
        vstd::arithmetic::div_mod::lemma_small_mod(base@, modulus());
    }
    while i < times
        invariant
            i <= times,
            acc.wf(),
            acc@ == square_chain(base@, i as nat),
        decreases times - i,
    {
        acc = acc.times(&acc);
        i = i + 1;
    }
    acc
}

/// Whether `omega` generates the subgroup of order `2^k`.
fn is_root_of_order(omega: &Scalar, k: u32) -> (r: bool)
    requires
        omega.wf(),
    ensures
        r == root_of_order(omega@, k as nat),
{
    proof {
        lemma_modulus_large();
        vstd::arithmetic::div_mod::lemma_small_mod(omega@, modulus());
    }
    if k == 0 {
        let one = Scalar::from_u64(1);
        proof {
            Scalar::lemma_same_value(*omega, one);
        }
        omega.same(&one)
    } else {
        let top = square_chain_exec(omega, k - 1);
        let minus_one = Scalar::from_u64(0).minus(&Scalar::from_u64(1));
        proof {
            assert((0int - 1int) % (modulus() as int) == modulus() - 1) by {
                vstd::arithmetic::div_mod::lemma_mod_add_multiples_vanish(-1, modulus() as int);
                vstd::arithmetic::div_mod::lemma_small_mod((modulus() - 1) as nat, modulus());
            }
            Scalar::lemma_same_value(top, minus_one);
        }
        top.same(&minus_one)
    }
}

/// Cuts `v` or pads it with zero scalars to length `n`.
pub fn resize_with_zeros(v: &mut Vec<Scalar>, n: usize)
    ensures
        final(v)@.len() == n,
        forall|i: int| 0 <= i < n && i < old(v)@.len() ==> final(v)@[i] == old(v)@[i],
        values(final(v)@) == resized(values(old(v)@), n as nat),
        all_canonical(old(v)@) ==> all_canonical(final(v)@),
{
    if n <= v.len() {
        v.truncate(n);
    } else {
        let zero = Scalar::from_u64(0);
        while v.len() < n
            invariant
                old(v)@.len() <= v@.len() <= n,
                zero@ == 0,
                zero.wf(),
                forall|i: int| old(v)@.len() <= i < v@.len() ==> (#[trigger] v@[i]).wf(),
                forall|i: int| 0 <= i < old(v)@.len() ==> v@[i] == old(v)@[i],
                forall|i: int| old(v)@.len() <= i < v@.len() ==> (#[trigger] v@[i])@ == 0,
            decreases n - v@.len(),
        {
            v.push(zero);
        }
    }
    assert(values(v@) =~= resized(values(old(v)@), n as nat));
}

impl EvaluationDomain {
    /// The domain is well formed: its size is within the field's two-adicity,
    /// its generators are the sound ones of that size, and `size_inv` inverts the
    /// size.
    pub open spec fn wf(&self) -> bool {
        &&& self.k <= MAX_LOG_SIZE
        &&& self.omega.wf()
        &&& self.omega_inv.wf()
        &&& self.size_inv.wf()
        &&& self.omega@ == omega_of(self.k as nat)
        &&& self.omega_inv@ == omega_inv_of(self.k as nat)
        &&& generators_sound(self.k as nat)
        &&& (two_pow(self.k as nat) * self.size_inv@) % modulus() == 1
    }

    /// The number of points.
    pub open spec fn len_spec(&self) -> nat {
        two_pow(self.k as nat)
    }

    /// The domain of size `2^k`. It exists when `k` is within the field's
    /// two-adicity and the generators obtained for it pass the order test.
    pub fn new(k: u32) -> (r: Option<EvaluationDomain>)
        ensures
            r.is_some() <==> k <= MAX_LOG_SIZE && generators_sound(k as nat),
            r.is_some() ==> r.unwrap().wf() && r.unwrap().k == k,
    {
        if k > MAX_LOG_SIZE {
            return None;
        }
        let omega = domain_omega(k);
        let omega_inv = domain_omega_inv(k);
        if !is_root_of_order(&omega, k) || !is_root_of_order(&omega_inv, k) {
            return None;
        }
        let one = Scalar::from_u64(1);
        let product = omega.times(&omega_inv);
        proof {
            Scalar::lemma_same_value(product, one);
        }
        if !product.same(&one) {
            return None;
        }
        let n = two_pow_exec(k);
        let size = Scalar::from_u64(n as u64);
        proof {
            lemma_modulus_large();
            vstd::arithmetic::div_mod::lemma_small_mod(size@, modulus());
        }
        match size.invert() {
            None => None,
            Some(size_inv) => Some(EvaluationDomain { k, omega, omega_inv, size_inv }),
        }
    }

    /// The forward transform. `poly` is cut or padded with zeros to the domain's
    /// size and left so; the result holds its values at the powers of the
    /// generator.
    pub fn fft(&self, poly: &mut Vec<Scalar>) -> (out: Vec<Scalar>)
        requires
            self.wf(),
        ensures
            final(poly)@.len() == self.len_spec(),
            forall|i: int|
                0 <= i < self.len_spec() && i < old(poly)@.len() ==> final(poly)@[i] == old(
                    poly,
                )@[i],
            values(final(poly)@) == resized(values(old(poly)@), self.len_spec()),
            out@.len() == self.len_spec(),
            all_canonical(out@),
            values(out@) == fft_values(values(old(poly)@), *self),
            ifft_values(values(out@), *self) == reduced(
                resized(values(old(poly)@), self.len_spec()),
            ),
    {
        let n = two_pow_exec(self.k);
        resize_with_zeros(poly, n);
        let mut out = poly.clone();
        assert(out@ =~= poly@);
        fr_fft(&mut out, &self.omega, self.k);
        assert(out@.len() == values(out@).len());
        proof {
            assert(resized(values(out@), self.len_spec()) =~= values(out@));
            assert(scaled(dft(values(out@), self.omega_inv@), self.size_inv@) == reduced(
                values(poly@),
            ));
        }
        out
    }

    /// The inverse transform. `poly` is cut or padded with zeros to the domain's
    /// size and left so; the result holds the coefficients of the polynomial
    /// that takes the values of `poly` at the powers of the generator.
    pub fn ifft(&self, poly: &mut Vec<Scalar>) -> (out: Vec<Scalar>)
        requires
            self.wf(),
        ensures
            final(poly)@.len() == self.len_spec(),
            forall|i: int|
                0 <= i < self.len_spec() && i < old(poly)@.len() ==> final(poly)@[i] == old(
                    poly,
                )@[i],
            values(final(poly)@) == resized(values(old(poly)@), self.len_spec()),
            out@.len() == self.len_spec(),
            all_canonical(out@),
            values(out@) == ifft_values(values(old(poly)@), *self),
            fft_values(values(out@), *self) == reduced(
                resized(values(old(poly)@), self.len_spec()),
            ),
    {
        let n = two_pow_exec(self.k);
        resize_with_zeros(poly, n);
        let mut out = poly.clone();
        assert(out@ =~= poly@);
        fr_fft(&mut out, &self.omega_inv, self.k);
        assert(out@.len() == values(out@).len());
        let ghost raw = out@;
        let mut i: usize = 0;
        while i < n
            invariant
                i <= n,
                out@.len() == n,
                raw.len() == n,
                forall|j: int| 0 <= j < i ==> (#[trigger] out@[j]).wf() && out@[j]@ == (raw[j]@
                    * self.size_inv@) % modulus(),
                forall|j: int| i <= j < n ==> out@[j] == raw[j],
            decreases n - i,
        {
            let x = out[i].times(&self.size_inv);
            out.set(i, x);
            i = i + 1;
        }
        assert(values(out@) =~= scaled(values(raw), self.size_inv@));
        proof {
            assert(self.omega_inv@ * self.omega@ == self.omega@ * self.omega_inv@)
                by (nonlinear_arith);
            assert(scaled(dft(values(raw), self.omega@), self.size_inv@) == reduced(
                values(poly@),
            ));
            lemma_dft_scaled(values(raw), self.size_inv@, self.omega@);
            assert(resized(values(out@), self.len_spec()) =~= values(out@));
        }
        out
    }
}

} // verus!
