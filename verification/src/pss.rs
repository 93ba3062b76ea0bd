//! Packed secret sharing: `l` secrets are packed into one polynomial, of which
//! each of the `n = 4l` parties holds one value.

use crate::domain::{
    fft_values, generators_sound, get_k_value_for_domain, ifft_values, log2_floor, omega_of,
    resized, two_pow_exec, EvaluationDomain,
};
use crate::field::{
    all_canonical, lemma_eval_congruent, lemma_eval_padded, lemma_modulus_large,
    lemma_pow_of_square, lemma_reduced_canonical, modulus, pow_mod, reduced, two_pow, values,
    Scalar,
};
use vstd::prelude::*;

verus! {

/// The largest base-two logarithm of a packing factor: the share domain, four
/// times as large, must still exist.
pub const MAX_LOG_PACKING: u32 = 26;

/// `l` is a packing factor that the field supports: a power of two, at most
/// `2^26`.
pub open spec fn is_packing_factor(l: nat) -> bool {
    &&& l >= 1
    &&& two_pow(log2_floor(l)) == l
    &&& log2_floor(l) <= MAX_LOG_PACKING
}

/// The generator of the domain of size `2^k` is the square of the generator of
/// the domain twice as large: the points of the smaller domain are every
/// second point of the larger one.
pub open spec fn generators_nested(k: nat) -> bool {
    (omega_of(k + 1) * omega_of(k + 1)) % modulus() == omega_of(k)
}

/// The shares of the secrets `s`: interpolate over the secret domain, evaluate
/// over the share domain.
pub open spec fn pack_values(s: Seq<nat>, pp: PackedSharingParams) -> Seq<nat> {
    fft_values(ifft_values(s, pp.secret), pp.share)
}

/// The secrets behind the shares `sh`: interpolate over the share domain,
/// evaluate over the secret domain, keep the first `l` values.
pub open spec fn unpack_values(sh: Seq<nat>, pp: PackedSharingParams) -> Seq<nat> {
    fft_values(ifft_values(sh, pp.share), pp.secret).subrange(0, pp.l as int)
}

/// The secrets behind the degree-two shares `sh`: interpolate over the share
/// domain, evaluate over the larger secret domain, keep every second one of the
/// first `2l` values.
pub open spec fn unpack2_values(sh: Seq<nat>, pp: PackedSharingParams) -> Seq<nat> {
    Seq::new(
        pp.l as nat,
        |i: int| fft_values(ifft_values(sh, pp.share), pp.secret2)[2 * i],
    )
}

/// Parameters of the packed sharing. The sharing is deterministic: the
/// coordinates beyond the secrets are zero.
#[derive(Clone, Copy, Debug, PartialEq, Eq)]
pub struct PackedSharingParams {
    /// Corruption threshold.
    pub t: usize,
    /// Packing factor.
    pub l: usize,
    /// Number of parties.
    pub n: usize,
    /// Share domain, of size `n`.
    pub share: EvaluationDomain,
    /// Secrets domain, of size `l + t + 1`.
    pub secret: EvaluationDomain,
    /// Domain of the degree-two secrets, of size `2 (l + t + 1)`.
    pub secret2: EvaluationDomain,
}

/// Doubling a positive number raises its logarithm by one.
pub proof fn lemma_log2_double(m: nat)
    requires
        m >= 1,
    ensures
        log2_floor(2 * m) == 1 + log2_floor(m),
{
    assert((2 * m) / 2 == m);
}

impl PackedSharingParams {
    /// The parameters are well formed: `l` is a supported packing factor,
    /// `n = 4l = 2 (t + l + 1)`, `t = l - 1`, and the three domains have the sizes
    /// `n`, `2l` and `4l`.
    pub open spec fn wf(&self) -> bool {
        &&& is_packing_factor(self.l as nat)
        &&& self.n == 4 * self.l
        &&& self.t == self.l - 1
        &&& self.n == 2 * (self.t + self.l + 1)
        &&& self.share.wf()
        &&& self.secret.wf()
        &&& self.secret2.wf()
        &&& self.share.k == log2_floor(self.l as nat) + 2
        &&& self.secret.k == log2_floor(self.l as nat) + 1
        &&& self.secret2.k == log2_floor(self.l as nat) + 2
        &&& self.share.len_spec() == self.n
        &&& self.secret.len_spec() == 2 * self.l
        &&& self.secret2.len_spec() == self.n
        &&& self.secret2 == self.share
        &&& (self.share.omega@ * self.share.omega@) % modulus() == self.secret.omega@
    }

    /// The parameters for the packing factor `l`. They exist when `l` is a power
    /// of two whose domains the field has.
    pub fn new(l: usize) -> (r: Option<PackedSharingParams>)
        ensures
            r.is_some() <==> is_packing_factor(l as nat) && generators_sound(
                log2_floor(l as nat) + 1,
            ) && generators_sound(log2_floor(l as nat) + 2) && generators_nested(
                log2_floor(l as nat) + 1,
            ),
            r.is_some() ==> r.unwrap().wf() && r.unwrap().l == l,
    {
        if l == 0 {
            return None;
        }
        let j = get_k_value_for_domain(l);
        if j > MAX_LOG_PACKING {
            return None;
        }
        if two_pow_exec(j) != l {
            return None;
        }
        let n = l * 4;
        let t = l - 1;
        proof {
            lemma_log2_double(l as nat);
            lemma_log2_double(2 * l as nat);
            assert(two_pow((j + 1) as nat) == 2 * l);
            assert(two_pow((j + 2) as nat) == 2 * two_pow((j + 1) as nat));
        }
        let share_k = get_k_value_for_domain(n);
        let secret_k = get_k_value_for_domain(l + t + 1);
        let secret2_k = get_k_value_for_domain(2 * (l + t + 1));
        let share = match EvaluationDomain::new(share_k) {
            Some(d) => d,
            None => { return None; },
        };
        let secret = match EvaluationDomain::new(secret_k) {
            Some(d) => d,
            None => { return None; },
        };
        // The larger secret domain has the size of the share domain, and is that
        // domain.
        assert(secret2_k == share_k);
        let secret2 = share;
        let square = share.omega.times(&share.omega);
        proof {
            Scalar::lemma_same_value(square, secret.omega);
        }
        if !square.same(&secret.omega) {
            return None;
        }
        Some(PackedSharingParams { t, l, n, share, secret, secret2 })
    }

    /// The forward transform of `poly` over `domain`; `poly` is cut or padded to
    /// the domain's size.
    pub fn fft(poly: &mut Vec<Scalar>, domain: &EvaluationDomain) -> (out: Vec<Scalar>)
        requires
            domain.wf(),
        ensures
            final(poly)@.len() == domain.len_spec(),
            forall|i: int|
                0 <= i < domain.len_spec() && i < old(poly)@.len() ==> final(poly)@[i] == old(
                    poly,
                )@[i],
            out@.len() == domain.len_spec(),
            all_canonical(out@),
            values(out@) == fft_values(values(old(poly)@), *domain),
            ifft_values(values(out@), *domain) == reduced(
                resized(values(old(poly)@), domain.len_spec()),
            ),
    {
        domain.fft(poly)
    }

    /// The inverse transform of `poly` over `domain`; `poly` is cut or padded to
    /// the domain's size.
    pub fn ifft(poly: &mut Vec<Scalar>, domain: &EvaluationDomain) -> (out: Vec<Scalar>)
        requires
            domain.wf(),
        ensures
            final(poly)@.len() == domain.len_spec(),
            forall|i: int|
                0 <= i < domain.len_spec() && i < old(poly)@.len() ==> final(poly)@[i] == old(
                    poly,
                )@[i],
            out@.len() == domain.len_spec(),
            all_canonical(out@),
            values(out@) == ifft_values(values(old(poly)@), *domain),
            fft_values(values(out@), *domain) == reduced(
                resized(values(old(poly)@), domain.len_spec()),
            ),
    {
        domain.ifft(poly)
    }

    /// The `n` shares of the secrets.
    pub fn pack_from_public(&self, secrets: &Vec<Scalar>) -> (shares: Vec<Scalar>)
        requires
            self.wf(),
        ensures
            shares@.len() == self.n,
            all_canonical(shares@),
            values(shares@) == pack_values(values(secrets@), *self),
            secrets@.len() == self.l && all_canonical(secrets@) ==> unpack_values(
                values(shares@),
                *self,
            ) == values(secrets@),
            secrets@.len() == self.l && all_canonical(secrets@) ==> forall|i: int|
                0 <= i < self.l ==> (#[trigger] shares@[2 * i])@ == secrets@[i]@,
    {
        let mut result = secrets.clone();
        assert(result@ =~= secrets@);
        self.pack_from_public_in_place(&mut result);
        result
    }

    /// Replaces the secrets by their `n` shares.
    pub fn pack_from_public_in_place(&self, secrets: &mut Vec<Scalar>)
        requires
            self.wf(),
        ensures
            final(secrets)@.len() == self.n,
            all_canonical(final(secrets)@),
            values(final(secrets)@) == pack_values(values(old(secrets)@), *self),
            old(secrets)@.len() == self.l && all_canonical(old(secrets)@) ==> unpack_values(
                values(final(secrets)@),
                *self,
            ) == values(old(secrets)@),
            old(secrets)@.len() == self.l && all_canonical(old(secrets)@) ==> forall|i: int|
                0 <= i < self.l ==> (#[trigger] final(secrets)@[2 * i])@ == old(secrets)@[i]@,
    {
        let mut coeffs = Self::ifft(secrets, &self.secret);
        let ghost before = coeffs@;
        let ghost c = values(coeffs@);
        let shares = Self::fft(&mut coeffs, &self.share);
        proof {
            let s = values(old(secrets)@);
            if old(secrets)@.len() == self.l && all_canonical(old(secrets)@) {
                lemma_modulus_large();
                let wide = resized(c, self.share.len_spec());
                assert forall|i: int| 0 <= i < wide.len() implies #[trigger] wide[i] < modulus() by {
                    if i < c.len() {
                        assert(before[i].wf());
                    }
                }
                lemma_reduced_canonical(wide);
                assert(resized(wide, self.secret.len_spec()) =~= resized(
                    c,
                    self.secret.len_spec(),
                ));
                let padded = resized(s, self.secret.len_spec());
                assert forall|i: int| 0 <= i < padded.len() implies #[trigger] padded[i]
                    < modulus() by {
                    if i < s.len() {
                        assert(old(secrets)@[i].wf());
                    }
                }
                lemma_reduced_canonical(padded);
                assert(padded.subrange(0, self.l as int) =~= s);
                assert forall|i: int| 0 <= i < self.l implies (#[trigger] shares@[2 * i])@
                    == old(secrets)@[i]@ by {
                    let at_share = pow_mod(self.share.omega@, (2 * i) as nat);
                    let at_secret = pow_mod(self.secret.omega@, i as nat);
                    lemma_pow_of_square(self.share.omega@, self.secret.omega@, i as nat);
                    lemma_eval_padded(c, wide, at_share);
                    lemma_eval_congruent(c, at_share, at_secret);
                    assert(values(shares@)[2 * i] == crate::field::eval_at(wide, at_share));
                    assert(resized(c, self.secret.len_spec()) =~= c);
                    assert(fft_values(c, self.secret)[i] == crate::field::eval_at(c, at_secret));
                    assert(padded[i] == s[i]);
                }
            }
        }
        *secrets = shares;
    }

    /// The `l` secrets behind the shares.
    pub fn unpack(&self, shares: &Vec<Scalar>) -> (secrets: Vec<Scalar>)
        requires
            self.wf(),
        ensures
            secrets@.len() == self.l,
            all_canonical(secrets@),
            values(secrets@) == unpack_values(values(shares@), *self),
    {
        let mut result = shares.clone();
        assert(result@ =~= shares@);
        self.unpack_in_place(&mut result);
        result
    }

    /// The `l` secrets behind the degree-two shares.
    pub fn unpack2(&self, shares: &Vec<Scalar>) -> (secrets: Vec<Scalar>)
        requires
            self.wf(),
        ensures
            secrets@.len() == self.l,
            all_canonical(secrets@),
            values(secrets@) == unpack2_values(values(shares@), *self),
            shares@.len() == self.n ==> forall|i: int|
                0 <= i < self.l ==> (#[trigger] secrets@[i])@ == shares@[2 * i]@ % modulus(),
    {
        let mut result = shares.clone();
        assert(result@ =~= shares@);
        self.unpack2_in_place(&mut result);
        result
    }

    /// Replaces the shares by the `l` secrets behind them.
    pub fn unpack_in_place(&self, shares: &mut Vec<Scalar>)
        requires
            self.wf(),
        ensures
            final(shares)@.len() == self.l,
            all_canonical(final(shares)@),
            values(final(shares)@) == unpack_values(values(old(shares)@), *self),
    {
        let mut coeffs = Self::ifft(shares, &self.share);
        let mut evals = Self::fft(&mut coeffs, &self.secret);
        evals.truncate(self.l);
        assert(values(evals@) =~= unpack_values(values(old(shares)@), *self));
        *shares = evals;
    }

    /// Replaces the degree-two shares by the `l` secrets behind them: of the
    /// first `2l` values over the larger secret domain, every second one.
    pub fn unpack2_in_place(&self, shares: &mut Vec<Scalar>)
        requires
            self.wf(),
        ensures
            final(shares)@.len() == self.l,
            all_canonical(final(shares)@),
            values(final(shares)@) == unpack2_values(values(old(shares)@), *self),
            old(shares)@.len() == self.n ==> forall|i: int|
                0 <= i < self.l ==> (#[trigger] final(shares)@[i])@ == old(shares)@[2 * i]@
                    % modulus(),
    {
        let mut coeffs = Self::ifft(shares, &self.share);
        let ghost c = values(coeffs@);
        let evals = Self::fft(&mut coeffs, &self.secret2);
        proof {
            assert(values(evals@) == fft_values(c, self.share));
            if old(shares)@.len() == self.n {
                assert(resized(values(old(shares)@), self.share.len_spec()) =~= values(
                    old(shares)@,
                ));
            }
        }
        let mut kept: Vec<Scalar> = Vec::new();
        let mut i: usize = 0;
        while i < self.l
            invariant
                self.wf(),
                i <= self.l,
                evals@.len() == 4 * self.l,
                all_canonical(evals@),
                kept@.len() == i,
                forall|j: int| 0 <= j < i ==> kept@[j] == evals@[2 * j],
            decreases self.l - i,
        {
            kept.push(evals[2 * i]);
            i = i + 1;
        }
        assert(values(kept@) =~= unpack2_values(values(old(shares)@), *self));
        proof {
            if old(shares)@.len() == self.n {
                assert forall|i: int| 0 <= i < self.l implies (#[trigger] kept@[i])@ == old(
                    shares,
                )@[2 * i]@ % modulus() by {
                    assert(kept@[i] == evals@[2 * i]);
                    assert(values(evals@)[2 * i] == reduced(values(old(shares)@))[2 * i]);
                }
            }
        }
        *shares = kept;
    }
}

} // verus!
