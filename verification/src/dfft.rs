//! The distributed Fourier transform: the bit-reversal that prepares its input,
//! the butterflies that each party applies to its packed shares, and the
//! butterflies that finish the transform on the recovered vector.

use crate::domain::{
    get_k_value_for_domain, lemma_two_pow_bound, lemma_two_pow_monotonic, log2_floor,
    resize_with_zeros, resized, EvaluationDomain, MAX_LOG_SIZE,
};
use crate::dpp::{unpack_columns, unpacked_flat};
use crate::pack::{column_values, is_matrix, lemma_column_of_transpose, transpose};
use crate::pss::{pack_values, unpack_values, PackedSharingParams};
use crate::field::{
    all_canonical, fadd, fmul, fsub, modulus, pow_mod, scaled, two_pow, values, Scalar,
};
use crate::plonk::running_power;
use vstd::prelude::*;

verus! {

/// The number whose `bits` lowest binary digits are those of `i` in reverse
/// order.
pub open spec fn reverse_bits(i: nat, bits: nat) -> nat
    decreases bits,
{
    if bits == 0 {
        0
    } else {
        (i % 2) * two_pow((bits - 1) as nat) + reverse_bits(i / 2, (bits - 1) as nat)
    }
}

/// A reversed number stays below `2^bits`.
pub proof fn lemma_reverse_bound(i: nat, bits: nat)
    ensures
        reverse_bits(i, bits) < two_pow(bits),
    decreases bits,
{
    if bits > 0 {
        lemma_reverse_bound(i / 2, (bits - 1) as nat);
        let t = two_pow((bits - 1) as nat);
        assert((i % 2) * t <= t) by (nonlinear_arith)
            requires
                i % 2 <= 1,
                t >= 0,
        ;
    }
}

/// One step of the reversal: moving the lowest digit of `x` to the end of `r`
/// keeps the reversed number.
proof fn lemma_reverse_step(r: nat, x: nat, left: nat)
    requires
        left >= 1,
    ensures
        r * two_pow(left) + reverse_bits(x, left) == (2 * r + x % 2) * two_pow((left - 1) as nat)
            + reverse_bits(x / 2, (left - 1) as nat),
{
    let t = two_pow((left - 1) as nat);
    assert(two_pow(left) == 2 * t);
    assert(r * (2 * t) + (x % 2) * t == (2 * r + x % 2) * t) by (nonlinear_arith);
}

/// The bit-reversal of `i` within `bits` digits.
pub fn reverse_bits_exec(i: usize, bits: u32) -> (r: usize)
    requires
        i < two_pow(bits as nat) <= usize::MAX,
    ensures
        r == reverse_bits(i as nat, bits as nat),
        r < two_pow(bits as nat),
{
    let mut r: usize = 0;
    let mut x: usize = i;
    let mut b: u32 = 0;
    proof {
        assert(r * two_pow(bits as nat) == 0) by (nonlinear_arith)
            requires
                r == 0,
        ;
    }
    while b < bits
        invariant
            b <= bits,
            r < two_pow(b as nat),
            two_pow(bits as nat) <= usize::MAX,
            r * two_pow((bits - b) as nat) + reverse_bits(x as nat, (bits - b) as nat)
                == reverse_bits(i as nat, bits as nat),
        decreases bits - b,
    {
        proof {
            lemma_reverse_step(r as nat, x as nat, (bits - b) as nat);
            lemma_two_pow_monotonic((b + 1) as nat, bits as nat);
            assert(two_pow((b + 1) as nat) == 2 * two_pow(b as nat));
            assert(two_pow((b + 1) as nat) <= two_pow(bits as nat));
        }
        r = 2 * r + x % 2;
        x = x / 2;
        b = b + 1;
    }
    proof {
        assert(r * two_pow(0) == r) by (nonlinear_arith)
            requires
                two_pow(0) == 1,
        ;
    }
    r
}

/// The bit-reversal permutation of `data`, whose length is `2^bits`.
pub open spec fn rearranged<T>(data: Seq<T>, bits: nat) -> Seq<T> {
    Seq::new(data.len(), |i: int| data[reverse_bits(i as nat, bits) as int])
}

/// Puts the entries of `data`, `2^bits` of them, into bit-reversed order: the
/// order in which the butterflies want their input.
pub fn fft_in_place_rearrange(data: &mut Vec<Scalar>, bits: u32)
    requires
        old(data)@.len() == two_pow(bits as nat),
    ensures
        final(data)@ == rearranged(old(data)@, bits as nat),
{
    let n = data.len();
    let mut out: Vec<Scalar> = Vec::new();
    let mut i: usize = 0;
    while i < n
        invariant
            i <= n,
            n == data@.len(),
            n == two_pow(bits as nat),
            data@ == old(data)@,
            out@.len() == i,
            forall|j: int|
                0 <= j < i ==> #[trigger] out@[j] == data@[reverse_bits(j as nat, bits as nat) as int],
        decreases n - i,
    {
        let r = reverse_bits_exec(i, bits);
        out.push(data[r]);
        i = i + 1;
    }
    assert(out@ =~= rearranged(old(data)@, bits as nat));
    *data = out;
}

/// `s` turned right by one place: the last entry comes first.
pub open spec fn rotated_right<T>(s: Seq<T>) -> Seq<T> {
    Seq::new(s.len(), |i: int| if i == 0 { s[s.len() - 1] } else { s[i - 1] })
}

/// Turns `v` right by one place.
pub fn rotate_right_one(v: &mut Vec<Scalar>)
    ensures
        final(v)@ == rotated_right(old(v)@),
{
    let n = v.len();
    if n == 0 {
        assert(v@ =~= rotated_right(old(v)@));
        return ;
    }
    let mut out: Vec<Scalar> = Vec::new();
    out.push(v[n - 1]);
    let mut i: usize = 1;
    while i < n
        invariant
            1 <= i <= n,
            n == v@.len(),
            v@ == old(v)@,
            out@.len() == i,
            out@[0] == v@[n - 1],
            forall|j: int| 1 <= j < i ==> #[trigger] out@[j] == v@[j - 1],
        decreases n - i,
    {
        out.push(v[i - 1]);
        i = i + 1;
    }
    assert(out@ =~= rotated_right(old(v)@));
    *v = out;
}

/// The twiddle factors of one level: the powers `stride^1 .. stride^count`.
pub fn twiddles(stride: &Scalar, count: usize) -> (tw: Vec<Scalar>)
    ensures
        tw@.len() == count,
        all_canonical(tw@),
        forall|k: int| 0 <= k < count ==> (#[trigger] tw@[k])@ == running_power(
            stride@,
            (k + 1) as nat,
        ),
{
    let mut tw: Vec<Scalar> = Vec::new();
    let mut factor = Scalar::from_u64(1);
    let mut k: usize = 0;
    while k < count
        invariant
            k <= count,
            tw@.len() == k,
            all_canonical(tw@),
            factor@ == running_power(stride@, k as nat),
            forall|j: int| 0 <= j < k ==> (#[trigger] tw@[j])@ == running_power(
                stride@,
                (j + 1) as nat,
            ),
        decreases count - k,
    {
        factor = factor.times(stride);
        tw.push(factor);
        k = k + 1;
    }
    tw
}

/// One level of the butterflies on packed columns, with blocks of `2p`
/// entries: in each block, entry `k` of the lower half and entry `k` of the
/// upper half are replaced by their sum and their difference, the upper one
/// first multiplied by the `(k + 1)`-th power of `stride`.
pub open spec fn column_level(s: Seq<nat>, p: int, stride: nat) -> Seq<nat> {
    Seq::new(
        s.len(),
        |idx: int|
            {
                let r = idx % (2 * p);
                if r < p {
                    fadd(s[idx], fmul(s[idx + p], running_power(stride, (r + 1) as nat)))
                } else {
                    fsub(s[idx - p], fmul(s[idx], running_power(stride, (r - p + 1) as nat)))
                }
            },
    )
}

/// An index in the lower half of a block has its partner, `p` further on,
/// within the vector.
proof fn lemma_partner_in_range(idx: int, p: int, c: int)
    requires
        p >= 1,
        c >= 0,
        0 <= idx < 2 * p * c,
    ensures
        0 <= idx % (2 * p) < 2 * p,
        idx % (2 * p) < p ==> idx + p < 2 * p * c,
        idx % (2 * p) >= p ==> idx - p >= 0,
{
    let b = 2 * p;
    let q = idx / b;
    let r = idx % b;
    vstd::arithmetic::div_mod::lemma_fundamental_div_mod(idx, b);
    assert(idx == b * q + r);
    assert(q < c && q >= 0) by (nonlinear_arith)
        requires
            idx == b * q + r,
            0 <= r < b,
            0 <= idx < b * c,
            b > 0,
    ;
    assert(b * q + b <= b * c) by (nonlinear_arith)
        requires
            q + 1 <= c,
            b > 0,
    ;
    assert(2 * p * c == b * c) by (nonlinear_arith)
        requires
            b == 2 * p,
    ;
}

/// Applies one level of the butterflies on packed columns to `s`, which holds
/// `c` blocks of `2p` entries.
pub fn butterfly_columns(s: &Vec<Scalar>, p: usize, c: usize, stride: &Scalar) -> (out: Vec<Scalar>)
    requires
        p >= 1,
        s@.len() == 2 * p * c,
    ensures
        out@.len() == s@.len(),
        all_canonical(out@),
        values(out@) == column_level(values(s@), p as int, stride@),
{
    let tw = twiddles(stride, p);
    let n = s.len();
    let mut out: Vec<Scalar> = Vec::new();
    let mut idx: usize = 0;
    if c == 0 {
        assert(2 * p * c == 0) by (nonlinear_arith)
            requires
                c == 0,
        ;
        assert(values(out@) =~= column_level(values(s@), p as int, stride@));
        return out;
    }
    assert(2 * p <= n) by (nonlinear_arith)
        requires
            n == 2 * p * c,
            c >= 1,
            p >= 1,
    ;
    while idx < n
        invariant
            idx <= n,
            p >= 1,
            2 * p <= n,
            n == s@.len(),
            n == 2 * p * c,
            tw@.len() == p,
            forall|k: int| 0 <= k < p ==> (#[trigger] tw@[k])@ == running_power(
                stride@,
                (k + 1) as nat,
            ),
            out@.len() == idx,
            all_canonical(out@),
            forall|j: int|
                0 <= j < idx ==> (#[trigger] out@[j])@ == column_level(
                    values(s@),
                    p as int,
                    stride@,
                )[j],
        decreases n - idx,
    {
        proof {
            lemma_partner_in_range(idx as int, p as int, c as int);
        }
        let r = idx % (2 * p);
        let x = if r < p {
            s[idx].plus(&s[idx + p].times(&tw[r]))
        } else {
            s[idx - p].minus(&s[idx].times(&tw[r - p]))
        };
        out.push(x);
        idx = idx + 1;
    }
    assert(values(out@) =~= column_level(values(s@), p as int, stride@));
    out
}

/// One level of the butterflies on the recovered vector, which holds `p` rows
/// of `2h` entries: entry `2j` and entry `2j + 1` of row `k` give their sum at
/// place `j` of row `k` of the lower half and their difference at the same
/// place of the upper half, the odd one first multiplied by the `(k + 1)`-th
/// power of `stride`.
pub open spec fn row_level(s: Seq<nat>, p: int, h: int, stride: nat) -> Seq<nat> {
    Seq::new(
        s.len(),
        |t: int|
            {
                let u = if t < p * h { t } else { t - p * h };
                let k = u / h;
                let j = u % h;
                let x = s[k * (2 * h) + 2 * j];
                let y = fmul(s[k * (2 * h) + 2 * j + 1], running_power(stride, (k + 1) as nat));
                if t < p * h {
                    fadd(x, y)
                } else {
                    fsub(x, y)
                }
            },
    )
}

/// The pair that feeds place `u` of a half lies within the vector.
proof fn lemma_pair_in_range(u: int, p: int, h: int)
    requires
        h >= 1,
        p >= 0,
        0 <= u < p * h,
    ensures
        0 <= u / h < p,
        0 <= u % h < h,
        0 <= (u / h) * (2 * h) + 2 * (u % h),
        (u / h) * (2 * h) + 2 * (u % h) + 1 < 2 * p * h,
        2 * h <= 2 * p * h,
        (u / h) * (2 * h) <= 2 * p * h,
{
    let k = u / h;
    let j = u % h;
    vstd::arithmetic::div_mod::lemma_fundamental_div_mod(u, h);
    assert(u == h * k + j);
    assert(0 <= k < p) by (nonlinear_arith)
        requires
            u == h * k + j,
            0 <= j < h,
            0 <= u < p * h,
            h > 0,
    ;
    assert(k * (2 * h) + 2 * h <= 2 * p * h && 0 <= k * (2 * h) && 2 * h <= 2 * p * h)
        by (nonlinear_arith)
        requires
            0 <= k,
            k + 1 <= p,
            h > 0,
    ;
}

/// Applies one level of the butterflies on the recovered vector to `s`, which
/// holds `p` rows of `2h` entries.
pub fn butterfly_rows(s: &Vec<Scalar>, p: usize, h: usize, stride: &Scalar) -> (out: Vec<Scalar>)
    requires
        h >= 1,
        s@.len() == 2 * p * h,
    ensures
        out@.len() == s@.len(),
        all_canonical(out@),
        values(out@) == row_level(values(s@), p as int, h as int, stride@),
{
    let tw = twiddles(stride, p);
    let n = s.len();
    assert(p * h + p * h == 2 * p * h && p * h >= 0) by (nonlinear_arith)
        requires
            p >= 0,
            h >= 0,
    ;
    let half = n / 2;
    assert(half == p * h);
    let mut out: Vec<Scalar> = Vec::new();
    let mut t: usize = 0;
    while t < n
        invariant
            t <= n,
            h >= 1,
            n == s@.len(),
            n == 2 * p * h,
            half == p * h,
            n == half + half,
            tw@.len() == p,
            forall|k: int| 0 <= k < p ==> (#[trigger] tw@[k])@ == running_power(
                stride@,
                (k + 1) as nat,
            ),
            out@.len() == t,
            all_canonical(out@),
            forall|i: int|
                0 <= i < t ==> (#[trigger] out@[i])@ == row_level(
                    values(s@),
                    p as int,
                    h as int,
                    stride@,
                )[i],
        decreases n - t,
    {
        let u = if t < half { t } else { t - half };
        proof {
            lemma_pair_in_range(u as int, p as int, h as int);
        }
        let k = u / h;
        let j = u % h;
        let x = s[k * (2 * h) + 2 * j];
        let y = s[k * (2 * h) + 2 * j + 1].times(&tw[k]);
        let z = if t < half { x.plus(&y) } else { x.minus(&y) };
        out.push(z);
        t = t + 1;
    }
    assert(values(out@) =~= row_level(values(s@), p as int, h as int, stride@));
    out
}

/// The levels of the first phase from blocks of `2p` entries on: one level on
/// `c` blocks, with the power `base^(c l)` as stride, then, as long as `c` is
/// even, the next level on half as many blocks of twice the size.
pub open spec fn phase1_levels(s: Seq<nat>, p: int, c: int, l: int, base: nat) -> Seq<nat>
    decreases c,
{
    if c < 1 {
        s
    } else {
        let next = column_level(s, p, pow_mod(base, (c * l) as nat) % modulus());
        if c % 2 != 0 {
            next
        } else {
            phase1_levels(next, 2 * p, c / 2, l, base)
        }
    }
}

/// The first phase on a party's packed columns: all the levels, from blocks of
/// two entries up to one block that spans the vector. A vector of odd length
/// has no level.
pub open spec fn phase1(s: Seq<nat>, l: int, base: nat) -> Seq<nat> {
    if s.len() % 2 != 0 {
        s
    } else {
        phase1_levels(s, 1, s.len() as int / 2, l, base)
    }
}

/// The first phase of the distributed transform, which each party runs on its
/// own packed shares without any exchange: the twiddle factors are public, so
/// the butterflies act on shares as they would on the secrets. `base` is the
/// generator of the domain, or its inverse for the inverse transform; `l` is
/// the packing factor.
pub fn fft1(s: &Vec<Scalar>, l: usize, base: &Scalar) -> (out: Vec<Scalar>)
    requires
        l >= 1,
        s@.len() * l <= usize::MAX,
    ensures
        out@.len() == s@.len(),
        values(out@) == phase1(values(s@), l as int, base@),
{
    let n = s.len();
    let mut cur = s.clone();
    assert(cur@ =~= s@);
    if n % 2 != 0 || n == 0 {
        if n == 0 {
            assert(phase1_levels(values(s@), 1, 0, l as int, base@) == values(s@));
        }
        return cur;
    }
    let mut p: usize = 1;
    let mut c: usize = n / 2;
    let mut done = false;
    proof {
        assert(n == 2 * p * c) by (nonlinear_arith)
            requires
                p == 1,
                n == 2 * c,
        ;
        assert(values(cur@).len() == n);
        assert(values(cur@) == values(s@));
    }
    while !done
        invariant
            l >= 1,
            n == s@.len(),
            n * l <= usize::MAX,
            cur@.len() == n,
            !done ==> c >= 1 && p >= 1 && n == 2 * p * c && phase1_levels(
                values(cur@),
                p as int,
                c as int,
                l as int,
                base@,
            ) == phase1(values(s@), l as int, base@),
            done ==> values(cur@) == phase1(values(s@), l as int, base@),
        decreases (if done { 0int } else { c + 1 }),
    {
        proof {
            assert(c * l <= n * l && 2 * p <= n) by (nonlinear_arith)
                requires
                    n == 2 * p * c,
                    c >= 1,
                    p >= 1,
                    l >= 1,
            ;
        }
        let stride = base.pow((c * l) as u64);
        let next = butterfly_columns(&cur, p, c, &stride);
        cur = next;
        if c % 2 != 0 {
            done = true;
        } else {
            proof {
                assert(n == 2 * (2 * p) * (c / 2)) by (nonlinear_arith)
                    requires
                        n == 2 * p * c,
                        c % 2 == 0,
                ;
            }
            c = c / 2;
            p = 2 * p;
        }
    }
    cur
}

/// The levels of the second phase from rows of `2h` entries on: one level on
/// `p` rows, with the power `base^h` as stride, then, as long as `h` is even,
/// the next level on twice as many rows of half the size.
pub open spec fn phase2_levels(s: Seq<nat>, p: int, h: int, base: nat) -> Seq<nat>
    decreases h,
{
    if h < 1 {
        s
    } else {
        let next = row_level(s, p, h, pow_mod(base, h as nat) % modulus());
        if h % 2 != 0 {
            next
        } else {
            phase2_levels(next, 2 * p, h / 2, base)
        }
    }
}

/// The second phase on the recovered vector: the levels from rows of `l`
/// entries down to rows of two, then a turn to the right by one place. A
/// packing factor that is odd, or does not divide the length, has no level.
pub open spec fn phase2(s: Seq<nat>, l: int, base: nat) -> Seq<nat> {
    if l < 2 || l % 2 != 0 || s.len() as int % l != 0 {
        rotated_right(s)
    } else {
        rotated_right(phase2_levels(s, s.len() as int / l, l / 2, base))
    }
}

/// The second phase of the distributed transform, on the vector that the king
/// has recovered from the parties' shares after the first phase.
pub fn fft2(s: &Vec<Scalar>, l: usize, base: &Scalar) -> (out: Vec<Scalar>)
    ensures
        out@.len() == s@.len(),
        values(out@) == phase2(values(s@), l as int, base@),
        all_canonical(s@) ==> all_canonical(out@),
{
    let n = s.len();
    let mut cur = s.clone();
    assert(cur@ =~= s@);
    if l >= 2 && l % 2 == 0 && n % l == 0 {
        let mut p: usize = n / l;
        let mut h: usize = l / 2;
        proof {
            vstd::arithmetic::div_mod::lemma_fundamental_div_mod(n as int, l as int);
            assert(n == 2 * p * h) by (nonlinear_arith)
                requires
                    n == l * p,
                    l == 2 * h,
            ;
        }
        let mut done = false;
        while !done
            invariant
                n == s@.len(),
                cur@.len() == n,
                all_canonical(s@) ==> all_canonical(cur@),
                l >= 2 && l % 2 == 0 && n % l == 0,
                !done ==> h >= 1 && n == 2 * p * h && phase2_levels(
                    values(cur@),
                    p as int,
                    h as int,
                    base@,
                ) == phase2_levels(values(s@), n as int / l as int, l as int / 2, base@),
                done ==> values(cur@) == phase2_levels(
                    values(s@),
                    n as int / l as int,
                    l as int / 2,
                    base@,
                ),
            decreases (if done { 0int } else { h + 1 }),
        {
            let stride = base.pow(h as u64);
            let next = butterfly_rows(&cur, p, h, &stride);
            cur = next;
            if h % 2 != 0 {
                done = true;
            } else {
                proof {
                    assert(n == 2 * (2 * p) * (h / 2) && 2 * p <= n) by (nonlinear_arith)
                        requires
                            n == 2 * p * h,
                            h % 2 == 0,
                            h >= 1,
                    ;
                }
                h = h / 2;
                p = 2 * p;
            }
        }
    }
    let ghost before = cur@;
    rotate_right_one(&mut cur);
    assert(values(cur@) =~= rotated_right(values(before)));
    assert(all_canonical(before) ==> all_canonical(cur@)) by {
        if all_canonical(before) {
            assert forall|i: int| 0 <= i < cur@.len() implies (#[trigger] cur@[i]).wf() by {
                if i == 0 {
                    assert(before[before.len() - 1].wf());
                } else {
                    assert(before[i - 1].wf());
                }
            }
        }
    }
    cur
}

/// Column `i` of `v` laid out in `cols` columns: the entries `i`, `i + cols`,
/// `i + 2 cols` and so on, `l` of them.
pub open spec fn strided(v: Seq<nat>, i: int, cols: int, l: int) -> Seq<nat> {
    Seq::new(l as nat, |j: int| v[i + j * cols])
}

/// Entry `j` of column `i` lies within a vector of `cols * l` entries.
proof fn lemma_strided_index(i: int, j: int, cols: int, l: int)
    requires
        0 <= i < cols,
        0 <= j < l,
    ensures
        0 <= i + j * cols < cols * l,
{
    assert(0 <= j * cols && j * cols + cols <= cols * l) by (nonlinear_arith)
        requires
            0 <= j,
            j + 1 <= l,
            cols > 0,
    ;
}

/// The shares of a long vector in the packed-column layout: the vector is laid
/// out in `len / l` columns of `l` entries, and each column is packed into `n`
/// shares. The length of `v` is a multiple of `l`.
pub fn pack_strided(v: &Vec<Scalar>, pp: &PackedSharingParams) -> (shares: Vec<Vec<Scalar>>)
    requires
        pp.wf(),
        v@.len() % (pp.l as nat) == 0,
    ensures
        shares@.len() == v@.len() / (pp.l as nat),
        is_matrix(shares@, pp.n as nat),
        forall|i: int|
            0 <= i < shares@.len() ==> values((#[trigger] shares@[i])@) == pack_values(
                strided(values(v@), i, shares@.len() as int, pp.l as int),
                *pp,
            ),
        all_canonical(v@) ==> forall|i: int|
            0 <= i < shares@.len() ==> unpack_values(values((#[trigger] shares@[i])@), *pp)
                == strided(values(v@), i, shares@.len() as int, pp.l as int),
{
    let l = pp.l;
    let cols = v.len() / l;
    proof {
        vstd::arithmetic::div_mod::lemma_fundamental_div_mod(v@.len() as int, l as int);
        assert(v@.len() == cols * l) by (nonlinear_arith)
            requires
                v@.len() == l * cols,
        ;
    }
    let mut shares: Vec<Vec<Scalar>> = Vec::new();
    let mut i: usize = 0;
    while i < cols
        invariant
            pp.wf(),
            l == pp.l,
            i <= cols,
            v@.len() == cols * l,
            v@.len() <= usize::MAX,
            shares@.len() == i,
            is_matrix(shares@, pp.n as nat),
            forall|c: int|
                0 <= c < i ==> values((#[trigger] shares@[c])@) == pack_values(
                    strided(values(v@), c, cols as int, l as int),
                    *pp,
                ),
            all_canonical(v@) ==> forall|c: int|
                0 <= c < i ==> unpack_values(values((#[trigger] shares@[c])@), *pp) == strided(
                    values(v@),
                    c,
                    cols as int,
                    l as int,
                ),
        decreases cols - i,
    {
        let mut column: Vec<Scalar> = Vec::new();
        let mut j: usize = 0;
        while j < l
            invariant
                j <= l,
                i < cols,
                v@.len() == cols * l,
                v@.len() <= usize::MAX,
                column@.len() == j,
                forall|jj: int| 0 <= jj < j ==> #[trigger] column@[jj] == v@[i + jj * cols],
            decreases l - j,
        {
            proof {
                lemma_strided_index(i as int, j as int, cols as int, l as int);
                assert(0 <= j * cols) by (nonlinear_arith)
                    requires
                        0 <= j,
                        0 <= cols,
                ;
            }
            column.push(v[i + j * cols]);
            j = j + 1;
        }
        assert forall|jj: int| 0 <= jj < l implies values(column@)[jj] == strided(
            values(v@),
            i as int,
            cols as int,
            l as int,
        )[jj] by {
            lemma_strided_index(i as int, jj, cols as int, l as int);
            assert(column@[jj] == v@[i + jj * cols]);
        }
        assert(values(column@) =~= strided(values(v@), i as int, cols as int, l as int));
        assert(all_canonical(v@) ==> all_canonical(column@)) by {
            if all_canonical(v@) {
                assert forall|jj: int| 0 <= jj < column@.len() implies (#[trigger] column@[jj]).wf() by {
                    lemma_strided_index(i as int, jj, cols as int, l as int);
                    assert(v@[i + jj * cols].wf());
                }
            }
        }
        let packed = pp.pack_from_public(&column);
        shares.push(packed);
        i = i + 1;
    }
    shares
}

/// What the king holds when it has finished a transform on the recovered
/// vector `flat`: the second phase; for the inverse transform a division by the
/// domain's size; zeros up to `pad` times the length; and, if asked, the
/// bit-reversal that prepares the next transform.
pub open spec fn king_vector(
    flat: Seq<nat>,
    inverse: bool,
    rearrange: bool,
    pad: nat,
    dom: EvaluationDomain,
    l: int,
) -> Seq<nat> {
    let base = if inverse { dom.omega_inv@ } else { dom.omega@ };
    let done = phase2(flat, l, base);
    let sized = if inverse { scaled(done, dom.size_inv@) } else { done };
    let long = resized(sized, pad * flat.len());
    if rearrange {
        rearranged(long, log2_floor(pad * flat.len()))
    } else {
        long
    }
}

/// `2^(a + b) = 2^a 2^b`.
pub proof fn lemma_two_pow_sum(a: nat, b: nat)
    ensures
        two_pow(a + b) == two_pow(a) * two_pow(b),
    decreases b,
{
    if b == 0 {
        assert(two_pow(a) * 1 == two_pow(a));
    } else {
        lemma_two_pow_sum(a, (b - 1) as nat);
        assert(two_pow(a) * (2 * two_pow((b - 1) as nat)) == 2 * (two_pow(a) * two_pow(
            (b - 1) as nat,
        ))) by (nonlinear_arith);
    }
}

/// The logarithm of a power of two is its exponent.
pub proof fn lemma_log2_of_two_pow(k: nat)
    ensures
        log2_floor(two_pow(k)) == k,
    decreases k,
{
    if k > 0 {
        lemma_log2_of_two_pow((k - 1) as nat);
        lemma_two_pow_monotonic(0, (k - 1) as nat);
        assert(two_pow(k) / 2 == two_pow((k - 1) as nat));
    }
}

/// The king's part of the distributed transform. `shares` holds the parties'
/// packed columns after the first phase, one row for each party. The king
/// recovers the vector column by column, runs the second phase on it, divides
/// by the size for the inverse transform, extends it with zeros to `pad` times
/// its length and, if `rearrange` is set, puts it in bit-reversed order for a
/// transform to follow. It packs the result in the packed-column layout; row
/// `p` of the result goes back to party `p`.
pub fn d_fft_king(
    shares: &Vec<Vec<Scalar>>,
    inverse: bool,
    rearrange: bool,
    pad: usize,
    dom: &EvaluationDomain,
    pp: &PackedSharingParams,
) -> (out: Vec<Vec<Scalar>>)
    requires
        pp.wf(),
        dom.wf(),
        shares@.len() == pp.n,
        is_matrix(shares@, shares@[0]@.len()),
        shares@[0]@.len() * pp.l == dom.len_spec(),
        pad >= 1,
        two_pow(log2_floor(pad as nat)) == pad,
        log2_floor(pad as nat) + dom.k <= MAX_LOG_SIZE,
    ensures
        out@.len() == pp.n,
        is_matrix(out@, (pad * shares@[0]@.len()) as nat),
        forall|p: int, i: int|
            0 <= p < pp.n && 0 <= i < pad * shares@[0]@.len() ==> (#[trigger] out@[p]@[i])@
                == pack_values(
                strided(
                    king_vector(
                        unpacked_flat(shares@, shares@[0]@.len(), *pp),
                        inverse,
                        rearrange,
                        pad as nat,
                        *dom,
                        pp.l as int,
                    ),
                    i,
                    pad * shares@[0]@.len(),
                    pp.l as int,
                ),
                *pp,
            )[p],
        forall|i: int|
            0 <= i < pad * shares@[0]@.len() ==> unpack_values(
                #[trigger] column_values(out@, i),
                *pp,
            ) == strided(
                king_vector(
                    unpacked_flat(shares@, shares@[0]@.len(), *pp),
                    inverse,
                    rearrange,
                    pad as nat,
                    *dom,
                    pp.l as int,
                ),
                i,
                pad * shares@[0]@.len(),
                pp.l as int,
            ),
{
    let ghost w = shares@[0]@.len();
    let ghost flat_spec = unpacked_flat(shares@, w, *pp);
    let flat = unpack_columns(shares, pp);
    let m = flat.len();
    let base = if inverse { dom.omega_inv } else { dom.omega };
    let mut done = fft2(&flat, pp.l, &base);
    if inverse {
        done = crate::dpoly_commit::scale_all(&done, &dom.size_inv);
        assert(values(done@) =~= scaled(phase2(flat_spec, pp.l as int, base@), dom.size_inv@));
    }
    let pad_k = get_k_value_for_domain(pad);
    proof {
        lemma_two_pow_sum(dom.k as nat, pad_k as nat);
        lemma_two_pow_bound((dom.k + pad_k) as nat);
        lemma_log2_of_two_pow((dom.k + pad_k) as nat);
        assert(pad * m == two_pow((dom.k + pad_k) as nat)) by (nonlinear_arith)
            requires
                m == two_pow(dom.k as nat),
                pad == two_pow(pad_k as nat),
                two_pow((dom.k + pad_k) as nat) == two_pow(dom.k as nat) * two_pow(pad_k as nat),
        ;
    }
    let long_len = pad * m;
    resize_with_zeros(&mut done, long_len);
    if rearrange {
        let ghost before = done@;
        fft_in_place_rearrange(&mut done, dom.k + pad_k);
        assert forall|j: int| 0 <= j < done@.len() implies values(done@)[j] == rearranged(
            values(before),
            (dom.k + pad_k) as nat,
        )[j] by {
            lemma_reverse_bound(j as nat, (dom.k + pad_k) as nat);
        }
        assert(values(done@) =~= rearranged(values(before), (dom.k + pad_k) as nat));
        assert forall|j: int| 0 <= j < done@.len() implies (#[trigger] done@[j]).wf() by {
            lemma_reverse_bound(j as nat, (dom.k + pad_k) as nat);
            assert(before[reverse_bits(j as nat, (dom.k + pad_k) as nat) as int].wf());
        }
    }
    assert(all_canonical(done@));
    assert(values(done@) == king_vector(
        flat_spec,
        inverse,
        rearrange,
        pad as nat,
        *dom,
        pp.l as int,
    ));
    proof {
        let l = pp.l as int;
        assert(long_len == (pad * w) * l) by (nonlinear_arith)
            requires
                long_len == pad * m,
                m == w * l,
        ;
        vstd::arithmetic::div_mod::lemma_mod_multiples_basic(pad * w, l);
        vstd::arithmetic::div_mod::lemma_div_multiples_vanish(pad * w, l);
    }
    let packed = pack_strided(&done, pp);
    let out = transpose(packed);
    proof {
        lemma_two_pow_monotonic(0, dom.k as nat);
        assert(pad * w >= 1) by (nonlinear_arith)
            requires
                pad >= 1,
                w * pp.l >= 1,
                w >= 0,
                pp.l >= 1,
        ;
        assert forall|p: int, i: int| 0 <= p < pp.n && 0 <= i < pad * w implies (
        #[trigger] out@[p]@[i])@ == pack_values(
            strided(values(done@), i, pad * w, pp.l as int),
            *pp,
        )[p] by {
            assert(out@[p]@[i] == packed@[i]@[p]);
            assert(values(packed@[i]@)[p] == packed@[i]@[p]@);
        }
        assert forall|i: int| 0 <= i < pad * w implies unpack_values(
            #[trigger] column_values(out@, i),
            *pp,
        ) == strided(values(done@), i, pad * w, pp.l as int) by {
            lemma_column_of_transpose(out@, packed@, i);
        }
    }
    out
}

} // verus!
