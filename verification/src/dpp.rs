//! Partial products: the running product of quotients that the permutation
//! argument needs, and the king's part of computing it on packed shares.

use crate::field::{all_canonical, lemma_modulus_large, modulus, values, Scalar};
use crate::pack::{
    chunk, column_values, empty_rows, is_matrix, lemma_column_of_transpose, pack_vec, transpose,
};
use crate::pss::{pack_values, unpack2_values, unpack_values, PackedSharingParams};
use vstd::prelude::*;

verus! {

/// The product of the first `count` entries of `v`, modulo the field order.
pub open spec fn prefix_product(v: Seq<nat>, count: nat) -> nat
    decreases count,
{
    if count == 0 {
        1
    } else {
        (prefix_product(v, (count - 1) as nat) * v[count - 1]) % modulus()
    }
}

/// `z` holds the partial products of `num` over `den`: entry `k`, multiplied by
/// the product of the denominators up to `k`, gives the product of the
/// numerators up to `k`.
pub open spec fn is_partial_products(z: Seq<nat>, num: Seq<nat>, den: Seq<nat>) -> bool {
    &&& z.len() == num.len()
    &&& forall|k: int|
        0 <= k < z.len() ==> #[trigger] z[k] < modulus() && (z[k] * prefix_product(
            den,
            (k + 1) as nat,
        )) % modulus() == prefix_product(num, (k + 1) as nat)
}

/// Some running product of `den` is zero, so that no quotient by it exists.
pub open spec fn has_zero_product(den: Seq<nat>) -> bool {
    exists|k: int| 0 <= k < den.len() && #[trigger] prefix_product(den, (k + 1) as nat) == 0
}

/// Every entry of `v` is one.
pub open spec fn all_ones(v: Seq<nat>) -> bool {
    forall|i: int| 0 <= i < v.len() ==> #[trigger] v[i] == 1
}

/// A product of ones is one.
pub proof fn lemma_prefix_product_of_ones(v: Seq<nat>, count: nat)
    requires
        count <= v.len(),
        all_ones(v),
    ensures
        prefix_product(v, count) == 1,
    decreases count,
{
    crate::field::lemma_modulus_large();
    if count > 0 {
        lemma_prefix_product_of_ones(v, (count - 1) as nat);
        assert(v[count - 1] == 1);
        assert(1 * 1 == 1);
        vstd::arithmetic::div_mod::lemma_small_mod(1, modulus());
    }
}

/// The partial products of ones over ones exist and are all one.
pub proof fn lemma_partial_products_of_ones(z: Seq<nat>, num: Seq<nat>, den: Seq<nat>)
    requires
        num.len() == den.len(),
        all_ones(num),
        all_ones(den),
    ensures
        !has_zero_product(den),
        is_partial_products(z, num, den) ==> all_ones(z),
{
    assert forall|k: int| 0 <= k < den.len() implies #[trigger] prefix_product(
        den,
        (k + 1) as nat,
    ) != 0 by {
        lemma_prefix_product_of_ones(den, (k + 1) as nat);
    }
    if is_partial_products(z, num, den) {
        assert forall|k: int| 0 <= k < z.len() implies #[trigger] z[k] == 1 by {
            lemma_prefix_product_of_ones(den, (k + 1) as nat);
            lemma_prefix_product_of_ones(num, (k + 1) as nat);
            assert(z[k] * 1 == z[k]);
            vstd::arithmetic::div_mod::lemma_small_mod(z[k], modulus());
        }
    }
}

/// Multiplying a quotient by its divisor gives the dividend back.
proof fn lemma_quotient_times_divisor(n: nat, d: nat, inv: nat)
    requires
        n < modulus(),
        (d * inv) % modulus() == 1,
    ensures
        (((n * inv) % modulus()) * d) % modulus() == n,
{
    let p = modulus() as int;
    lemma_modulus_large();
    vstd::arithmetic::div_mod::lemma_mul_mod_noop_left((n * inv) as int, d as int, p);
    assert((n * inv) * d == n * (d * inv)) by (nonlinear_arith);
    vstd::arithmetic::div_mod::lemma_mul_mod_noop_right(n as int, (d * inv) as int, p);
    assert(n * 1 == n);
    vstd::arithmetic::div_mod::lemma_small_mod(n, modulus());
}

/// The partial products of `num` over `den`, two vectors of one length: entry
/// `k` is the product of the first `k + 1` numerators divided by the product of
/// the first `k + 1` denominators. There is none when a running product of the
/// denominators is zero.
pub fn partial_products(num: &Vec<Scalar>, den: &Vec<Scalar>) -> (r: Option<Vec<Scalar>>)
    requires
        num@.len() == den@.len(),
    ensures
        r.is_none() <==> has_zero_product(values(den@)),
        r.is_some() ==> all_canonical(r.unwrap()@) && is_partial_products(
            values(r.unwrap()@),
            values(num@),
            values(den@),
        ),
{
    let mut out: Vec<Scalar> = Vec::new();
    let mut n_acc = Scalar::from_u64(1);
    let mut d_acc = Scalar::from_u64(1);
    let mut k: usize = 0;
    while k < num.len()
        invariant
            k <= num@.len(),
            num@.len() == den@.len(),
            out@.len() == k,
            all_canonical(out@),
            n_acc.wf(),
            d_acc.wf(),
            n_acc@ == prefix_product(values(num@), k as nat),
            d_acc@ == prefix_product(values(den@), k as nat),
            forall|j: int| 0 <= j < k ==> #[trigger] prefix_product(values(den@), (j + 1) as nat) != 0,
            forall|j: int|
                0 <= j < k ==> (#[trigger] out@[j]@ * prefix_product(values(den@), (j + 1) as nat))
                    % modulus() == prefix_product(values(num@), (j + 1) as nat),
        decreases num@.len() - k,
    {
        n_acc = n_acc.times(&num[k]);
        d_acc = d_acc.times(&den[k]);
        proof {
            lemma_modulus_large();
            vstd::arithmetic::div_mod::lemma_small_mod(d_acc@, modulus());
        }
        match d_acc.invert() {
            None => {
                assert(prefix_product(values(den@), (k + 1) as nat) == 0);
                return None;
            },
            Some(inv) => {
                let z = n_acc.times(&inv);
                proof {
                    lemma_quotient_times_divisor(n_acc@, d_acc@, inv@);
                }
                out.push(z);
            },
        }
        k = k + 1;
    }
    assert(values(out@).len() == out@.len());
    assert forall|j: int| 0 <= j < out@.len() implies #[trigger] values(out@)[j] < modulus() && (
    values(out@)[j] * prefix_product(values(den@), (j + 1) as nat)) % modulus() == prefix_product(
        values(num@),
        (j + 1) as nat,
    ) by {
        assert(out@[j].wf());
    }
    Some(out)
}

/// The secrets behind a matrix of shares, one row for each party: the secrets
/// of the first column, then those of the second, and so on.
pub open spec fn unpacked_flat(shares: Seq<Vec<Scalar>>, width: nat, pp: PackedSharingParams)
    -> Seq<nat> {
    Seq::new(
        width * (pp.l as nat),
        |i: int| unpack2_values(column_values(shares, i / (pp.l as int)), pp)[i % (pp.l as int)],
    )
}

/// Index `c * l + i` lies in chunk `c`, at place `i`.
proof fn lemma_flat_index(c: int, i: int, l: int, width: int)
    requires
        0 <= c < width,
        0 <= i < l,
    ensures
        (c * l + i) / l == c,
        (c * l + i) % l == i,
        0 <= c * l + i < width * l,
        c * l + l == (c + 1) * l,
        c * l + l <= width * l,
{
    vstd::arithmetic::div_mod::lemma_fundamental_div_mod_converse(c * l + i, l, c, i);
    assert(c * l + l == (c + 1) * l) by (nonlinear_arith);
    assert(0 <= c * l && (c + 1) * l <= width * l) by (nonlinear_arith)
        requires
            0 <= c,
            c + 1 <= width,
            l > 0,
    ;
}

/// The secrets behind a matrix of shares of degree at most two, one row for
/// each party and all rows of one length, column after column.
pub fn unpack_columns(shares: &Vec<Vec<Scalar>>, pp: &PackedSharingParams) -> (flat: Vec<Scalar>)
    requires
        pp.wf(),
        shares@.len() == pp.n,
        is_matrix(shares@, shares@[0]@.len()),
    ensures
        flat@.len() == shares@[0]@.len() * pp.l,
        all_canonical(flat@),
        values(flat@) == unpacked_flat(shares@, shares@[0]@.len(), *pp),
{
    let width = shares[0].len();
    let mut flat: Vec<Scalar> = Vec::new();
    let mut c: usize = 0;
    while c < width
        invariant
            pp.wf(),
            c <= width,
            width == shares@[0]@.len(),
            shares@.len() == pp.n,
            is_matrix(shares@, width as nat),
            flat@.len() == c * pp.l,
            all_canonical(flat@),
            forall|cc: int, i: int|
                0 <= cc < c && 0 <= i < pp.l ==> (#[trigger] flat@[cc * pp.l + i])@
                    == unpack2_values(column_values(shares@, cc), *pp)[i],
        decreases width - c,
    {
        let mut column: Vec<Scalar> = Vec::new();
        let mut r: usize = 0;
        while r < pp.n
            invariant
                r <= pp.n,
                c < width,
                shares@.len() == pp.n,
                is_matrix(shares@, width as nat),
                column@.len() == r,
                forall|rr: int| 0 <= rr < r ==> #[trigger] column@[rr] == shares@[rr]@[c as int],
            decreases pp.n - r,
        {
            assert(shares@[r as int]@.len() == width);
            column.push(shares[r][c]);
            r = r + 1;
        }
        assert(values(column@) =~= column_values(shares@, c as int));
        let secrets = pp.unpack2(&column);
        let ghost before = flat@;
        let mut i: usize = 0;
        while i < pp.l
            invariant
                i <= pp.l,
                secrets@.len() == pp.l,
                all_canonical(secrets@),
                all_canonical(flat@),
                before.len() == c * pp.l,
                flat@.len() == before.len() + i,
                forall|j: int| 0 <= j < before.len() ==> flat@[j] == before[j],
                forall|j: int| 0 <= j < i ==> flat@[before.len() + j] == secrets@[j],
            decreases pp.l - i,
        {
            flat.push(secrets[i]);
            i = i + 1;
        }
        proof {
            assert(c * pp.l + pp.l == (c + 1) * pp.l) by (nonlinear_arith);
            assert forall|cc: int, i: int| 0 <= cc < c + 1 && 0 <= i < pp.l implies (
            #[trigger] flat@[cc * pp.l + i])@ == unpack2_values(column_values(shares@, cc), *pp)[i] by {
                lemma_flat_index(cc, i, pp.l as int, (c + 1) as int);
                if cc < c {
                    lemma_flat_index(cc, i, pp.l as int, c as int);
                    assert(flat@[cc * pp.l + i] == before[cc * pp.l + i]);
                } else {
                    assert(flat@[before.len() + i] == secrets@[i]);
                    assert(values(secrets@)[i] == secrets@[i]@);
                }
            }
        }
        c = c + 1;
    }
    proof {
        assert forall|i: int| 0 <= i < flat@.len() implies values(flat@)[i] == unpacked_flat(
            shares@,
            width as nat,
            *pp,
        )[i] by {
            let l = pp.l as int;
            let cc = i / l;
            let j = i % l;
            vstd::arithmetic::div_mod::lemma_fundamental_div_mod(i, l);
            assert(i == l * cc + j);
            assert(l * cc == cc * l) by (nonlinear_arith);
            assert(0 <= cc < width) by (nonlinear_arith)
                requires
                    0 <= i < width * l,
                    i == cc * l + j,
                    0 <= j < l,
                    l > 0,
            ;
            assert(flat@[cc * pp.l + j]@ == unpack2_values(column_values(shares@, cc), *pp)[j]);
        }
        assert(values(flat@) =~= unpacked_flat(shares@, width as nat, *pp));
    }
    flat
}

/// The king's part of the partial products. `num` and `den` hold the parties'
/// shares of the numerators and of the denominators, one row for each party
/// and all rows of one length. The king recovers the secrets column by column,
/// forms the partial products over the whole vector and packs them again; row
/// `p` of the result goes back to party `p`. There is no result when a running
/// product of the denominators is zero.
pub fn d_pp_king(num: &Vec<Vec<Scalar>>, den: &Vec<Vec<Scalar>>, pp: &PackedSharingParams) -> (r:
    Option<Vec<Vec<Scalar>>>)
    requires
        pp.wf(),
        num@.len() == pp.n,
        den@.len() == pp.n,
        is_matrix(num@, num@[0]@.len()),
        is_matrix(den@, num@[0]@.len()),
    ensures
        r.is_none() <==> has_zero_product(unpacked_flat(den@, num@[0]@.len(), *pp)),
        r.is_some() ==> r.unwrap()@.len() == pp.n && is_matrix(r.unwrap()@, num@[0]@.len())
            && exists|z: Seq<nat>|
            {
                &&& is_partial_products(
                    z,
                    unpacked_flat(num@, num@[0]@.len(), *pp),
                    unpacked_flat(den@, num@[0]@.len(), *pp),
                )
                &&& forall|p: int, c: int|
                    0 <= p < pp.n && 0 <= c < num@[0]@.len() ==> (#[trigger] r.unwrap()@[p]@[c])@
                        == pack_values(chunk(z, c, pp.l as int), *pp)[p]
                &&& forall|c: int|
                    0 <= c < num@[0]@.len() ==> unpack_values(
                        #[trigger] column_values(r.unwrap()@, c),
                        *pp,
                    ) == chunk(z, c, pp.l as int)
            },
        all_ones(unpacked_flat(num@, num@[0]@.len(), *pp)) && all_ones(
            unpacked_flat(den@, num@[0]@.len(), *pp),
        ) ==> r.is_some() && forall|c: int|
            0 <= c < num@[0]@.len() ==> all_ones(
                unpack_values(#[trigger] column_values(r.unwrap()@, c), *pp),
            ),
{
    assert(den@[0]@.len() == num@[0]@.len());
    let flat_num = unpack_columns(num, pp);
    let flat_den = unpack_columns(den, pp);
    proof {
        if all_ones(values(flat_num@)) && all_ones(values(flat_den@)) {
            lemma_partial_products_of_ones(Seq::empty(), values(flat_num@), values(flat_den@));
        }
    }
    let z = match partial_products(&flat_num, &flat_den) {
        None => { return None; },
        Some(z) => z,
    };
    proof {
        if all_ones(values(flat_num@)) && all_ones(values(flat_den@)) {
            lemma_partial_products_of_ones(values(z@), values(flat_num@), values(flat_den@));
        }
    }
    proof {
        let l = pp.l as int;
        let w = num@[0]@.len() as int;
        assert(z@.len() == values(z@).len());
        vstd::arithmetic::div_mod::lemma_mod_multiples_basic(w, l);
        vstd::arithmetic::div_mod::lemma_div_multiples_vanish(w, l);
    }
    let packed = pack_vec(&z, pp);
    if packed.len() == 0 {
        return Some(empty_rows(pp.n));
    }
    let out = transpose(packed);
    proof {
        let zs = values(z@);
        assert forall|p: int, c: int| 0 <= p < pp.n && 0 <= c < num@[0]@.len() implies (
        #[trigger] out@[p]@[c])@ == pack_values(chunk(zs, c, pp.l as int), *pp)[p] by {
            assert(out@[p]@[c] == packed@[c]@[p]);
            assert(values(packed@[c]@)[p] == packed@[c]@[p]@);
        }
        assert forall|c: int| 0 <= c < num@[0]@.len() implies unpack_values(
            #[trigger] column_values(out@, c),
            *pp,
        ) == chunk(zs, c, pp.l as int) by {
            lemma_column_of_transpose(out@, packed@, c);
        }
        if all_ones(zs) {
            assert forall|c: int| 0 <= c < num@[0]@.len() implies all_ones(
                unpack_values(#[trigger] column_values(out@, c), *pp),
            ) by {
                let piece = chunk(zs, c, pp.l as int);
                lemma_flat_index(c, 0, pp.l as int, num@[0]@.len() as int);
                assert(zs.len() == num@[0]@.len() * pp.l);
                assert(piece.len() == pp.l);
                assert forall|i: int| 0 <= i < piece.len() implies #[trigger] piece[i] == 1 by {
                    lemma_flat_index(c, i, pp.l as int, num@[0]@.len() as int);
                    assert(piece[i] == zs[c * pp.l + i]);
                }
            }
        }
    }
    Some(out)
}

} // verus!
