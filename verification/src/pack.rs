//! Packing of long vectors, column by column, and the king's part of the
//! degree reduction.

use crate::field::{all_canonical, modulus, values, Scalar};
use crate::pss::{pack_values, unpack2_values, unpack_values, PackedSharingParams};
use vstd::prelude::*;

verus! {

/// Every row of `m` has `cols` entries.
pub open spec fn is_matrix<T>(m: Seq<Vec<T>>, cols: nat) -> bool {
    forall|r: int| 0 <= r < m.len() ==> (#[trigger] m[r])@.len() == cols
}

/// Every entry of `m` is a canonical scalar.
pub open spec fn all_canonical_rows(m: Seq<Vec<Scalar>>) -> bool {
    forall|r: int| 0 <= r < m.len() ==> all_canonical((#[trigger] m[r])@)
}

/// Column `c` of the matrix `m`, as numbers.
pub open spec fn column_values(m: Seq<Vec<Scalar>>, c: int) -> Seq<nat> {
    Seq::new(m.len(), |r: int| m[r]@[c]@)
}

/// The matrix with rows and columns exchanged. The rows of `matrix` have one
/// length; a matrix without rows gives one without rows.
pub fn transpose<T: Copy>(matrix: Vec<Vec<T>>) -> (out: Vec<Vec<T>>)
    requires
        matrix@.len() > 0 ==> is_matrix(matrix@, matrix@[0]@.len()),
    ensures
        matrix@.len() == 0 ==> out@.len() == 0,
        matrix@.len() > 0 ==> out@.len() == matrix@[0]@.len(),
        is_matrix(out@, matrix@.len()),
        forall|c: int, r: int|
            0 <= c < out@.len() && 0 <= r < matrix@.len() ==> #[trigger] out@[c]@[r]
                == #[trigger] matrix@[r]@[c],
{
    let mut out: Vec<Vec<T>> = Vec::new();
    if matrix.len() == 0 {
        return out;
    }
    let rows = matrix.len();
    let cols = matrix[0].len();
    let mut c: usize = 0;
    while c < cols
        invariant
            c <= cols,
            rows == matrix@.len(),
            is_matrix(matrix@, cols as nat),
            out@.len() == c,
            is_matrix(out@, rows as nat),
            forall|cc: int, r: int|
                0 <= cc < c && 0 <= r < rows ==> #[trigger] out@[cc]@[r]
                    == #[trigger] matrix@[r]@[cc],
        decreases cols - c,
    {
        let mut column: Vec<T> = Vec::new();
        let mut r: usize = 0;
        while r < rows
            invariant
                r <= rows,
                c < cols,
                rows == matrix@.len(),
                is_matrix(matrix@, cols as nat),
                column@.len() == r,
                forall|rr: int| 0 <= rr < r ==> #[trigger] column@[rr] == matrix@[rr]@[c as int],
            decreases rows - r,
        {
            assert(matrix@[r as int]@.len() == cols);
            column.push(matrix[r][c]);
            r = r + 1;
        }
        out.push(column);
        c = c + 1;
    }
    out
}

/// Column `c` of a matrix is row `c` of the matrix it was transposed from.
pub proof fn lemma_column_of_transpose(out: Seq<Vec<Scalar>>, rows: Seq<Vec<Scalar>>, c: int)
    requires
        0 <= c < rows.len(),
        is_matrix(rows, out.len()),
        is_matrix(out, rows.len()),
        forall|p: int, cc: int|
            0 <= p < out.len() && 0 <= cc < rows.len() ==> #[trigger] out[p]@[cc]
                == #[trigger] rows[cc]@[p],
    ensures
        column_values(out, c) == values(rows[c]@),
{
    assert forall|p: int| 0 <= p < out.len() implies column_values(out, c)[p] == values(
        rows[c]@,
    )[p] by {
        assert(out[p]@[c] == rows[c]@[p]);
    }
    assert(column_values(out, c) =~= values(rows[c]@));
}

/// `k * l + l == (k + 1) * l`, and a chunk below the length's quotient lies
/// within the vector.
proof fn lemma_chunk_bounds(k: int, l: int, len: int)
    requires
        l >= 1,
        0 <= k < len / l,
        0 <= len,
    ensures
        k * l + l == (k + 1) * l,
        (k + 1) * l <= len,
        0 <= k * l,
{
    assert(k * l + l == (k + 1) * l) by (nonlinear_arith);
    assert(0 <= k * l) by (nonlinear_arith)
        requires
            k >= 0,
            l >= 1,
    ;
    assert((len / l) * l <= len) by (nonlinear_arith)
        requires
            l >= 1,
            len >= 0,
    ;
    assert((k + 1) * l <= (len / l) * l) by (nonlinear_arith)
        requires
            k + 1 <= len / l,
            l >= 1,
    ;
}

/// Chunk `k` of `s`, of `l` entries.
pub open spec fn chunk(s: Seq<nat>, k: int, l: int) -> Seq<nat> {
    s.subrange(k * l, k * l + l)
}

/// The shares of a long vector of secrets: each chunk of `l` secrets in a row is
/// packed into `n` shares. The length of `secrets` is a multiple of `l`.
pub fn pack_vec(secrets: &Vec<Scalar>, pp: &PackedSharingParams) -> (shares: Vec<Vec<Scalar>>)
    requires
        pp.wf(),
        secrets@.len() % (pp.l as nat) == 0,
    ensures
        shares@.len() == secrets@.len() / (pp.l as nat),
        is_matrix(shares@, pp.n as nat),
        all_canonical_rows(shares@),
        forall|k: int|
            0 <= k < shares@.len() ==> values((#[trigger] shares@[k])@) == pack_values(
                chunk(values(secrets@), k, pp.l as int),
                *pp,
            ),
        all_canonical(secrets@) ==> forall|k: int|
            0 <= k < shares@.len() ==> unpack_values(values((#[trigger] shares@[k])@), *pp)
                == chunk(values(secrets@), k, pp.l as int),
{
    let l = pp.l;
    let count = secrets.len() / l;
    let mut shares: Vec<Vec<Scalar>> = Vec::new();
    let mut k: usize = 0;
    let mut start: usize = 0;
    while k < count
        invariant
            pp.wf(),
            l == pp.l,
            count == secrets@.len() / (l as nat),
            secrets@.len() <= usize::MAX,
            k <= count,
            start == k * l,
            shares@.len() == k,
            is_matrix(shares@, pp.n as nat),
            all_canonical_rows(shares@),
            forall|j: int|
                0 <= j < k ==> values((#[trigger] shares@[j])@) == pack_values(
                    chunk(values(secrets@), j, l as int),
                    *pp,
                ),
            all_canonical(secrets@) ==> forall|j: int|
                0 <= j < k ==> unpack_values(values((#[trigger] shares@[j])@), *pp) == chunk(
                    values(secrets@),
                    j,
                    l as int,
                ),
        decreases count - k,
    {
        proof {
            lemma_chunk_bounds(k as int, l as int, secrets@.len() as int);
        }
        assert(start + l <= secrets@.len());
        let mut piece: Vec<Scalar> = Vec::new();
        let mut i: usize = 0;
        while i < l
            invariant
                i <= l,
                start + l <= secrets@.len() <= usize::MAX,
                piece@.len() == i,
                forall|j: int| 0 <= j < i ==> #[trigger] piece@[j] == secrets@[start + j],
            decreases l - i,
        {
            piece.push(secrets[start + i]);
            i = i + 1;
        }
        assert(values(piece@) =~= chunk(values(secrets@), k as int, l as int));
        assert(all_canonical(secrets@) ==> all_canonical(piece@)) by {
            if all_canonical(secrets@) {
                assert forall|j: int| 0 <= j < piece@.len() implies (#[trigger] piece@[j]).wf() by {
                    assert(secrets@[start + j].wf());
                }
            }
        }
        let packed = pp.pack_from_public(&piece);
        shares.push(packed);
        k = k + 1;
        start = start + l;
    }
    shares
}

/// `n` rows without entries.
pub fn empty_rows(n: usize) -> (out: Vec<Vec<Scalar>>)
    ensures
        out@.len() == n,
        is_matrix(out@, 0),
{
    let mut out: Vec<Vec<Scalar>> = Vec::new();
    while out.len() < n
        invariant
            out@.len() <= n,
            is_matrix(out@, 0),
        decreases n - out@.len(),
    {
        out.push(Vec::new());
    }
    out
}

/// What each party holds after the degree reduction of the shares in `shares`,
/// one row for each party: in each column the secrets behind the degree-two
/// shares, packed again at degree one.
pub open spec fn reduced_values(shares: Seq<Vec<Scalar>>, c: int, pp: PackedSharingParams) -> Seq<
    nat,
> {
    pack_values(unpack2_values(column_values(shares, c), pp), pp)
}

/// The king's part of the degree reduction. `shares` holds one row for each
/// party, all of one length. For each column the king recovers the secrets
/// behind the degree-two shares and packs them again; row `p` of the result
/// goes back to party `p`.
pub fn deg_red_king(shares: Vec<Vec<Scalar>>, pp: &PackedSharingParams) -> (out: Vec<Vec<Scalar>>)
    requires
        pp.wf(),
        shares@.len() == pp.n,
        is_matrix(shares@, shares@[0]@.len()),
    ensures
        out@.len() == pp.n,
        is_matrix(out@, shares@[0]@.len()),
        forall|p: int, c: int|
            0 <= p < pp.n && 0 <= c < shares@[0]@.len() ==> (#[trigger] out@[p]@[c])@
                == reduced_values(shares@, c, *pp)[p],
        forall|c: int|
            0 <= c < shares@[0]@.len() ==> unpack_values(#[trigger] column_values(out@, c), *pp)
                == unpack2_values(column_values(shares@, c), *pp),
        forall|c: int, i: int|
            0 <= c < shares@[0]@.len() && 0 <= i < pp.l ==> #[trigger] unpack_values(
                column_values(out@, c),
                *pp,
            )[i] == shares@[2 * i]@[c]@ % modulus(),
{
    let ghost width = shares@[0]@.len();
    let columns = transpose(shares);
    let mut packed: Vec<Vec<Scalar>> = Vec::new();
    let mut c: usize = 0;
    while c < columns.len()
        invariant
            pp.wf(),
            c <= columns@.len(),
            columns@.len() == width,
            shares@.len() == pp.n,
            is_matrix(columns@, pp.n as nat),
            forall|cc: int, r: int|
                0 <= cc < columns@.len() && 0 <= r < pp.n ==> #[trigger] columns@[cc]@[r]
                    == #[trigger] shares@[r]@[cc],
            packed@.len() == c,
            is_matrix(packed@, pp.n as nat),
            forall|cc: int|
                0 <= cc < c ==> values((#[trigger] packed@[cc])@) == reduced_values(
                    shares@,
                    cc,
                    *pp,
                ),
            forall|cc: int|
                0 <= cc < c ==> unpack_values(values((#[trigger] packed@[cc])@), *pp)
                    == unpack2_values(column_values(shares@, cc), *pp),
            forall|cc: int, i: int|
                0 <= cc < c && 0 <= i < pp.l ==> #[trigger] unpack_values(
                    values(packed@[cc]@),
                    *pp,
                )[i] == shares@[2 * i]@[cc]@ % modulus(),
        decreases columns@.len() - c,
    {
        assert(values(columns@[c as int]@) =~= column_values(shares@, c as int));
        let secrets = pp.unpack2(&columns[c]);
        let again = pp.pack_from_public(&secrets);
        proof {
            assert forall|i: int| 0 <= i < pp.l implies #[trigger] unpack_values(
                values(again@),
                *pp,
            )[i] == shares@[2 * i]@[c as int]@ % modulus() by {
                assert(values(secrets@)[i] == secrets@[i]@);
                assert(columns@[c as int]@[2 * i] == shares@[2 * i]@[c as int]);
            }
        }
        packed.push(again);
        c = c + 1;
    }
    if packed.len() == 0 {
        return empty_rows(pp.n);
    }
    let out = transpose(packed);
    assert forall|p: int, c: int| 0 <= p < pp.n && 0 <= c < width implies (#[trigger] out@[p]@[c])@
        == reduced_values(shares@, c, *pp)[p] by {
        assert(out@[p]@[c] == packed@[c]@[p]);
        assert(values(packed@[c]@)[p] == packed@[c]@[p]@);
    }
    assert forall|c: int| 0 <= c < width implies unpack_values(
        #[trigger] column_values(out@, c),
        *pp,
    ) == unpack2_values(column_values(shares@, c), *pp) by {
        lemma_column_of_transpose(out@, packed@, c);
    }
    assert forall|c: int, i: int| 0 <= c < width && 0 <= i < pp.l implies #[trigger] unpack_values(
        column_values(out@, c),
        *pp,
    )[i] == shares@[2 * i]@[c]@ % modulus() by {
        lemma_column_of_transpose(out@, packed@, c);
    }
    out
}

} // verus!
