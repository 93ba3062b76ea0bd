//! The byte string that carries a proof and its public inputs to a verifier:
//! each public input as 32 bytes, the most significant first, then the proof.

use crate::field::Scalar;
use vstd::bytes::{spec_u64_to_le_bytes, u64_to_le_bytes};
use vstd::prelude::*;

verus! {

/// The 32 bytes of a scalar, the most significant first.
pub open spec fn be_bytes(s: Scalar) -> Seq<u8> {
    Seq::new(32, |k: int| spec_u64_to_le_bytes(s.limbs@[3 - k / 8])[7 - k % 8])
}

/// The bytes of a row of scalars, one scalar after the other.
pub open spec fn row_bytes(row: Seq<Scalar>) -> Seq<u8>
    decreases row.len(),
{
    if row.len() == 0 {
        Seq::empty()
    } else {
        row_bytes(row.drop_last()) + be_bytes(row.last())
    }
}

/// The bytes of all the rows, one row after the other.
pub open spec fn rows_bytes(rows: Seq<Vec<Scalar>>) -> Seq<u8>
    decreases rows.len(),
{
    if rows.len() == 0 {
        Seq::empty()
    } else {
        rows_bytes(rows.drop_last()) + row_bytes(rows.last()@)
    }
}

/// Appends the 32 bytes of `s`, the most significant first, to `out`.
pub fn push_be_bytes(out: &mut Vec<u8>, s: &Scalar)
    ensures
        final(out)@ == old(out)@ + be_bytes(*s),
{
    let mut limb: usize = 4;
    while limb > 0
        invariant
            limb <= 4,
            out@.len() == old(out)@.len() + 8 * (4 - limb),
            forall|j: int| 0 <= j < old(out)@.len() ==> out@[j] == old(out)@[j],
            forall|k: int|
                0 <= k < 8 * (4 - limb) ==> out@[old(out)@.len() + k] == be_bytes(*s)[k],
        decreases limb,
    {
        limb = limb - 1;
        let bytes = u64_to_le_bytes(s.limbs[limb]);
        proof {
            vstd::bytes::lemma_auto_spec_u64_to_from_le_bytes();
        }
        let ghost base = out@.len();
        let mut b: usize = 8;
        while b > 0
            invariant
                b <= 8,
                limb < 4,
                bytes@ == spec_u64_to_le_bytes(s.limbs@[limb as int]),
                bytes@.len() == 8,
                base == old(out)@.len() + 8 * (3 - limb),
                out@.len() == base + (8 - b),
                forall|j: int| 0 <= j < old(out)@.len() ==> out@[j] == old(out)@[j],
                forall|k: int|
                    0 <= k < 8 * (3 - limb) + (8 - b) ==> out@[old(out)@.len() + k] == be_bytes(
                        *s,
                    )[k],
            decreases b,
        {
            b = b - 1;
            out.push(bytes[b]);
            proof {
                let k = 8 * (3 - limb) + (7 - b);
                assert(k / 8 == 3 - limb && k % 8 == 7 - b);
            }
        }
    }
    assert(out@ =~= old(out)@ + be_bytes(*s));
}

/// The public inputs, each as 32 bytes with the most significant first, row
/// after row, followed by the proof.
pub fn encode_calldata(instances: &Vec<Vec<Scalar>>, proof: &Vec<u8>) -> (calldata: Vec<u8>)
    ensures
        calldata@ == rows_bytes(instances@) + proof@,
{
    let mut out: Vec<u8> = Vec::new();
    let mut r: usize = 0;
    while r < instances.len()
        invariant
            r <= instances@.len(),
            out@ == rows_bytes(instances@.subrange(0, r as int)),
        decreases instances@.len() - r,
    {
        let row = &instances[r];
        let ghost before = out@;
        let mut i: usize = 0;
        while i < row.len()
            invariant
                i <= row@.len(),
                out@ == before + row_bytes(row@.subrange(0, i as int)),
            decreases row@.len() - i,
        {
            proof {
                let next = row@.subrange(0, i + 1);
                assert(next.drop_last() =~= row@.subrange(0, i as int));
                assert(next.last() == row@[i as int]);
            }
            push_be_bytes(&mut out, &row[i]);
            assert(out@ =~= before + row_bytes(row@.subrange(0, i + 1)));
            i = i + 1;
        }
        proof {
            assert(row@.subrange(0, i as int) =~= row@);
            let next = instances@.subrange(0, r + 1);
            assert(next.drop_last() =~= instances@.subrange(0, r as int));
            assert(next.last() == instances@[r as int]);
        }
        r = r + 1;
    }
    assert(instances@.subrange(0, r as int) =~= instances@);
    let mut j: usize = 0;
    let ghost head = out@;
    while j < proof.len()
        invariant
            j <= proof@.len(),
            out@ == head + proof@.subrange(0, j as int),
        decreases proof@.len() - j,
    {
        out.push(proof[j]);
        assert(out@ =~= head + proof@.subrange(0, j + 1));
        j = j + 1;
    }
    assert(proof@.subrange(0, j as int) =~= proof@);
    out
}

} // verus!
