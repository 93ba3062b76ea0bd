//! The Fibonacci-like sequence that the example circuit is about.

use vstd::prelude::*;

verus! {

/// Entry `i` of the sequence that starts with `a`, `b` and goes on by adding the
/// two entries before.
pub open spec fn fibo(a: nat, b: nat, i: nat) -> nat
    decreases i,
{
    if i == 0 {
        a
    } else if i == 1 {
        b
    } else {
        fibo(a, b, (i - 1) as nat) + fibo(a, b, (i - 2) as nat)
    }
}

/// From the second entry on the sequence does not fall.
pub proof fn lemma_fibo_monotonic(a: nat, b: nat, i: nat, j: nat)
    requires
        1 <= i <= j,
    ensures
        fibo(a, b, i) <= fibo(a, b, j),
    decreases j,
{
    if i < j {
        lemma_fibo_monotonic(a, b, i, (j - 1) as nat);
    }
}

/// The first `num` entries of the sequence that starts with `a`, `b`. There
/// are at least two of them, and the last one fits the machine word.
pub fn get_fibo_seq(a: u64, b: u64, num: usize) -> (seq: Vec<u64>)
    requires
        num >= 2,
        fibo(a as nat, b as nat, (num - 1) as nat) <= u64::MAX,
    ensures
        seq@.len() == num,
        forall|i: int| 0 <= i < num ==> seq@[i] == fibo(a as nat, b as nat, i as nat),
{
    let mut seq: Vec<u64> = vec![0u64; num];
    seq.set(0, a);
    seq.set(1, b);
    let mut i: usize = 2;
    while i < num
        invariant
            2 <= i <= num,
            seq@.len() == num,
            fibo(a as nat, b as nat, (num - 1) as nat) <= u64::MAX,
            forall|j: int| 0 <= j < i ==> seq@[j] == fibo(a as nat, b as nat, j as nat),
        decreases num - i,
    {
        proof {
            lemma_fibo_monotonic(a as nat, b as nat, i as nat, (num - 1) as nat);
        }
        let next = seq[i - 1] + seq[i - 2];
        seq.set(i, next);
        i = i + 1;
    }
    seq
}

} // verus!
