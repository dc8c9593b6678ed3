use vstd::prelude::*;

verus! {

/// `2^k`.
pub open spec fn pow2(k: nat) -> nat
    decreases k,
{
    if k == 0 {
        1
    } else {
        2 * pow2((k - 1) as nat)
    }
}

/// Level `k` of a heap of `n` elements covers the indices `[2^k - 1, min(2^(k+1) - 1, n))`.
pub open spec fn band(n: int, k: nat) -> (int, int) {
    let hi = pow2(k + 1) - 1;
    (pow2(k) - 1, if hi < n { hi } else { n })
}

proof fn lemma_pow2_positive(k: nat)
    ensures
        pow2(k) >= 1,
    decreases k,
{
    if k > 0 {
        lemma_pow2_positive((k - 1) as nat);
    }
}

/// Splits the indices `[0, n)` of a heap's array into its levels, top first: level
/// `k` is the band `[2^k - 1, min(2^(k+1) - 1, n))`, every band is non-empty, and the
/// bands reach `n`.
pub fn level_bands(n: usize) -> (r: Vec<(usize, usize)>)
    ensures
        forall|k: int| 0 <= k < r.len() ==> (#[trigger] r@[k]).0 == band(n as int, k as nat).0
            && r@[k].1 == band(n as int, k as nat).1 && r@[k].0 < r@[k].1,
        pow2(r.len() as nat) - 1 >= n,
{
    let mut r: Vec<(usize, usize)> = Vec::new();
    let mut idx: usize = 0;
    let mut nodes: usize = 1;
    while idx < n
        invariant
            idx < n ==> idx == pow2(r.len() as nat) - 1 && nodes == pow2(r.len() as nat),
            pow2(r.len() as nat) - 1 >= idx,
            idx <= n,
            forall|k: int| 0 <= k < r.len() ==> (#[trigger] r@[k]).0 == band(n as int, k as nat).0
                && r@[k].1 == band(n as int, k as nat).1 && r@[k].0 < r@[k].1,
        decreases n - idx,
    {
        proof {
            lemma_pow2_positive(r.len() as nat);
            assert(pow2(r.len() as nat + 1) == 2 * pow2(r.len() as nat));
        }
        let end: usize = if nodes > n - idx {
            n
        } else {
            idx + nodes
        };
        r.push((idx, end));
        idx = end;
        if end < n {
            nodes = nodes * 2;
        }
    }
    r
}

} // verus!
