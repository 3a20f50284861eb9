//! Index layout of the packed strict upper triangle that the HSIC test stores
//! its symmetric gram matrices in: row `i` holds columns `i+1..n`.

use vstd::prelude::*;

verus! {

/// Where row `i` starts in the packed strict upper triangle of an `n × n`
/// matrix: the total length of rows `0..i`, row `t` holding `n - 1 - t`
/// entries.
pub open spec fn packed_offset(n: nat, i: nat) -> int
    decreases i,
{
    if i == 0 {
        0
    } else {
        packed_offset(n, (i - 1) as nat) + (n - i)
    }
}

/// Twice the offset of row `i` is `i * (2n - i - 1)`.
pub proof fn lemma_packed_offset_closed_form(n: nat, i: nat)
    ensures
        2 * packed_offset(n, i) == i * (2 * n - i - 1),
    decreases i,
{
    if i > 0 {
        let k = (i - 1) as nat;
        lemma_packed_offset_closed_form(n, k);
        assert(k * (2 * n - k - 1) + 2 * (n - i) == i * (2 * n - i - 1)) by (nonlinear_arith)
            requires
                k + 1 == i,
        ;
    } else {
        assert(i * (2 * n - i - 1) == 0) by (nonlinear_arith)
            requires
                i == 0,
        ;
    }
}

/// Offsets grow with the row, up to the whole triangle.
pub proof fn lemma_packed_offset_monotone(n: nat, i: nat, j: nat)
    requires
        i <= j <= n,
    ensures
        0 <= packed_offset(n, i) <= packed_offset(n, j),
    decreases j,
{
    if j > i {
        lemma_packed_offset_monotone(n, i, (j - 1) as nat);
    } else if i > 0 {
        lemma_packed_offset_monotone(n, (i - 1) as nat, (i - 1) as nat);
    }
}

/// The start of every row in the packed strict upper triangle of an `n × n`
/// matrix.
pub fn row_offsets(n: usize) -> (offs: Vec<usize>)
    requires
        n * (n - 1) / 2 <= usize::MAX,
    ensures
        offs@.len() == n,
        forall|i: int| 0 <= i < n ==> #[trigger] offs@[i] == packed_offset(n as nat, i as nat),
{
    let mut offs: Vec<usize> = Vec::new();
    if n == 0 {
        return offs;
    }
    offs.push(0);
    let mut i: usize = 1;
    while i < n
        invariant
            1 <= i <= n,
            n * (n - 1) / 2 <= usize::MAX,
            offs@.len() == i,
            forall|t: int| 0 <= t < i ==> #[trigger] offs@[t] == packed_offset(n as nat, t as nat),
        decreases n - i,
    {
        proof {
            lemma_packed_offset_monotone(n as nat, i as nat, (n - 1) as nat);
            lemma_packed_offset_closed_form(n as nat, (n - 1) as nat);
            assert((n - 1) * (2 * n - (n - 1) - 1) == n * (n - 1)) by (nonlinear_arith);
        }
        let next = offs[i - 1] + (n - i);
        offs.push(next);
        i = i + 1;
    }
    offs
}

} // verus!
