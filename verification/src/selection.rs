//! Choosing which expiries of a data file appear on a smile chart.

use vstd::prelude::*;

verus! {

/// The most smiles drawn on one chart.
pub const MAX_PLOTTED_SLICES: usize = 8;

/// The slices picked for a chart out of `n` expiries (in expiry order):
/// all of them when there are at most eight, else eight spread evenly,
/// the `i`-th being slice `floor(i * n / 8)`.
pub open spec fn plotted_slices(n: nat) -> Seq<int> {
    if n <= 8 {
        Seq::new(n, |i: int| i)
    } else {
        Seq::new(8, |i: int| (i * n) / 8)
    }
}

/// Picks the indices of the expiries to plot out of `n` sorted expiries.
pub fn select_slice_indices(n: usize) -> (idx: Vec<usize>)
    ensures
        idx@.len() == plotted_slices(n as nat).len(),
        forall|i: int| 0 <= i < idx@.len() ==> idx@[i] as int == plotted_slices(n as nat)[i],
{
    let mut idx: Vec<usize> = Vec::new();
    if n <= MAX_PLOTTED_SLICES {
        let mut i: usize = 0;
        while i < n
            invariant
                i <= n <= 8,
                idx@.len() == i,
                forall|j: int| 0 <= j < i ==> idx@[j] == j,
            decreases n - i,
        {
            idx.push(i);
            i = i + 1;
        }
    } else {
        let q = n / 8;
        let r = n % 8;
        let mut i: usize = 0;
        while i < 8
            invariant
                n > 8,
                q == n / 8,
                r == n % 8,
                i <= 8,
                idx@.len() == i,
                forall|j: int| 0 <= j < i ==> idx@[j] as int == (j * n) / 8,
            decreases 8 - i,
        {
            proof {
                lemma_spread_index(n as int, i as int);
            }
            idx.push(q * i + (r * i) / 8);
            i = i + 1;
        }
    }
    idx
}

proof fn lemma_spread_index(n: int, i: int)
    requires
        n > 8,
        0 <= i < 8,
    ensures
        (n / 8) * i + ((n % 8) * i) / 8 == (i * n) / 8,
        (n / 8) * i <= n,
        (n % 8) * i < 64,
        (i * n) / 8 < n,
{
    let q = n / 8;
    let r = n % 8;
    assert(n == 8 * q + r) by (nonlinear_arith)
        requires
            q == n / 8,
            r == n % 8,
    ;
    assert(i * n == 8 * (q * i) + r * i) by (nonlinear_arith)
        requires
            n == 8 * q + r,
    ;
    assert((8 * (q * i) + r * i) / 8 == q * i + (r * i) / 8) by (nonlinear_arith)
        requires
            0 <= r < 8,
            0 <= i < 8,
            q >= 0,
    ;
    assert(r * i < 64) by (nonlinear_arith)
        requires
            0 <= r < 8,
            0 <= i < 8,
    ;
    assert((i * n) / 8 < n) by (nonlinear_arith)
        requires
            0 <= i < 8,
            n > 8,
    ;
    assert(q * i <= n) by (nonlinear_arith)
        requires
            n == 8 * q + r,
            0 <= i < 8,
            q >= 0,
            r >= 0,
    ;
}

/// The chosen slices are distinct valid positions in increasing order.
pub proof fn lemma_plotted_slices_increasing(n: nat)
    ensures
        forall|i: int, j: int|
            #![trigger plotted_slices(n)[i], plotted_slices(n)[j]]
            0 <= i < j < plotted_slices(n).len() ==> 0 <= plotted_slices(n)[i]
                < plotted_slices(n)[j] < n,
{
    if n > 8 {
        assert forall|i: int, j: int|
            #![trigger plotted_slices(n)[i], plotted_slices(n)[j]]
            0 <= i < j < plotted_slices(n).len() implies 0 <= plotted_slices(n)[i]
            < plotted_slices(n)[j] < n by {
            assert(0 <= (i * n) / 8 < (j * n) / 8 < n) by (nonlinear_arith)
                requires
                    0 <= i < j < 8,
                    n > 8,
            ;
        }
    }
}

/// Every expiry is drawn when there are at most eight: the selection then
/// has one entry per expiry and holds each index `0..n`. With more than eight
/// expiries exactly eight are drawn, the nearest expiry first.
pub proof fn lemma_plotted_slices_count(n: nat)
    ensures
        n <= 8 ==> plotted_slices(n).len() == n && forall|k: int|
            0 <= k < n ==> #[trigger] plotted_slices(n).contains(k),
        n > 8 ==> plotted_slices(n).len() == 8 && plotted_slices(n)[0] == 0,
{
    if n <= 8 {
        assert forall|k: int| 0 <= k < n implies #[trigger] plotted_slices(n).contains(k) by {
            assert(plotted_slices(n)[k] == k);
        }
    } else {
        assert((0 * n) / 8 == 0) by (nonlinear_arith);
    }
}

} // verus!
