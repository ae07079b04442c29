//! The order in which the slices of a volatility surface are calibrated:
//! each slice is penalised against the previous slice that was calibrated.

use vstd::prelude::*;

verus! {

/// `j` is the last slice before `i` whose fit succeeded.
pub open spec fn is_previous_fitted<T>(fits: Seq<Option<T>>, i: int, j: int) -> bool {
    &&& 0 <= j < i
    &&& j < fits.len()
    &&& fits[j] is Some
    &&& forall|k: int| j < k < i && k < fits.len() ==> #[trigger] fits[k] is None
}

/// No slice before `i` was fitted.
pub open spec fn none_fitted_before<T>(fits: Seq<Option<T>>, i: int) -> bool {
    forall|k: int| 0 <= k < i && k < fits.len() ==> #[trigger] fits[k] is None
}

/// The index of the last slice before slice `i` whose calibration succeeded
/// (`fits[j]` is `Some`), the slice whose fit the calendar penalty of slice
/// `i` compares against; `None` when no earlier slice was fitted, in which
/// case slice `i` is calibrated without the penalty.
pub fn previous_fitted<T>(fits: &Vec<Option<T>>, i: usize) -> (r: Option<usize>)
    ensures
        match r {
            Some(j) => is_previous_fitted(fits@, i as int, j as int),
            None => none_fitted_before(fits@, i as int),
        },
        0 < i <= fits.len() && fits@[i - 1] is Some ==> r == Some((i - 1) as usize),
{
    let mut k: usize = if i < fits.len() {
        i
    } else {
        fits.len()
    };
    while k > 0
        invariant
            k <= i,
            k <= fits.len(),
            forall|m: int| k <= m < i && m < fits.len() ==> #[trigger] fits@[m] is None,
        decreases k,
    {
        if fits[k - 1].is_some() {
            return Some(k - 1);
        }
        k = k - 1;
    }
    None
}

} // verus!
