//! Errors of the SSVI slice calibration.

use vstd::prelude::*;

verus! {

/// Error type for calibration failures.
///
/// Provides distinct variants so callers can distinguish failure modes
/// and respond appropriately (e.g., retry with a different initial guess,
/// widen bounds, or report specific diagnostics).
#[derive(Debug, Clone, Copy, PartialEq, Eq, Structural)]
pub enum CalibError {
    /// Newton iteration for θ produced a non-positive value.
    NonPositiveTheta,
    /// Newton iteration for θ encountered a near-zero derivative (∂w/∂θ ≈ 0).
    ZeroDerivative,
    /// Newton iteration for θ did not converge within the iteration limit.
    ThetaDivergence,
    /// The Nelder-Mead optimizer did not converge within its iteration budget.
    NonConvergence,
}

/// The human-readable description of each calibration error.
pub open spec fn calib_error_text(e: CalibError) -> Seq<char> {
    match e {
        CalibError::NonPositiveTheta => "theta went non-positive during Newton iteration"@,
        CalibError::ZeroDerivative => "zero derivative encountered during theta solve"@,
        CalibError::ThetaDivergence => "theta solve did not converge"@,
        CalibError::NonConvergence => "calibration optimizer did not converge"@,
    }
}

impl CalibError {
    /// The message shown to users for this error (what `Display` prints).
    pub fn message(&self) -> (s: &'static str)
        ensures
            s@ == calib_error_text(*self),
    {
        match self {
            CalibError::NonPositiveTheta => "theta went non-positive during Newton iteration",
            CalibError::ZeroDerivative => "zero derivative encountered during theta solve",
            CalibError::ThetaDivergence => "theta solve did not converge",
            CalibError::NonConvergence => "calibration optimizer did not converge",
        }
    }
}

} // verus!
