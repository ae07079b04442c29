use essvi::calibration::CalibError;

#[test]
fn calib_error_messages() {
    assert_eq!(
        CalibError::NonPositiveTheta.message(),
        "theta went non-positive during Newton iteration"
    );
    assert_eq!(
        CalibError::ZeroDerivative.message(),
        "zero derivative encountered during theta solve"
    );
    assert_eq!(CalibError::ThetaDivergence.message(), "theta solve did not converge");
    assert_eq!(
        CalibError::NonConvergence.message(),
        "calibration optimizer did not converge"
    );
}
