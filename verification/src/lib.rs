//! Verified core of the eSSVI toolkit: the discrete rules that sit around
//! the floating-point SSVI calibration — error kinds, option-type codes,
//! CSV record handling for market data files, slice selection and the
//! deterministic scatter used by the synthetic market generator.

pub mod calibration;
pub mod csv;
pub mod grouping;
pub mod selection;
pub mod synthetic;
pub mod pricing;
pub mod float_bits;
pub mod surface;
