use vstd::prelude::*;

verus! {

/// The operations on audio samples that the monitor reduction uses.
///
/// The reduction states its results in terms of what these operations
/// return (`call_ensures` of each method), so whatever an implementation
/// guarantees about its arithmetic carries over to the reduced waveform.
pub trait MonitorSample: Copy + Sized {
    /// The additive identity (`0.0` for floating-point samples).
    fn zero() -> Self;

    /// The multiplicative identity (`1.0` for floating-point samples).
    fn one() -> Self;

    /// The "not a number" value.
    fn nan() -> Self;

    /// A channel count as a sample value.
    fn from_count(count: usize) -> Self;

    /// `self + other`.
    fn plus(self, other: Self) -> Self;

    /// `self * other`.
    fn times(self, other: Self) -> Self;

    /// `self / other`.
    fn divide(self, other: Self) -> Self;

    /// The magnitude of `self`.
    fn abs(self) -> Self;

    /// The larger of two samples.
    fn maximum(self, other: Self) -> Self;

    /// The smaller of two samples.
    fn minimum(self, other: Self) -> Self;

    /// The square root of `self`.
    fn sqrt(self) -> Self;

    /// Whether `self` is not a number.
    fn is_nan(self) -> bool;

    /// Whether `self` is neither infinite nor NaN.
    fn is_finite(self) -> bool;

    /// Whether `self` equals zero.
    fn is_zero(self) -> bool;
}

} // verus!
