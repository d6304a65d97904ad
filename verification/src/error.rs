//! The one way in which a call can fail.
use vstd::prelude::*;

verus! {

/// An argument that the called function does not accept: arrays of a light
/// curve that differ in length or hold fewer than two points, a magnitude
/// series without variance, a frequency grid without positive step or extent,
/// a trial frequency of zero, a number of peaks that is zero or more than the
/// local maxima there are.
#[derive(Debug, Clone, Copy, PartialEq, Eq)]
pub struct InvalidInput;

} // verus!
