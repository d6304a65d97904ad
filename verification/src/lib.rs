//! Periodograms of irregularly sampled light curves: what a frequency sweep
//! decides on the numbers it is given.
//!
//! A periodogram scores trial frequencies by how smooth a light curve looks
//! once it is folded by the trial period. The scores are arithmetic on
//! doubles; around that arithmetic stand decisions that this library makes on
//! the bit patterns of the doubles, each with a proved contract:
//!
//! - [`binary64`]: what a pattern is (a NaN, a zero), how two numbers compare,
//!   where a number stands in the total order, which integer it truncates to;
//! - [`sorting`]: the permutation that sorts a sequence, and the indices of
//!   its local maxima;
//! - [`lightcurve`]: the light curve and what makes it well formed;
//! - [`periodograms`]: whether a frequency grid, a light curve and a trial
//!   frequency are admitted, how many trial frequencies a grid holds, the
//!   magnitudes in the order of their phases, and the sweep over the trials;
//! - [`error`]: the one error.
pub mod binary64;
pub mod error;
pub mod lightcurve;
pub mod periodograms;
pub mod sorting;
