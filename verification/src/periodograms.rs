//! What a periodogram sweep decides: whether the frequency grid and the light
//! curve admit a sweep, how many trial frequencies the grid holds, in which
//! order the magnitudes stand once the light curve is folded, and what the
//! sweep returns of the values that were computed for it.
//!
//! The arithmetic on the doubles is the caller's: the grid is judged by its
//! bounds and by the quotient that the caller formed of them, the statistic by
//! the variance that the caller computed, the folded light curve by the phases.
use crate::binary64::{greater, gt, is_zero, saturated_i32, to_i32, zero};
use crate::error::InvalidInput;
use crate::lightcurve::LightCurve;
use crate::sorting::{argsort, is_argsort, lemma_argsort_unique};
use vstd::prelude::*;

verus! {

/// The periodogram statistics that a sweep can evaluate.
#[derive(Debug, Clone, Copy, PartialEq, Eq)]
pub enum Periodogram {
    /// The string length of Lafler and Kinman: the sum of the squared
    /// differences between the magnitudes of neighbours in phase, over twice
    /// the number of points times the variance of the magnitudes.
    StringLength,
}

/// Accepts a frequency grid whose step is positive and whose upper bound lies
/// above its lower bound. A NaN among the three is refused.
pub fn validate_grid(fmin: u64, fmax: u64, fstep: u64) -> (verdict: Result<(), InvalidInput>)
    ensures
        verdict is Ok <==> greater(fstep, 0) && greater(fmax, fmin),
{
    if gt(fstep, 0) && gt(fmax, fmin) {
        Ok(())
    } else {
        Err(InvalidInput)
    }
}

/// The number of trial frequencies of a grid whose extent, divided by its
/// step, is `quotient`: the quotient rounded toward zero, none if that is
/// negative or the quotient is a NaN, and never more than `i32::MAX`.
pub open spec fn steps(quotient: u64) -> nat {
    if saturated_i32(quotient) < 0 {
        0
    } else {
        saturated_i32(quotient) as nat
    }
}

/// Counts the trial frequencies of a grid from the quotient of its extent by
/// its step. Trial `k` is the frequency `fmin + k * fstep`, for `k` below the
/// count: the upper bound itself is never a trial.
pub fn step_count(quotient: u64) -> (n: usize)
    ensures
        n == steps(quotient),
{
    let whole: i32 = to_i32(quotient);
    if whole < 0 {
        0
    } else {
        whole as usize
    }
}

/// Accepts a light curve for the string-length statistic: it must be well
/// formed, and the variance of its magnitudes, which the caller computed, must
/// not be zero, since the statistic divides by it.
pub fn validate_statistic(lc: &LightCurve, variance: u64) -> (verdict: Result<(), InvalidInput>)
    ensures
        verdict is Ok <==> lc.well_formed() && !zero(variance),
{
    if lc.is_well_formed() && !is_zero(variance) {
        Ok(())
    } else {
        Err(InvalidInput)
    }
}

/// Accepts a trial frequency unless it is zero: its reciprocal is the period
/// by which the light curve is folded.
pub fn validate_frequency(trial_frequency: u64) -> (verdict: Result<(), InvalidInput>)
    ensures
        verdict is Ok <==> !zero(trial_frequency),
{
    if is_zero(trial_frequency) {
        Err(InvalidInput)
    } else {
        Ok(())
    }
}

/// The values at the places that `order` lists, in that order.
pub open spec fn gather(values: Seq<u64>, order: Seq<usize>) -> Seq<u64> {
    Seq::new(order.len(), |i: int| values[order[i] as int])
}

/// Puts the magnitudes of a folded light curve in the order of their phases:
/// place `i` of the result holds the magnitude of the point whose phase is the
/// `i`-th in ascending order. Fails if there is not one phase for each
/// magnitude.
pub fn phase_ordered(phase: &[u64], magnitude: &[u64]) -> (folded: Result<Vec<u64>, InvalidInput>)
    ensures
        folded is Ok <==> phase@.len() == magnitude@.len(),
        folded matches Ok(m) ==> exists|order: Seq<usize>|
            is_argsort(phase@, order) && m@ == gather(magnitude@, order),
        folded matches Ok(m) ==> forall|order: Seq<usize>|
            is_argsort(phase@, order) ==> m@ == gather(magnitude@, order),
{
    if phase.len() != magnitude.len() {
        return Err(InvalidInput);
    }
    let order: Vec<usize> = argsort(phase);
    let n: usize = order.len();
    let mut m: Vec<u64> = Vec::with_capacity(n);
    let mut i: usize = 0;
    while i < n
        invariant
            i <= n,
            n == order@.len(),
            n == magnitude@.len(),
            is_argsort(phase@, order@),
            phase@.len() == magnitude@.len(),
            m@ =~= gather(magnitude@, order@.take(i as int)),
        decreases n - i,
    {
        m.push(magnitude[order[i]]);
        i = i + 1;
    }
    proof {
        assert(order@.take(n as int) =~= order@);
        assert forall|other: Seq<usize>| is_argsort(phase@, other) implies m@ == gather(
            magnitude@,
            other,
        ) by {
            lemma_argsort_unique(phase@, order@, other);
        }
    }
    Ok(m)
}

/// Runs a sweep: evaluates trial `k` for each `k` below `nsteps`, from zero
/// up, and returns the values in that order. The sweep is all or nothing: as
/// soon as one evaluation fails, no value is returned.
pub fn sweep<F: Fn(usize) -> Result<u64, InvalidInput>>(nsteps: usize, evaluate: F) -> (swept: Result<
    Vec<u64>,
    InvalidInput,
>)
    requires
        forall|k: usize| k < nsteps ==> call_requires(evaluate, (k,)),
    ensures
        swept matches Ok(periodogram) ==> periodogram@.len() == nsteps && forall|k: int|
            0 <= k < nsteps ==> call_ensures(evaluate, (k as usize,), Ok(#[trigger] periodogram@[k])),
        swept matches Err(e) ==> exists|k: usize|
            k < nsteps && call_ensures(evaluate, (k,), Err(e)),
{
    let mut periodogram: Vec<u64> = Vec::new();
    let mut k: usize = 0;
    while k < nsteps
        invariant
            k <= nsteps,
            periodogram@.len() == k,
            forall|j: usize| j < nsteps ==> call_requires(evaluate, (j,)),
            forall|j: int|
                0 <= j < k ==> call_ensures(evaluate, (j as usize,), Ok(#[trigger] periodogram@[j])),
        decreases nsteps - k,
    {
        match evaluate(k) {
            Ok(value) => {
                periodogram.push(value);
            },
            Err(e) => {
                return Err(e);
            },
        }
        k = k + 1;
    }
    Ok(periodogram)
}

/// A sweep is admitted: the grid has a positive step and an upper bound above
/// its lower bound, and the light curve is one that the statistic is defined
/// on. For the string length that is a well-formed light curve whose
/// magnitudes have a variance other than zero.
pub open spec fn admitted(
    lc: &LightCurve,
    method: Periodogram,
    fmin: u64,
    fmax: u64,
    fstep: u64,
    variance: u64,
) -> bool {
    &&& greater(fstep, 0)
    &&& greater(fmax, fmin)
    &&& match method {
        Periodogram::StringLength => lc.well_formed() && !zero(variance),
    }
}

/// Computes a periodogram of a light curve over the trial frequencies
/// `fmin + k * fstep`, for `k` from zero up to the number of steps that the
/// grid holds: value `k` of the result is what `evaluate` gives for trial `k`.
///
/// The caller does the arithmetic: `quotient` is the extent of the grid,
/// `fmax - fmin`, divided by `fstep`; `variance` is the variance of the
/// magnitudes; `evaluate` computes the statistic at one trial. How many values
/// the periodogram has depends on the quotient alone, whatever the light curve.
///
/// Fails, before any trial is evaluated, if the sweep is not admitted, and
/// else as soon as the evaluation of a trial fails.
pub fn single_band_periodogram<F: Fn(usize) -> Result<u64, InvalidInput>>(
    lc: &LightCurve,
    method: Periodogram,
    fmin: u64,
    fmax: u64,
    fstep: u64,
    quotient: u64,
    variance: u64,
    evaluate: F,
) -> (swept: Result<Vec<u64>, InvalidInput>)
    requires
        forall|k: usize| k < steps(quotient) ==> call_requires(evaluate, (k,)),
    ensures
        swept matches Ok(periodogram) ==> admitted(lc, method, fmin, fmax, fstep, variance)
            && periodogram@.len() == steps(quotient) && forall|k: int|
            0 <= k < steps(quotient) ==> call_ensures(
                evaluate,
                (k as usize,),
                Ok(#[trigger] periodogram@[k]),
            ),
        swept matches Err(e) ==> !admitted(lc, method, fmin, fmax, fstep, variance) || exists|
            k: usize,
        |
            k < steps(quotient) && call_ensures(evaluate, (k,), Err(e)),
{
    match validate_grid(fmin, fmax, fstep) {
        Ok(()) => {},
        Err(e) => {
            return Err(e);
        },
    }
    match method {
        Periodogram::StringLength => {
            match validate_statistic(lc, variance) {
                Ok(()) => {},
                Err(e) => {
                    return Err(e);
                },
            }
        },
    }
    sweep(step_count(quotient), evaluate)
}

} // verus!
