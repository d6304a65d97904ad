//! The light curve: what was observed of one source.
use crate::error::InvalidInput;
use vstd::prelude::*;

verus! {

/// Observations of one source, as three arrays of doubles given by their bit
/// patterns: when each was made, how bright the source was, and how uncertain
/// that measurement is. Point `i` is what the three arrays hold at index `i`.
#[derive(Debug)]
pub struct LightCurve {
    /// The times of the observations.
    pub mjd: Vec<u64>,
    /// The magnitudes.
    pub mag: Vec<u64>,
    /// The uncertainties of the magnitudes.
    pub err: Vec<u64>,
}

impl LightCurve {
    /// The three arrays hold one entry for each point, and there are at least
    /// two points: fewer have no variance and no neighbouring pair.
    pub open spec fn well_formed(&self) -> bool {
        &&& self.mjd@.len() == self.mag@.len()
        &&& self.err@.len() == self.mag@.len()
        &&& self.mag@.len() >= 2
    }

    /// Makes a light curve of three arrays. Fails if they differ in length or
    /// hold fewer than two points.
    pub fn new(mjd: Vec<u64>, mag: Vec<u64>, err: Vec<u64>) -> (made: Result<LightCurve, InvalidInput>)
        ensures
            made is Ok <==> mjd@.len() == mag@.len() && err@.len() == mag@.len() && mag@.len() >= 2,
            made matches Ok(lc) ==> lc.mjd == mjd && lc.mag == mag && lc.err == err && lc.well_formed(),
    {
        if mjd.len() != mag.len() || err.len() != mag.len() || mag.len() < 2 {
            return Err(InvalidInput);
        }
        Ok(LightCurve { mjd, mag, err })
    }

    /// Tells whether the light curve is well formed. The fields are public, so
    /// a value may have been put together without `new`.
    pub fn is_well_formed(&self) -> (r: bool)
        ensures
            r == self.well_formed(),
    {
        self.mjd.len() == self.mag.len() && self.err.len() == self.mag.len() && self.mag.len() >= 2
    }

    /// The number of points, counted by the magnitudes.
    pub fn len(&self) -> (n: usize)
        ensures
            n == self.mag@.len(),
    {
        self.mag.len()
    }
}

} // verus!
