//! The `interval` subcommand: the fenceposts of a range.

use vstd::prelude::*;
use crate::binary64::{from_i64, spec_from_i64};
use crate::interval::{Interval, IntervalError};
use crate::sequence::Breakpoint;

verus! {

/// Finds the `count` number of intervals in a range from `low` to `high`.
#[derive(Debug)]
pub struct SubComInterval {
    /// Number of intervals, minimum of 2
    pub count: u64,
    /// Start point of section from which to find intervals
    pub low: i64,
    /// End point of section from which to find intervals
    pub high: i64,
}

impl SubComInterval {
    /// The range that the arguments describe, or why they describe none.
    pub open spec fn spec_interval(&self) -> Result<Interval, IntervalError> {
        Interval::spec_new(spec_from_i64(self.low), spec_from_i64(self.high), self.count)
    }

    /// The fenceposts to be written: those of the range without its floor,
    /// ascending. Fails as [`Interval::new`] does.
    pub fn run(&self) -> (r: Result<Vec<Breakpoint>, IntervalError>)
        ensures
            match self.spec_interval() {
                Err(e) => r == Err::<Vec<Breakpoint>, IntervalError>(e),
                Ok(interval) => r matches Ok(fenceposts) && fenceposts@
                    == interval.fenceposts().skip(1) && fenceposts@.len() == self.count,
            },
    {
        let low: u64 = from_i64(self.low);
        let high: u64 = from_i64(self.high);
        match Interval::new(low, high, self.count) {
            Err(e) => Err(e),
            Ok(interval) => Ok(interval.intervals().collect()),
        }
    }
}

} // verus!
