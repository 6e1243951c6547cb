//! The `range` subcommand: of the numbers given, those that the range
//! selects.

use vstd::prelude::*;
use crate::binary64::{from_i64, round_to_i64, spec_from_i64, spec_round_to_i64};
use crate::bybucket::{selection, ByBucket, Extremum, Sample};
use crate::interval::{Interval, IntervalError};

verus! {

/// Selects from `range`, under the range from `start` to `end` split into
/// `count` intervals: the largest of each bucket, the smallest of each
/// bucket, or whatever lies within the range.
#[derive(Debug)]
pub struct Range {
    pub start: i64,
    pub end: i64,
    pub count: u64,
    pub max_by_bucket: bool,
    pub min_by_bucket: bool,
    pub range: Vec<i64>,
}

/// Each value with the position that stands at its place. What has no
/// partner on the other side is left out.
pub open spec fn pair_up(values: Seq<i64>, positions: Seq<u64>) -> Seq<Sample> {
    Seq::new(
        if values.len() <= positions.len() {
            values.len()
        } else {
            positions.len()
        },
        |i: int| (Sample { value: values[i], position: positions[i] }),
    )
}

/// Each value with the position that stands at its place.
pub fn samples(values: &[i64], positions: &[u64]) -> (r: Vec<Sample>)
    ensures
        r@ == pair_up(values@, positions@),
{
    let n: usize = if values.len() <= positions.len() {
        values.len()
    } else {
        positions.len()
    };
    let mut out: Vec<Sample> = Vec::new();
    let mut i: usize = 0;
    while i < n
        invariant
            i <= n,
            n <= values@.len(),
            n <= positions@.len(),
            out@.len() == i,
            forall|k: int|
                0 <= k < i ==> out@[k] == (Sample { value: values@[k], position: positions@[k] }),
        decreases n - i,
    {
        out.push(Sample { value: values[i], position: positions[i] });
        i += 1;
    }
    assert(out@ =~= pair_up(values@, positions@));
    out
}

/// The values from `low` to `high`, both included, in their order.
pub open spec fn spec_within(values: Seq<i64>, low: i64, high: i64) -> Seq<i64> {
    values.filter(|item: i64| low <= item && high >= item)
}

/// The values from `low` to `high`, both included, in their order.
pub fn within(values: &[i64], low: i64, high: i64) -> (r: Vec<i64>)
    ensures
        r@ == spec_within(values@, low, high),
{
    let mut out: Vec<i64> = Vec::new();
    let mut i: usize = 0;
    proof {
        reveal(Seq::filter);
    }
    while i < values.len()
        invariant
            i <= values@.len(),
            out@ == spec_within(values@.take(i as int), low, high),
        decreases values@.len() - i,
    {
        proof {
            reveal(Seq::filter);
            assert(values@.take(i + 1).drop_last() =~= values@.take(i as int));
        }
        let item: i64 = values[i];
        if low <= item && high >= item {
            out.push(item);
        }
        i += 1;
    }
    assert(values@.take(i as int) =~= values@);
    out
}

impl Range {
    /// The range that the arguments describe, or why they describe none.
    pub open spec fn spec_interval(&self) -> Result<Interval, IntervalError> {
        Interval::spec_new(spec_from_i64(self.start), spec_from_i64(self.end), self.count)
    }

    /// What [`Range::run`] selects under `interval`.
    ///
    /// `max_by_bucket` goes before `min_by_bucket`. With neither, the bounds
    /// are the two ends of the range, rounded to integers.
    pub open spec fn spec_run(&self, interval: Interval, positions: Seq<u64>) -> Seq<i64> {
        if self.max_by_bucket {
            selection(interval, pair_up(self.range@, positions), Extremum::Max)
        } else if self.min_by_bucket {
            selection(interval, pair_up(self.range@, positions), Extremum::Min)
        } else {
            spec_within(
                self.range@,
                spec_round_to_i64(interval.spec_low()),
                spec_round_to_i64(interval.spec_high()),
            )
        }
    }

    /// The numbers to be written. `positions` are the places on the
    /// logarithmic scale of the numbers in `range`, in their order. Fails as
    /// [`Interval::new`] does.
    pub fn run(&self, positions: &[u64]) -> (r: Result<Vec<i64>, IntervalError>)
        ensures
            match self.spec_interval() {
                Err(e) => r == Err::<Vec<i64>, IntervalError>(e),
                Ok(interval) => r matches Ok(numbers) && numbers@ == self.spec_run(
                    interval,
                    positions@,
                ),
            },
    {
        let interval: Interval = match Interval::new(
            from_i64(self.start),
            from_i64(self.end),
            self.count,
        ) {
            Err(e) => {
                return Err(e);
            },
            Ok(interval) => interval,
        };
        let output: Vec<i64> = if self.max_by_bucket {
            let input: Vec<Sample> = samples(self.range.as_slice(), positions);
            ByBucket::new(interval).select_max(input.as_slice())
        } else if self.min_by_bucket {
            let input: Vec<Sample> = samples(self.range.as_slice(), positions);
            ByBucket::new(interval).select_min(input.as_slice())
        } else {
            let low: i64 = round_to_i64(interval.low());
            let high: i64 = round_to_i64(interval.high());
            within(self.range.as_slice(), low, high)
        };
        Ok(output)
    }
}

} // verus!
