//! A validated range and its division into buckets.

use vstd::prelude::*;
use vstd::string::StringExecFns;
use crate::binary64::{ge, lt, spec_ge, spec_lt, spec_truncate, truncate, ONE, ZERO};
use crate::sequence::{Breakpoint, IntervalIter};
use crate::text::{decimal_digits, push_decimal};

verus! {

/// Why a range was refused.
#[derive(Debug, Clone, Copy, PartialEq, Eq, Structural)]
pub enum IntervalError {
    /// Fewer than two intervals were asked for; carries the count given.
    LowCount(u64),
    /// The low end is not below the high end.
    InvalidRange,
}

impl IntervalError {
    /// What [`IntervalError::message`] says.
    pub open spec fn spec_message(&self) -> Seq<char> {
        match self {
            IntervalError::LowCount(bad) => "Invalid count. Ensure `number` value is >= 2 (was: "@
                + decimal_digits(*bad as nat) + ")"@,
            IntervalError::InvalidRange => "Invalid range. Ensure `start` value is less than `end`"@,
        }
    }

    /// The error in words, for the user who gave the values.
    pub fn message(&self) -> (r: String)
        ensures
            r@ == self.spec_message(),
    {
        match self {
            IntervalError::LowCount(bad) => {
                let mut text = String::from_str(
                    "Invalid count. Ensure `number` value is >= 2 (was: ",
                );
                push_decimal(&mut text, *bad);
                text.append(")");
                text
            },
            IntervalError::InvalidRange => String::from_str(
                "Invalid range. Ensure `start` value is less than `end`",
            ),
        }
    }
}

/// The range `low..=high`, to be split into `count` intervals.
///
/// `low` and `high` are binary64 bit patterns. A value of this type only
/// comes out of [`Interval::new`], so it always satisfies [`Interval::wf`],
/// and nothing changes it afterwards.
#[derive(Debug, Clone, Copy)]
pub struct Interval {
    low: u64,
    high: u64,
    count: u64,
}

impl Interval {
    /// The low end, as a bit pattern.
    pub closed spec fn spec_low(&self) -> u64 {
        self.low
    }

    /// The high end, as a bit pattern.
    pub closed spec fn spec_high(&self) -> u64 {
        self.high
    }

    /// The number of intervals.
    pub closed spec fn spec_count(&self) -> u64 {
        self.count
    }

    /// What construction guarantees: `low >= high` does not hold, and there
    /// are at least two intervals. For ends that are numbers this is
    /// `low < high`.
    #[verifier::type_invariant]
    pub open spec fn wf(&self) -> bool {
        &&& !spec_ge(self.spec_low(), self.spec_high())
        &&& self.spec_count() >= 2
    }

    /// What [`Interval::new`] returns.
    pub closed spec fn spec_new(low: u64, high: u64, count: u64) -> Result<Interval, IntervalError> {
        if spec_ge(low, high) {
            Err(IntervalError::InvalidRange)
        } else if count < 2 {
            Err(IntervalError::LowCount(count))
        } else {
            Ok(Interval { low, high, count })
        }
    }

    /// Construction fails with `InvalidRange` for every `low >= high`, with
    /// `LowCount` for every count below two otherwise, and succeeds on all
    /// other values, with a range that holds exactly what was given.
    pub proof fn lemma_new(low: u64, high: u64, count: u64)
        ensures
            spec_ge(low, high) ==> Self::spec_new(low, high, count) == Err::<Interval, IntervalError>(
                IntervalError::InvalidRange,
            ),
            !spec_ge(low, high) && count < 2 ==> Self::spec_new(low, high, count) == Err::<
                Interval,
                IntervalError,
            >(IntervalError::LowCount(count)),
            !spec_ge(low, high) && count >= 2 ==> {
                &&& Self::spec_new(low, high, count) is Ok
                &&& Self::spec_new(low, high, count)->Ok_0.wf()
                &&& Self::spec_new(low, high, count)->Ok_0.spec_low() == low
                &&& Self::spec_new(low, high, count)->Ok_0.spec_high() == high
                &&& Self::spec_new(low, high, count)->Ok_0.spec_count() == count
            },
    {
    }

    /// Creates the range `low..=high`, split into `count` intervals.
    ///
    /// The range is tested first: `low >= high` is refused as
    /// [`IntervalError::InvalidRange`] whatever the count. Otherwise a count
    /// below two is refused as [`IntervalError::LowCount`].
    pub fn new(low: u64, high: u64, count: u64) -> (r: Result<Interval, IntervalError>)
        ensures
            r == Self::spec_new(low, high, count),
            spec_ge(low, high) ==> r == Err::<Interval, IntervalError>(IntervalError::InvalidRange),
            !spec_ge(low, high) && count < 2 ==> r == Err::<Interval, IntervalError>(
                IntervalError::LowCount(count),
            ),
            !spec_ge(low, high) && count >= 2 ==> r is Ok && r->Ok_0.wf() && r->Ok_0.spec_low()
                == low && r->Ok_0.spec_high() == high && r->Ok_0.spec_count() == count,
    {
        if ge(low, high) {
            Err(IntervalError::InvalidRange)
        } else if count < 2 {
            Err(IntervalError::LowCount(count))
        } else {
            Ok(Interval { low, high, count })
        }
    }

    /// Returns the `low` value.
    #[verifier::when_used_as_spec(spec_low)]
    pub fn low(&self) -> (r: u64)
        ensures
            r == self.spec_low(),
    {
        self.low
    }

    /// Returns the `high` value.
    #[verifier::when_used_as_spec(spec_high)]
    pub fn high(&self) -> (r: u64)
        ensures
            r == self.spec_high(),
    {
        self.high
    }

    /// Returns the `count` value.
    #[verifier::when_used_as_spec(spec_count)]
    pub fn count(&self) -> (r: u64)
        ensures
            r == self.spec_count(),
    {
        self.count
    }

    /// The bucket of `number`, given its `position` on the logarithmic scale.
    ///
    /// A number below `low`, or at or above `high`, has no bucket. Any other
    /// has the bucket that its position truncates to.
    pub open spec fn spec_bucket(&self, number: u64, position: u64) -> Option<usize> {
        if spec_lt(number, self.spec_low()) || spec_ge(number, self.spec_high()) {
            None
        } else {
            Some(spec_truncate(position))
        }
    }

    /// Finds the bucket a given number falls in.
    ///
    /// A bucket is the stretch from one fencepost up to, and not including,
    /// the next; bucket 0 starts at `low`. `position` is the caller's
    /// evaluation, in binary64 arithmetic, of
    /// `ln(number - low + 1) / ln(high - low + 1) * count`;
    /// it is truncated as it stands, so a position that rounding has pushed
    /// across a whole number lands in the neighbouring bucket.
    pub fn bucket(&self, number: u64, position: u64) -> (r: Option<usize>)
        ensures
            r == self.spec_bucket(number, position),
            spec_lt(number, self.spec_low()) || spec_ge(number, self.spec_high()) ==> r is None,
            !spec_lt(number, self.spec_low()) && !spec_ge(number, self.spec_high()) ==> r == Some(
                spec_truncate(position),
            ),
    {
        if lt(number, self.low) || ge(number, self.high) {
            return None;
        }
        Some(truncate(position))
    }

    /// The floor of a range lies in its first bucket: its position on the
    /// scale is zero, and zero truncates to bucket 0.
    pub proof fn lemma_floor_in_first_bucket(self)
        requires
            self.wf(),
        ensures
            self.spec_bucket(self.spec_low(), ZERO) == Some(0usize),
    {
        crate::binary64::whole::lemma_truncate_zero();
    }

    /// Classification is a function of its arguments: asking twice gives the
    /// same bucket, and a number outside `low..high` never has one, whatever
    /// position comes with it.
    pub proof fn lemma_outside_is_unassigned(self, number: u64, position: u64)
        requires
            spec_lt(number, self.spec_low()) || spec_ge(number, self.spec_high()),
        ensures
            self.spec_bucket(number, position) is None,
    {
    }

    /// Returns the fenceposts of this range, from `low` up to and including
    /// the last one, to be pulled from either end.
    pub fn iter(&self) -> (r: IntervalIter)
        ensures
            r.wf(),
            r.low() == self.spec_low(),
            r.high() == self.spec_high(),
            r.count() == self.spec_count(),
            r.front() == 0,
            r.back() == 0,
            r@ == self.fenceposts(),
            r@.len() == self.spec_count() + 1,
    {
        self.new_iter()
    }

    /// Returns the fenceposts of this range without the floor: exactly
    /// `count` of them.
    pub fn intervals(&self) -> (r: IntervalIter)
        ensures
            r.wf(),
            r.low() == self.spec_low(),
            r.high() == self.spec_high(),
            r.count() == self.spec_count(),
            r.front() == 1,
            r.back() == 0,
            r@ == self.fenceposts().skip(1),
            r@.len() == self.spec_count(),
    {
        let mut iter = self.new_iter();
        // Skip the floor value
        iter.next();
        iter
    }

    /// All fenceposts of the range in ascending order: the floor, then one
    /// per interval.
    pub open spec fn fenceposts(&self) -> Seq<Breakpoint> {
        crate::sequence::fenceposts(self.spec_low(), self.spec_count())
    }

    fn new_iter(&self) -> (r: IntervalIter)
        ensures
            r.wf(),
            r.low() == self.spec_low(),
            r.high() == self.spec_high(),
            r.count() == self.spec_count(),
            r.front() == 0,
            r.back() == 0,
            r@ == self.fenceposts(),
            r@.len() == self.spec_count() + 1,
    {
        IntervalIter::new(self.low, self.high, self.count)
    }
}

/// The two ends in ascending order: swapped if `start > end`, else as they
/// were given.
pub open spec fn ordered_ends(start: u64, end: u64) -> (u64, u64) {
    if spec_lt(end, start) {
        (end, start)
    } else {
        (start, end)
    }
}

/// The fenceposts of the coarsest split, as bit patterns, and whether the
/// ends had to be swapped to put them in order.
///
/// With two `gaps` the fenceposts are the two ends themselves, in ascending
/// order. With any other number the answer is the single fencepost at one,
/// where the logarithmic scale begins; the fenceposts of a finer split are
/// those of an [`Interval`].
pub fn find_fenceposts(start: u64, end: u64, gaps: usize) -> (r: (Vec<u64>, bool))
    ensures
        r.1 == spec_lt(end, start),
        r.0@ == (if gaps == 2 {
            seq![ordered_ends(start, end).0, ordered_ends(start, end).1]
        } else {
            seq![ONE]
        }),
{
    // swaps start and end values if they are incorrectly sized
    let swapped: bool = lt(end, start);
    let (start, end): (u64, u64) = if swapped {
        (end, start)
    } else {
        (start, end)
    };
    let mut posts: Vec<u64> = Vec::new();
    if gaps == 2 {
        posts.push(start);
        posts.push(end);
    } else {
        posts.push(ONE);
    }
    assert(posts@ =~= (if gaps == 2 {
        seq![start, end]
    } else {
        seq![ONE]
    }));
    (posts, swapped)
}

} // verus!
