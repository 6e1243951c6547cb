//! The `range` subcommand in its listing form: the numbers that lie strictly
//! between two fenceposts, the fenceposts being picked by an index range such
//! as `2..5` or `2..=4` that may lead the numbers.

use vstd::prelude::*;
use vstd::string::StringExecFns;
use crate::binary64::{from_i64, round_to_i64, spec_from_i64, spec_round_to_i64};
use crate::interval::{Interval, IntervalError};
use crate::sequence::{Breakpoint, IntervalIter};
use crate::text::{chars_of, parse_i64_between, spec_parse_i64};

verus! {

/// One argument of the listing: a number, or a range of indices.
#[derive(Debug, Clone, Copy, PartialEq, Eq, Structural)]
pub enum NumberRange {
    Number(i64),
    /// Indices from `start` up to, and not including, `end`.
    Range { start: i64, end: i64 },
}

/// Why an argument was refused.
#[derive(Debug)]
pub enum NumberRangeError {
    /// The argument is neither a range nor an integer; carries the argument.
    InvalidNumber(String),
    /// A range stands where only numbers may.
    UnexpectedRange,
}

impl NumberRangeError {
    /// What [`NumberRangeError::message`] says.
    pub open spec fn spec_message(&self) -> Seq<char> {
        match self {
            NumberRangeError::InvalidNumber(invalid) => "Unable to parse as an integer: "@
                + invalid@,
            NumberRangeError::UnexpectedRange => "Found a range where a number was expected"@,
        }
    }

    /// The error in words, for the user who gave the argument.
    pub fn message(&self) -> (r: String)
        ensures
            r@ == self.spec_message(),
    {
        match self {
            NumberRangeError::InvalidNumber(invalid) => {
                let mut text = String::from_str("Unable to parse as an integer: ");
                text.append(invalid.as_str());
                text
            },
            NumberRangeError::UnexpectedRange => String::from_str(
                "Found a range where a number was expected",
            ),
        }
    }
}

/// Whether `pattern` stands in `s` at index `at`.
pub open spec fn is_match_at(s: Seq<char>, pattern: Seq<char>, at: int) -> bool {
    0 <= at && at + pattern.len() <= s.len() && s.subrange(at, at + pattern.len()) == pattern
}

/// The first index at or after `from` at which `pattern` stands in `s`.
pub open spec fn first_match(s: Seq<char>, pattern: Seq<char>, from: int) -> Option<int>
    decreases s.len() + 1 - from,
{
    if from < 0 || from + pattern.len() > s.len() {
        None
    } else if is_match_at(s, pattern, from) {
        Some(from)
    } else {
        first_match(s, pattern, from + 1)
    }
}

/// The two pieces of `s` around `pattern`, if `pattern` separates `s` into
/// exactly two: it is found once, reading from the left, and not again after
/// that.
pub open spec fn split_in_two(s: Seq<char>, pattern: Seq<char>) -> Option<(Seq<char>, Seq<char>)> {
    match first_match(s, pattern, 0) {
        None => None,
        Some(at) => if first_match(s, pattern, at + pattern.len()) is None {
            Some((s.take(at), s.skip(at + pattern.len())))
        } else {
            None
        },
    }
}

/// The separator of an index range that includes its end.
pub open spec fn closed_separator() -> Seq<char> {
    seq!['.', '.', '=']
}

/// The separator of an index range that excludes its end.
pub open spec fn open_separator() -> Seq<char> {
    seq!['.', '.']
}

/// The index range that `s` writes, as `(start, end)` with `end` excluded:
/// `a..b` is `(a, b)` and `a..=b` is `(a, b + 1)`, where `a` and `b` are
/// decimal integers. An inclusive end that has no successor is no range.
pub open spec fn spec_parse_range(s: Seq<char>) -> Option<(i64, i64)> {
    let closed = split_in_two(s, closed_separator());
    let pieces = if closed is Some {
        closed
    } else {
        split_in_two(s, open_separator())
    };
    match pieces {
        None => None,
        Some((first, second)) => match (spec_parse_i64(first), spec_parse_i64(second)) {
            (Some(start), Some(end)) => if closed is Some {
                if end < i64::MAX {
                    Some((start, (end + 1) as i64))
                } else {
                    None
                }
            } else {
                Some((start, end))
            },
            _ => None,
        },
    }
}

/// Whether `pattern` stands in `chars` at index `at`.
fn matches_at(chars: &[char], pattern: &[char], at: usize) -> (r: bool)
    ensures
        r == is_match_at(chars@, pattern@, at as int),
{
    if at > chars.len() || pattern.len() > chars.len() - at {
        return false;
    }
    let mut k: usize = 0;
    while k < pattern.len()
        invariant
            k <= pattern@.len(),
            at + pattern@.len() <= chars@.len() <= usize::MAX,
            forall|j: int| 0 <= j < k ==> chars@[at + j] == pattern@[j],
        decreases pattern@.len() - k,
    {
        if chars[at + k] != pattern[k] {
            assert(chars@.subrange(at as int, at + pattern@.len())[k as int] != pattern@[k as int]);
            return false;
        }
        k += 1;
    }
    assert(chars@.subrange(at as int, at + pattern@.len()) =~= pattern@);
    true
}

/// The first index at or after `from` at which `pattern` stands in `chars`.
fn find(chars: &[char], pattern: &[char], from: usize) -> (r: Option<usize>)
    requires
        pattern@.len() > 0,
    ensures
        r matches Some(at) ==> first_match(chars@, pattern@, from as int) == Some(at as int)
            && from <= at && at + pattern@.len() <= chars@.len() <= usize::MAX,
        r is None ==> first_match(chars@, pattern@, from as int) is None,
{
    let total: usize = chars.len();
    let mut at: usize = from;
    while at <= total && pattern.len() <= total - at
        invariant
            from <= at,
            pattern@.len() > 0,
            total == chars@.len(),
            first_match(chars@, pattern@, from as int) == first_match(
                chars@,
                pattern@,
                at as int,
            ),
        decreases chars@.len() + 1 - at,
    {
        if matches_at(chars, pattern, at) {
            return Some(at);
        }
        at += 1;
    }
    None
}

/// The bounds of the two pieces of `chars` around `pattern`, if it separates
/// `chars` into exactly two: where the first piece ends and where the second
/// begins.
fn split_at_only(chars: &[char], pattern: &[char]) -> (r: Option<(usize, usize)>)
    requires
        pattern@.len() > 0,
    ensures
        r matches Some((end, begin)) ==> end <= begin <= chars@.len() && split_in_two(
            chars@,
            pattern@,
        ) == Some((chars@.take(end as int), chars@.skip(begin as int))),
        r is None ==> split_in_two(chars@, pattern@) is None,
{
    match find(chars, pattern, 0) {
        None => None,
        Some(at) => {
            let begin: usize = at + pattern.len();
            match find(chars, pattern, begin) {
                None => Some((at, begin)),
                Some(_) => None,
            }
        },
    }
}

/// Reads an index range: `a..b`, or `a..=b` for one that includes its end.
/// Returns `(start, end)` with `end` excluded.
pub fn parse_range(s: &str) -> (r: Option<(i64, i64)>)
    ensures
        r == spec_parse_range(s@),
{
    let chars: Vec<char> = chars_of(s);
    let closed_pattern: [char; 3] = ['.', '.', '='];
    let open_pattern: [char; 2] = ['.', '.'];
    assert(closed_pattern@ =~= closed_separator());
    assert(open_pattern@ =~= open_separator());
    let closed: Option<(usize, usize)> = split_at_only(chars.as_slice(), closed_pattern.as_slice());
    let inclusive: bool = closed.is_some();
    let pieces: Option<(usize, usize)> = if inclusive {
        closed
    } else {
        split_at_only(chars.as_slice(), open_pattern.as_slice())
    };
    let (end_of_first, begin_of_second) = match pieces {
        None => {
            return None;
        },
        Some(bounds) => bounds,
    };
    assert(chars@.subrange(0, end_of_first as int) =~= chars@.take(end_of_first as int));
    assert(chars@.subrange(begin_of_second as int, chars@.len() as int) =~= chars@.skip(
        begin_of_second as int,
    ));
    let start: i64 = match parse_i64_between(chars.as_slice(), 0, end_of_first) {
        None => {
            return None;
        },
        Some(start) => start,
    };
    let end: i64 = match parse_i64_between(chars.as_slice(), begin_of_second, chars.len()) {
        None => {
            return None;
        },
        Some(end) => end,
    };
    if inclusive {
        if end < i64::MAX {
            Some((start, end + 1))
        } else {
            None
        }
    } else {
        Some((start, end))
    }
}

impl NumberRange {
    /// Reads one argument: an index range if it writes one, else an integer.
    pub fn parse_str(s: &str) -> (r: Result<Self, NumberRangeError>)
        ensures
            match spec_parse_range(s@) {
                Some((start, end)) => r matches Ok(NumberRange::Range { start: a, end: b }) && a
                    == start && b == end,
                None => match spec_parse_i64(s@) {
                    Some(i) => r matches Ok(NumberRange::Number(n)) && n == i,
                    None => r matches Err(NumberRangeError::InvalidNumber(invalid)) && invalid@
                        == s@,
                },
            },
    {
        if let Some((start, end)) = parse_range(s) {
            return Ok(NumberRange::Range { start, end });
        }
        match crate::text::parse_i64(s) {
            Some(i) => Ok(NumberRange::Number(i)),
            None => Err(NumberRangeError::InvalidNumber(String::from_str(s))),
        }
    }
}

/// The listing: the range from `start` to `end` split into `count`
/// intervals, and the arguments that pick fenceposts and give numbers.
#[derive(Debug)]
pub struct Range {
    pub start: i64,
    pub end: i64,
    pub count: u64,
    pub range: Vec<NumberRange>,
}

/// The index range that leads the arguments, if one does.
pub open spec fn spec_leading_range(arguments: Seq<NumberRange>) -> Option<(i64, i64)> {
    if arguments.len() == 0 {
        None
    } else {
        match arguments[0] {
            NumberRange::Range { start, end } => Some((start, end)),
            NumberRange::Number(_) => None,
        }
    }
}

/// The numbers that the arguments give, if numbers are all they give.
pub open spec fn only_numbers(arguments: Seq<NumberRange>) -> Option<Seq<i64>>
    decreases arguments.len(),
{
    if arguments.len() == 0 {
        Some(Seq::empty())
    } else {
        match (only_numbers(arguments.drop_last()), arguments.last()) {
            (Some(numbers), NumberRange::Number(number)) => Some(numbers.push(number)),
            _ => None,
        }
    }
}

/// The numbers to be listed: all arguments but a leading index range.
/// Nothing, if an index range stands anywhere else.
pub open spec fn spec_numbers(arguments: Seq<NumberRange>) -> Option<Seq<i64>> {
    if spec_leading_range(arguments) is Some {
        only_numbers(arguments.skip(1))
    } else {
        only_numbers(arguments)
    }
}

/// The indices `from..to` of the fenceposts that an index range picks out of
/// `total`. Without an index range all are picked. A start below zero or
/// beyond the fenceposts picks none, and an end before the start picks all
/// from the start on.
pub open spec fn spec_span(window: Option<(i64, i64)>, total: int) -> (int, int) {
    match window {
        None => (0, total),
        Some((start, end)) => {
            let from = if start < 0 || start > total {
                total
            } else {
                start as int
            };
            let to = if end < start || from + (end - start) > total {
                total
            } else {
                from + (end - start)
            };
            (from, to)
        },
    }
}

/// The least of `values`, if there is any.
pub open spec fn least(values: Seq<i64>) -> Option<i64>
    decreases values.len(),
{
    if values.len() == 0 {
        None
    } else {
        match least(values.drop_last()) {
            Some(lower) if lower <= values.last() => Some(lower),
            _ => Some(values.last()),
        }
    }
}

/// The greatest of `values`, if there is any.
pub open spec fn greatest(values: Seq<i64>) -> Option<i64>
    decreases values.len(),
{
    if values.len() == 0 {
        None
    } else {
        match greatest(values.drop_last()) {
            Some(higher) if higher >= values.last() => Some(higher),
            _ => Some(values.last()),
        }
    }
}

/// `least` and `greatest` are what they are called: members that bound all
/// the others.
pub proof fn lemma_least_and_greatest(values: Seq<i64>)
    ensures
        values.len() == 0 <==> least(values) is None,
        values.len() == 0 <==> greatest(values) is None,
        least(values) matches Some(lower) ==> values.contains(lower) && forall|i: int|
            0 <= i < values.len() ==> lower <= #[trigger] values[i],
        greatest(values) matches Some(higher) ==> values.contains(higher) && forall|i: int|
            0 <= i < values.len() ==> higher >= #[trigger] values[i],
    decreases values.len(),
{
    if values.len() > 0 {
        let before = values.drop_last();
        lemma_least_and_greatest(before);
        let last = values.last();
        assert(values[values.len() - 1] == last);
        if let Some(lower) = least(before) {
            let i = choose|i: int| 0 <= i < before.len() && before[i] == lower;
            assert(values[i] == lower);
        }
        if let Some(higher) = greatest(before) {
            let i = choose|i: int| 0 <= i < before.len() && before[i] == higher;
            assert(values[i] == higher);
        }
        assert forall|i: int| 0 <= i < values.len() implies least(values)->Some_0
            <= #[trigger] values[i] by {
            if i < before.len() {
                assert(before[i] == values[i]);
            }
        }
        assert forall|i: int| 0 <= i < values.len() implies greatest(values)->Some_0
            >= #[trigger] values[i] by {
            if i < before.len() {
                assert(before[i] == values[i]);
            }
        }
    }
}

/// The evaluated fenceposts, each rounded to the nearest integer.
pub open spec fn rounded(evaluated: Seq<u64>) -> Seq<i64> {
    evaluated.map_values(|x: u64| spec_round_to_i64(x))
}

/// The numbers strictly between `low` and `high`, in their order.
pub open spec fn spec_between(numbers: Seq<i64>, low: i64, high: i64) -> Seq<i64> {
    numbers.filter(|number: i64| low < number && high > number)
}

/// The numbers strictly between `low` and `high`, in their order.
pub fn between(numbers: &[i64], low: i64, high: i64) -> (r: Vec<i64>)
    ensures
        r@ == spec_between(numbers@, low, high),
{
    let mut out: Vec<i64> = Vec::new();
    let mut i: usize = 0;
    proof {
        reveal(Seq::filter);
    }
    while i < numbers.len()
        invariant
            i <= numbers@.len(),
            out@ == spec_between(numbers@.take(i as int), low, high),
        decreases numbers@.len() - i,
    {
        proof {
            reveal(Seq::filter);
            assert(numbers@.take(i + 1).drop_last() =~= numbers@.take(i as int));
        }
        let number: i64 = numbers[i];
        if low < number && high > number {
            out.push(number);
        }
        i += 1;
    }
    assert(numbers@.take(i as int) =~= numbers@);
    out
}

impl Range {
    /// The range that the arguments describe, or why they describe none.
    pub open spec fn spec_interval(&self) -> Result<Interval, IntervalError> {
        Interval::spec_new(spec_from_i64(self.start), spec_from_i64(self.end), self.count)
    }

    /// The range that the arguments describe. Fails as [`Interval::new`]
    /// does.
    pub fn interval(&self) -> (r: Result<Interval, IntervalError>)
        ensures
            r == self.spec_interval(),
    {
        Interval::new(from_i64(self.start), from_i64(self.end), self.count)
    }

    /// The index range that leads the arguments, if one does.
    pub fn leading_range(&self) -> (r: Option<(i64, i64)>)
        ensures
            r == spec_leading_range(self.range@),
    {
        if self.range.len() == 0 {
            return None;
        }
        match self.range[0] {
            NumberRange::Range { start, end } => Some((start, end)),
            NumberRange::Number(_) => None,
        }
    }

    /// The numbers to be listed. Fails with
    /// [`NumberRangeError::UnexpectedRange`] if an index range stands
    /// anywhere but in front.
    pub fn numbers(&self) -> (r: Result<Vec<i64>, NumberRangeError>)
        ensures
            match spec_numbers(self.range@) {
                Some(numbers) => r matches Ok(found) && found@ == numbers,
                None => r matches Err(NumberRangeError::UnexpectedRange),
            },
    {
        let first: usize = if self.leading_range().is_some() {
            1
        } else {
            0
        };
        let ghost arguments = self.range@.skip(first as int);
        assert(self.range@.skip(0) =~= self.range@);
        let mut out: Vec<i64> = Vec::new();
        let mut i: usize = first;
        while i < self.range.len()
            invariant
                first <= i <= self.range@.len(),
                arguments == self.range@.skip(first as int),
                spec_numbers(self.range@) == only_numbers(arguments),
                only_numbers(arguments.take(i - first)) == Some(out@),
            decreases self.range@.len() - i,
        {
            proof {
                assert(arguments.take(i + 1 - first).drop_last() =~= arguments.take(i - first));
                assert(arguments.take(i + 1 - first).last() == self.range@[i as int]);
            }
            match self.range[i] {
                NumberRange::Number(number) => {
                    out.push(number);
                },
                NumberRange::Range { .. } => {
                    proof {
                        lemma_only_numbers_prefix(arguments, i + 1 - first);
                    }
                    return Err(NumberRangeError::UnexpectedRange);
                },
            }
            i += 1;
        }
        assert(arguments.take(i - first) =~= arguments);
        Ok(out)
    }

    /// The fenceposts whose values bound the listing, in ascending order:
    /// those that the leading index range picks, or all without one.
    pub fn fenceposts(&self, interval: &Interval) -> (r: Vec<Breakpoint>)
        ensures
            r@ == interval.fenceposts().subrange(
                spec_span(spec_leading_range(self.range@), interval.spec_count() + 1).0,
                spec_span(spec_leading_range(self.range@), interval.spec_count() + 1).1,
            ),
    {
        let total: u128 = interval.count() as u128 + 1;
        let (from, to): (u128, u128) = match self.leading_range() {
            None => (0, total),
            Some((start, end)) => {
                let from: u128 = if start < 0 || start as u128 > total {
                    total
                } else {
                    start as u128
                };
                let to: u128 = if end < start {
                    total
                } else {
                    let length: u128 = (end as i128 - start as i128) as u128;
                    if length > total - from {
                        total
                    } else {
                        from + length
                    }
                };
                (from, to)
            },
        };
        let ghost all = interval.fenceposts();
        let mut walk: IntervalIter = interval.iter();
        let mut at: u128 = 0;
        while at < from
            invariant
                at <= from <= to <= total,
                total == all.len(),
                walk.wf(),
                walk@ == all.skip(at as int),
            decreases from - at,
        {
            walk.next();
            at += 1;
            assert(all.skip(at - 1).skip(1) =~= all.skip(at as int));
        }
        let mut out: Vec<Breakpoint> = Vec::new();
        while at < to
            invariant
                from <= at <= to <= total,
                total == all.len(),
                walk.wf(),
                walk@ == all.skip(at as int),
                out@ == all.subrange(from as int, at as int),
            decreases to - at,
        {
            if let Some(fencepost) = walk.next() {
                out.push(fencepost);
            }
            at += 1;
            assert(all.skip(at - 1).skip(1) =~= all.skip(at as int));
            assert(out@ =~= all.subrange(from as int, at as int));
        }
        out
    }

    /// The bounds of the listing: the least and the greatest of the
    /// evaluated fenceposts, rounded, or `start` and `end` if there are
    /// none.
    pub open spec fn spec_bounds(&self, evaluated: Seq<u64>) -> (i64, i64) {
        (
            match least(rounded(evaluated)) {
                Some(lower) => lower,
                None => self.start,
            },
            match greatest(rounded(evaluated)) {
                Some(higher) => higher,
                None => self.end,
            },
        )
    }

    /// The bounds of the listing, from the values of the fenceposts that
    /// [`Range::fenceposts`] asked for.
    pub fn bounds(&self, evaluated: &[u64]) -> (r: (i64, i64))
        ensures
            r == self.spec_bounds(evaluated@),
    {
        let mut low: Option<i64> = None;
        let mut high: Option<i64> = None;
        let mut i: usize = 0;
        while i < evaluated.len()
            invariant
                i <= evaluated@.len(),
                low == least(rounded(evaluated@.take(i as int))),
                high == greatest(rounded(evaluated@.take(i as int))),
            decreases evaluated@.len() - i,
        {
            let value: i64 = round_to_i64(evaluated[i]);
            proof {
                assert(rounded(evaluated@.take(i + 1)).drop_last() =~= rounded(
                    evaluated@.take(i as int),
                ));
                assert(rounded(evaluated@.take(i + 1)).last() == value);
            }
            low = match low {
                Some(lower) => if lower <= value {
                    Some(lower)
                } else {
                    Some(value)
                },
                None => Some(value),
            };
            high = match high {
                Some(higher) => if higher >= value {
                    Some(higher)
                } else {
                    Some(value)
                },
                None => Some(value),
            };
            i += 1;
        }
        assert(evaluated@.take(i as int) =~= evaluated@);
        (
            match low {
                Some(lower) => lower,
                None => self.start,
            },
            match high {
                Some(higher) => higher,
                None => self.end,
            },
        )
    }

    /// The numbers to be written: those strictly between the bounds, in the
    /// order in which they were given. Fails as [`Range::numbers`] does.
    pub fn run(&self, evaluated: &[u64]) -> (r: Result<Vec<i64>, NumberRangeError>)
        ensures
            match spec_numbers(self.range@) {
                Some(numbers) => r matches Ok(found) && found@ == spec_between(
                    numbers,
                    self.spec_bounds(evaluated@).0,
                    self.spec_bounds(evaluated@).1,
                ),
                None => r matches Err(NumberRangeError::UnexpectedRange),
            },
    {
        let (low, high): (i64, i64) = self.bounds(evaluated);
        match self.numbers() {
            Err(e) => Err(e),
            Ok(numbers) => Ok(between(numbers.as_slice(), low, high)),
        }
    }
}

/// Once something other than a number has come, no longer run of arguments
/// gives numbers only.
proof fn lemma_only_numbers_prefix(arguments: Seq<NumberRange>, shorter: int)
    requires
        0 <= shorter <= arguments.len(),
        only_numbers(arguments.take(shorter)) is None,
    ensures
        only_numbers(arguments) is None,
    decreases arguments.len(),
{
    if shorter == arguments.len() {
        assert(arguments.take(shorter) =~= arguments);
    } else {
        assert(arguments.drop_last().take(shorter) =~= arguments.take(shorter));
        lemma_only_numbers_prefix(arguments.drop_last(), shorter);
    }
}

} // verus!
