//! One representative per bucket: the largest or the smallest of the values
//! that fall into it.

use vstd::prelude::*;
use crate::binary64::{from_i64, spec_from_i64};
use crate::interval::Interval;

verus! {

/// An integer to be classified, with its place on the logarithmic scale.
///
/// `position` is the caller's evaluation of the scale at `value`, under the
/// range that the sample is to be classified in (see [`Interval::bucket`]).
#[derive(Debug, Clone, Copy, PartialEq, Eq, Structural)]
pub struct Sample {
    pub value: i64,
    pub position: u64,
}

/// Which value of a bucket to keep.
#[derive(Debug, Clone, Copy, PartialEq, Eq, Structural)]
pub enum Extremum {
    /// The largest.
    Max,
    /// The smallest.
    Min,
}

impl Extremum {
    /// Whether `new` takes the slot that `current` holds: always if the slot
    /// is empty, else only if `new` is strictly better. An equal value never
    /// replaces the one that came first.
    pub open spec fn spec_wins(self, new: i64, current: Option<i64>) -> bool {
        match current {
            None => true,
            Some(held) => match self {
                Extremum::Max => held < new,
                Extremum::Min => held > new,
            },
        }
    }

    /// Whether `new` takes the slot that `current` holds.
    #[verifier::when_used_as_spec(spec_wins)]
    pub fn wins(self, new: i64, current: Option<i64>) -> (r: bool)
        ensures
            r == self.spec_wins(new, current),
    {
        match current {
            None => true,
            Some(held) => match self {
                Extremum::Max => held < new,
                Extremum::Min => held > new,
            },
        }
    }
}

/// The slot that a sample competes for: its bucket, if it has one and the
/// bucket is one of the `count` there are.
pub open spec fn slot_of(interval: Interval, sample: Sample) -> Option<int> {
    match interval.spec_bucket(spec_from_i64(sample.value), sample.position) {
        Some(bucket) => if bucket < interval.spec_count() {
            Some(bucket as int)
        } else {
            None
        },
        None => None,
    }
}

/// The slots after one more sample: the sample takes its slot if it wins it,
/// and is dropped otherwise.
pub open spec fn place(
    interval: Interval,
    slots: Seq<Option<i64>>,
    sample: Sample,
    which: Extremum,
) -> Seq<Option<i64>> {
    match slot_of(interval, sample) {
        Some(slot) => if which.spec_wins(sample.value, slots[slot]) {
            slots.update(slot, Some(sample.value))
        } else {
            slots
        },
        None => slots,
    }
}

/// The slots after all of `input`, taken in order: one slot per bucket, all
/// empty to begin with.
pub open spec fn fill(interval: Interval, input: Seq<Sample>, which: Extremum) -> Seq<Option<i64>>
    decreases input.len(),
{
    if input.len() == 0 {
        Seq::new(interval.spec_count() as nat, |slot: int| None::<i64>)
    } else {
        place(interval, fill(interval, input.drop_last(), which), input.last(), which)
    }
}

/// The values of the slots that are not empty, in the order of the slots.
pub open spec fn occupied(slots: Seq<Option<i64>>) -> Seq<i64>
    decreases slots.len(),
{
    if slots.len() == 0 {
        Seq::empty()
    } else {
        match slots.last() {
            Some(value) => occupied(slots.drop_last()).push(value),
            None => occupied(slots.drop_last()),
        }
    }
}

/// What a selection returns: the occupied slots after all of `input`.
pub open spec fn selection(interval: Interval, input: Seq<Sample>, which: Extremum) -> Seq<i64> {
    occupied(fill(interval, input, which))
}

/// Filling keeps one slot per bucket.
pub proof fn lemma_fill_len(interval: Interval, input: Seq<Sample>, which: Extremum)
    ensures
        fill(interval, input, which).len() == interval.spec_count(),
    decreases input.len(),
{
    if input.len() > 0 {
        lemma_fill_len(interval, input.drop_last(), which);
    }
}

/// Whether `bound` is at least as good as `value` under `which`: not below
/// it for a maximum, not above it for a minimum.
pub open spec fn bounds(which: Extremum, bound: i64, value: i64) -> bool {
    match which {
        Extremum::Max => value <= bound,
        Extremum::Min => value >= bound,
    }
}

/// Each slot holds the true extremum of its bucket: it is empty exactly when
/// no sample falls into the bucket, and otherwise holds the value of one of
/// the samples that do, which no other of them beats.
pub proof fn lemma_fill_holds_extrema(
    interval: Interval,
    input: Seq<Sample>,
    which: Extremum,
    slot: int,
)
    requires
        0 <= slot < interval.spec_count(),
    ensures
        fill(interval, input, which).len() == interval.spec_count(),
        fill(interval, input, which)[slot] is None <==> (forall|i: int|
            0 <= i < input.len() ==> slot_of(interval, #[trigger] input[i]) != Some(slot)),
        fill(interval, input, which)[slot] matches Some(held) ==> {
            &&& exists|i: int|
                0 <= i < input.len() && slot_of(interval, #[trigger] input[i]) == Some(slot)
                    && input[i].value == held
            &&& forall|i: int|
                0 <= i < input.len() && slot_of(interval, #[trigger] input[i]) == Some(slot)
                    ==> bounds(which, held, input[i].value)
        },
    decreases input.len(),
{
    lemma_fill_len(interval, input, which);
    if input.len() > 0 {
        let before = input.drop_last();
        let last = input.last();
        let slots = fill(interval, before, which);
        lemma_fill_holds_extrema(interval, before, which, slot);
        lemma_fill_len(interval, before, which);
        assert forall|i: int| 0 <= i < before.len() implies before[i] == input[i] by {}
        let after = fill(interval, input, which);
        if let Some(held) = after[slot] {
            if slot_of(interval, last) == Some(slot) && which.spec_wins(last.value, slots[slot]) {
                assert(slot_of(interval, input[input.len() - 1]) == Some(slot));
                assert forall|i: int|
                    0 <= i < input.len() && slot_of(interval, #[trigger] input[i]) == Some(
                        slot,
                    ) implies bounds(which, held, input[i].value) by {
                    if i < before.len() {
                        assert(before[i] == input[i]);
                    }
                }
            } else {
                let i = choose|i: int|
                    0 <= i < before.len() && slot_of(interval, #[trigger] before[i]) == Some(
                        slot,
                    ) && before[i].value == held;
                assert(slot_of(interval, input[i]) == Some(slot) && input[i].value == held);
                assert forall|i: int|
                    0 <= i < input.len() && slot_of(interval, #[trigger] input[i]) == Some(
                        slot,
                    ) implies bounds(which, held, input[i].value) by {
                    if i < before.len() {
                        assert(before[i] == input[i]);
                    }
                }
            }
        } else {
            assert forall|i: int| 0 <= i < input.len() implies slot_of(
                interval,
                #[trigger] input[i],
            ) != Some(slot) by {
                if i < before.len() {
                    assert(before[i] == input[i]);
                }
            }
        }
        if forall|i: int|
            0 <= i < input.len() ==> slot_of(interval, #[trigger] input[i]) != Some(slot) {
            assert forall|i: int| 0 <= i < before.len() implies slot_of(
                interval,
                #[trigger] before[i],
            ) != Some(slot) by {
                assert(before[i] == input[i]);
            }
            assert(slot_of(interval, input[input.len() - 1]) != Some(slot));
        }
    }
}

/// The slots that are not empty, in ascending order.
pub open spec fn occupied_slots(slots: Seq<Option<i64>>) -> Seq<int>
    decreases slots.len(),
{
    if slots.len() == 0 {
        Seq::empty()
    } else if slots.last() is Some {
        occupied_slots(slots.drop_last()).push(slots.len() - 1)
    } else {
        occupied_slots(slots.drop_last())
    }
}

/// The occupied slots come out one value each, in ascending slot order: the
/// values line up with the slots that are not empty, those slots strictly
/// ascend, and none of them is left out.
pub proof fn lemma_occupied_in_slot_order(slots: Seq<Option<i64>>)
    ensures
        occupied(slots).len() == occupied_slots(slots).len(),
        occupied(slots).len() <= slots.len(),
        forall|k: int|
            0 <= k < occupied(slots).len() ==> 0 <= (#[trigger] occupied_slots(slots)[k])
                < slots.len() && slots[occupied_slots(slots)[k]] == Some(occupied(slots)[k]),
        forall|j: int, k: int|
            0 <= j < k < occupied(slots).len() ==> occupied_slots(slots)[j] < occupied_slots(
                slots,
            )[k],
        forall|slot: int|
            0 <= slot < slots.len() && (#[trigger] slots[slot]) is Some ==> occupied_slots(
                slots,
            ).contains(slot),
    decreases slots.len(),
{
    if slots.len() > 0 {
        let before = slots.drop_last();
        lemma_occupied_in_slot_order(before);
        let found = occupied_slots(slots);
        assert forall|slot: int|
            0 <= slot < slots.len() && (#[trigger] slots[slot]) is Some implies found.contains(
            slot,
        ) by {
            if slot < before.len() {
                assert(before[slot] is Some);
                let k = choose|k: int|
                    0 <= k < occupied_slots(before).len() && occupied_slots(before)[k] == slot;
                assert(found[k] == slot);
            } else {
                assert(found[found.len() - 1] == slot);
            }
        }
    }
}

/// A selection returns exactly one value per bucket that is not empty, in
/// ascending bucket order, and the value returned for a bucket is the true
/// extremum of the samples classified into it.
pub proof fn lemma_selection_is_extremum_per_bucket(
    interval: Interval,
    input: Seq<Sample>,
    which: Extremum,
)
    ensures
        selection(interval, input, which).len() <= interval.spec_count(),
        forall|k: int|
            #![trigger selection(interval, input, which)[k]]
            0 <= k < selection(interval, input, which).len() ==> {
                let slot = occupied_slots(fill(interval, input, which))[k];
                let held = selection(interval, input, which)[k];
                &&& 0 <= slot < interval.spec_count()
                &&& exists|i: int|
                    0 <= i < input.len() && slot_of(interval, #[trigger] input[i]) == Some(slot)
                        && input[i].value == held
                &&& forall|i: int|
                    0 <= i < input.len() && slot_of(interval, #[trigger] input[i]) == Some(slot)
                        ==> bounds(which, held, input[i].value)
            },
        forall|j: int, k: int|
            0 <= j < k < selection(interval, input, which).len() ==> occupied_slots(
                fill(interval, input, which),
            )[j] < occupied_slots(fill(interval, input, which))[k],
        forall|i: int|
            0 <= i < input.len() && slot_of(interval, #[trigger] input[i]) is Some
                ==> occupied_slots(fill(interval, input, which)).contains(
                slot_of(interval, input[i])->Some_0,
            ),
{
    let slots = fill(interval, input, which);
    lemma_fill_len(interval, input, which);
    lemma_occupied_in_slot_order(slots);
    assert forall|k: int|
        #![trigger selection(interval, input, which)[k]]
        0 <= k < selection(interval, input, which).len() implies {
        let slot = occupied_slots(slots)[k];
        let held = selection(interval, input, which)[k];
        &&& 0 <= slot < interval.spec_count()
        &&& exists|i: int|
            0 <= i < input.len() && slot_of(interval, #[trigger] input[i]) == Some(slot)
                && input[i].value == held
        &&& forall|i: int|
            0 <= i < input.len() && slot_of(interval, #[trigger] input[i]) == Some(slot)
                ==> bounds(which, held, input[i].value)
    } by {
        let slot = occupied_slots(slots)[k];
        assert(slots[slot] == Some(occupied(slots)[k]));
        lemma_fill_holds_extrema(interval, input, which, slot);
    }
    assert forall|i: int|
        0 <= i < input.len() && slot_of(interval, #[trigger] input[i]) is Some implies occupied_slots(
        slots,
    ).contains(slot_of(interval, input[i])->Some_0) by {
        let slot = slot_of(interval, input[i])->Some_0;
        lemma_fill_holds_extrema(interval, input, which, slot);
        assert(slots[slot] is Some);
    }
}

/// Classifies each sample under `interval` and keeps, per bucket, the value
/// that `which` asks for. Returns the kept values in ascending bucket order;
/// a bucket that nothing fell into contributes nothing, and a sample without
/// a bucket is dropped.
pub fn select_per_bucket(interval: &Interval, input: &[Sample], which: Extremum) -> (r: Vec<i64>)
    ensures
        r@ == selection(*interval, input@, which),
{
    let count: u64 = interval.count();
    let mut buckets: Vec<Option<i64>> = Vec::new();
    let mut made: u64 = 0;
    while made < count
        invariant
            made <= count,
            buckets@ == Seq::new(made as nat, |slot: int| None::<i64>),
        decreases count - made,
    {
        buckets.push(None);
        made += 1;
        assert(buckets@ =~= Seq::new(made as nat, |slot: int| None::<i64>));
    }

    let mut seen: usize = 0;
    while seen < input.len()
        invariant
            seen <= input.len(),
            count == interval.spec_count(),
            buckets@ == fill(*interval, input@.take(seen as int), which),
        decreases input.len() - seen,
    {
        let sample: Sample = input[seen];
        proof {
            lemma_fill_len(*interval, input@.take(seen as int), which);
            assert(input@.take(seen + 1).drop_last() =~= input@.take(seen as int));
        }
        if let Some(bucket) = interval.bucket(from_i64(sample.value), sample.position) {
            if bucket < buckets.len() && which.wins(sample.value, buckets[bucket]) {
                buckets.set(bucket, Some(sample.value));
            }
        }
        seen += 1;
    }
    assert(input@.take(seen as int) =~= input@);

    let mut kept: Vec<i64> = Vec::new();
    let mut slot: usize = 0;
    while slot < buckets.len()
        invariant
            slot <= buckets.len(),
            kept@ == occupied(buckets@.take(slot as int)),
        decreases buckets.len() - slot,
    {
        proof {
            assert(buckets@.take(slot + 1).drop_last() =~= buckets@.take(slot as int));
        }
        if let Some(value) = buckets[slot] {
            kept.push(value);
        }
        slot += 1;
    }
    assert(buckets@.take(slot as int) =~= buckets@);
    kept
}

/// Selection under one range.
#[derive(Debug)]
pub struct ByBucket {
    interval: Interval,
}

impl ByBucket {
    /// The range that the samples are classified under.
    pub closed spec fn interval(&self) -> Interval {
        self.interval
    }

    pub fn new(interval: Interval) -> (r: Self)
        ensures
            r.interval() == interval,
    {
        Self { interval }
    }

    /// The largest value of each bucket that is not empty, in ascending
    /// bucket order.
    pub fn select_max(&self, input: &[Sample]) -> (r: Vec<i64>)
        ensures
            r@ == selection(self.interval(), input@, Extremum::Max),
    {
        select_per_bucket(&self.interval, input, Extremum::Max)
    }

    /// The smallest value of each bucket that is not empty, in ascending
    /// bucket order.
    pub fn select_min(&self, input: &[Sample]) -> (r: Vec<i64>)
        ensures
            r@ == selection(self.interval(), input@, Extremum::Min),
    {
        select_per_bucket(&self.interval, input, Extremum::Min)
    }
}

} // verus!
