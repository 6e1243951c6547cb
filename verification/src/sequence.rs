//! The fenceposts of a range as a sequence that is pulled from both ends.

use vstd::prelude::*;

verus! {

/// One fencepost of a range.
///
/// The floor is the low end of the range itself and is handed out verbatim.
/// Every other fencepost is named by its index, at which the closed form
/// `exp(ln(high - low + 1) / count * index) + low - 1` is to be evaluated.
#[derive(Debug, Clone, Copy, PartialEq, Eq, Structural)]
pub enum Breakpoint {
    /// Index 0: the low end, as the bit pattern it was given in.
    Floor(u64),
    /// An index in `1..=count`.
    Formula(u64),
}

/// The fencepost at `index` of a range that starts at `low`.
pub open spec fn breakpoint_at(low: u64, index: int) -> Breakpoint {
    if index == 0 {
        Breakpoint::Floor(low)
    } else {
        Breakpoint::Formula(index as u64)
    }
}

/// The `count + 1` fenceposts of a range, in ascending order.
pub open spec fn fenceposts(low: u64, count: u64) -> Seq<Breakpoint> {
    Seq::new((count + 1) as nat, |index: int| breakpoint_at(low, index))
}

impl Breakpoint {
    /// The index of the fencepost: 0 for the floor.
    pub open spec fn index(self) -> int {
        match self {
            Breakpoint::Floor(_) => 0,
            Breakpoint::Formula(index) => index as int,
        }
    }
}

/// There are `count + 1` fenceposts, `count` of them above the floor. They
/// start at the low end itself and go on through the indices `1..=count`,
/// one by one: none is skipped and none comes twice.
pub proof fn lemma_fenceposts_in_order(low: u64, count: u64)
    ensures
        fenceposts(low, count).len() == count + 1,
        fenceposts(low, count).skip(1).len() == count,
        fenceposts(low, count).first() == Breakpoint::Floor(low),
        fenceposts(low, count).last().index() == count,
        forall|i: int|
            0 <= i <= count ==> (#[trigger] fenceposts(low, count)[i]).index() == i,
        forall|i: int|
            1 <= i <= count ==> #[trigger] fenceposts(low, count)[i] == Breakpoint::Formula(
                i as u64,
            ),
        forall|i: int, j: int|
            0 <= i < j <= count ==> (#[trigger] fenceposts(low, count)[i]).index() < (
            #[trigger] fenceposts(low, count)[j]).index(),
{
}

/// A walk over the fenceposts of a range, from the front and from the back.
///
/// - `low` is the starting point of the range
/// - `high` is the inclusive end point of the range
/// - `count` is the number of intervals
/// - `idx_front` and `idx_back` count what was pulled from either end
#[derive(Debug)]
pub struct IntervalIter {
    low: u64,
    high: u64,
    count: u64,
    // Used by next()
    idx_front: u128,
    // Used by next_back()
    idx_back: u128,
}

impl Clone for IntervalIter {
    /// A second walk at the same place; the two move independently.
    fn clone(&self) -> (r: Self)
        ensures
            r == *self,
    {
        proof {
            use_type_invariant(self);
        }
        Self {
            low: self.low,
            high: self.high,
            count: self.count,
            idx_front: self.idx_front,
            idx_back: self.idx_back,
        }
    }
}

impl View for IntervalIter {
    type V = Seq<Breakpoint>;

    /// What is still to come, in ascending order.
    open spec fn view(&self) -> Seq<Breakpoint> {
        fenceposts(self.low(), self.count()).subrange(
            self.front() as int,
            self.count() + 1 - self.back(),
        )
    }
}

impl IntervalIter {
    /// The low end of the range, as a bit pattern.
    pub closed spec fn low(&self) -> u64 {
        self.low
    }

    /// The high end of the range, as a bit pattern.
    pub closed spec fn high(&self) -> u64 {
        self.high
    }

    /// The number of intervals.
    pub closed spec fn count(&self) -> u64 {
        self.count
    }

    /// How many fenceposts were pulled from the front.
    pub closed spec fn front(&self) -> nat {
        self.idx_front as nat
    }

    /// How many fenceposts were pulled from the back.
    pub closed spec fn back(&self) -> nat {
        self.idx_back as nat
    }

    /// The two ends never cross: together they have pulled at most the
    /// `count + 1` fenceposts there are. Every walk keeps to this.
    #[verifier::type_invariant]
    pub open spec fn wf(&self) -> bool {
        self.front() + self.back() <= self.count() + 1
    }

    pub(crate) fn new(low: u64, high: u64, count: u64) -> (r: Self)
        ensures
            r.wf(),
            r.low() == low,
            r.high() == high,
            r.count() == count,
            r.front() == 0,
            r.back() == 0,
            r@ == fenceposts(low, count),
            r@.len() == count + 1,
    {
        Self { low, high, count, idx_front: 0, idx_back: 0 }
    }

    /// How many fenceposts are left.
    pub open spec fn remaining(&self) -> nat {
        if self.front() + self.back() <= self.count() + 1 {
            (self.count() + 1 - self.front() - self.back()) as nat
        } else {
            0
        }
    }

    /// What a pull from the front hands out.
    pub open spec fn peek_front(&self) -> Option<Breakpoint> {
        if self.remaining() == 0 {
            None
        } else {
            Some(breakpoint_at(self.low(), self.front() as int))
        }
    }

    /// What a pull from the back hands out.
    pub open spec fn peek_back(&self) -> Option<Breakpoint> {
        if self.remaining() == 0 {
            None
        } else {
            Some(breakpoint_at(self.low(), self.count() - self.back()))
        }
    }

    /// The walk after a pull from the front: the front cursor has moved by
    /// one if anything was left, and nothing else has changed.
    pub closed spec fn after_next(self) -> Self {
        if self.remaining() == 0 {
            self
        } else {
            Self { idx_front: (self.idx_front + 1) as u128, ..self }
        }
    }

    /// The walk after a pull from the back: the back cursor has moved by one
    /// if anything was left, and nothing else has changed.
    pub closed spec fn after_next_back(self) -> Self {
        if self.remaining() == 0 {
            self
        } else {
            Self { idx_back: (self.idx_back + 1) as u128, ..self }
        }
    }

    /// Everything that pulling from the front until nothing is left hands
    /// out, in the order in which it comes.
    pub open spec fn drain_front(self) -> Seq<Breakpoint>
        decreases self.remaining(),
        when self.wf()
    {
        if self.remaining() == 0 {
            Seq::empty()
        } else {
            seq![self.peek_front().unwrap()] + self.after_next().drain_front()
        }
    }

    /// Everything that pulling from the back until nothing is left hands out,
    /// in the order in which it comes.
    pub open spec fn drain_back(self) -> Seq<Breakpoint>
        decreases self.remaining(),
        when self.wf()
    {
        if self.remaining() == 0 {
            Seq::empty()
        } else {
            seq![self.peek_back().unwrap()] + self.after_next_back().drain_back()
        }
    }

    /// A pull from the front moves the front cursor and leaves the rest.
    pub proof fn lemma_after_next(self)
        requires
            self.wf(),
        ensures
            self.after_next().wf(),
            self.after_next().low() == self.low(),
            self.after_next().high() == self.high(),
            self.after_next().count() == self.count(),
            self.after_next().back() == self.back(),
            self.after_next().front() == self.front() + (if self.remaining() == 0 {
                0nat
            } else {
                1nat
            }),
            self.remaining() == self@.len(),
            self.remaining() > 0 ==> self.peek_front() == Some(self@.first()),
            self.remaining() > 0 ==> self.after_next()@ == self@.skip(1),
    {
        if self.remaining() > 0 {
            assert(self.after_next()@ =~= self@.skip(1));
        }
    }

    /// A pull from the back moves the back cursor and leaves the rest.
    pub proof fn lemma_after_next_back(self)
        requires
            self.wf(),
        ensures
            self.after_next_back().wf(),
            self.after_next_back().low() == self.low(),
            self.after_next_back().high() == self.high(),
            self.after_next_back().count() == self.count(),
            self.after_next_back().front() == self.front(),
            self.after_next_back().back() == self.back() + (if self.remaining() == 0 {
                0nat
            } else {
                1nat
            }),
            self.remaining() == self@.len(),
            self.remaining() > 0 ==> self.peek_back() == Some(self@.last()),
            self.remaining() > 0 ==> self.after_next_back()@ == self@.drop_last(),
    {
        if self.remaining() > 0 {
            assert(self.after_next_back()@ =~= self@.drop_last());
        }
    }

    fn idx(&self) -> (r: u128)
        ensures
            self.wf(),
            r == self.front() + self.back(),
    {
        proof {
            use_type_invariant(self);
        }
        self.idx_front + self.idx_back
    }

    /// Pulls the next fencepost from the front, if any is left.
    ///
    /// Only the front cursor moves, and only if something was handed out.
    pub fn next(&mut self) -> (r: Option<Breakpoint>)
        ensures
            old(self).wf(),
            final(self).wf(),
            r == old(self).peek_front(),
            *final(self) == old(self).after_next(),
            final(self).low() == old(self).low(),
            final(self).high() == old(self).high(),
            final(self).count() == old(self).count(),
            final(self).back() == old(self).back(),
            final(self).front() == old(self).front() + (if r is Some { 1nat } else { 0nat }),
            r is Some <==> old(self)@.len() > 0,
            r is Some ==> r == Some(old(self)@.first()) && final(self)@ == old(self)@.skip(1),
    {
        proof {
            use_type_invariant(&*self);
            self.lemma_after_next();
        }
        if self.idx() > self.count as u128 {
            return None;
        }
        match self.idx_front {
            0 => {
                self.idx_front += 1;
                Some(Breakpoint::Floor(self.low))
            },
            index => {
                self.idx_front += 1;
                Some(Breakpoint::Formula(index as u64))
            },
        }
    }

    /// Pulls the next fencepost from the back, if any is left.
    ///
    /// Only the back cursor moves, and only if something was handed out.
    pub fn next_back(&mut self) -> (r: Option<Breakpoint>)
        ensures
            old(self).wf(),
            final(self).wf(),
            r == old(self).peek_back(),
            *final(self) == old(self).after_next_back(),
            final(self).low() == old(self).low(),
            final(self).high() == old(self).high(),
            final(self).count() == old(self).count(),
            final(self).front() == old(self).front(),
            final(self).back() == old(self).back() + (if r is Some { 1nat } else { 0nat }),
            r is Some <==> old(self)@.len() > 0,
            r is Some ==> r == Some(old(self)@.last()) && final(self)@ == old(self)@.drop_last(),
    {
        proof {
            use_type_invariant(&*self);
            self.lemma_after_next_back();
        }
        if self.idx() > self.count as u128 {
            return None;
        }
        match self.count as u128 - self.idx_back {
            0 => {
                self.idx_back += 1;
                Some(Breakpoint::Floor(self.low))
            },
            index => {
                self.idx_back += 1;
                Some(Breakpoint::Formula(index as u64))
            },
        }
    }

    /// The two ends do not disturb each other: a pull from the front and a
    /// pull from the back hand out the same two fenceposts and leave the same
    /// walk, whichever comes first, as long as two are left.
    pub proof fn lemma_pulls_commute(self)
        requires
            self.wf(),
            self.remaining() >= 2,
        ensures
            self.after_next().after_next_back() == self.after_next_back().after_next(),
            self.after_next().peek_back() == self.peek_back(),
            self.after_next_back().peek_front() == self.peek_front(),
            self.after_next().after_next_back().remaining() == self.remaining() - 2,
    {
    }

    /// Pulls from the front until nothing is left and returns what came, in
    /// the order in which it came: the rest of the walk, ascending.
    pub fn collect(self) -> (v: Vec<Breakpoint>)
        ensures
            self.wf(),
            v@ == self.drain_front(),
            v@ == self@,
    {
        proof {
            use_type_invariant(&self);
        }
        let mut walk = self;
        let mut out: Vec<Breakpoint> = Vec::new();
        while walk.len() > 0
            invariant
                walk.wf(),
                out@ + walk.drain_front() == self.drain_front(),
            decreases walk.remaining(),
        {
            let ghost before = walk;
            let item = walk.next();
            if let Some(fencepost) = item {
                out.push(fencepost);
            }
            proof {
                assert(out@ + walk.drain_front() =~= (out@.drop_last() + before.drain_front()));
            }
        }
        proof {
            assert(out@ =~= out@ + walk.drain_front());
            self.lemma_drain_front();
        }
        out
    }

    /// Pulls from the back until nothing is left and returns what came, in
    /// the order in which it came: the rest of the walk, descending.
    pub fn collect_rev(self) -> (v: Vec<Breakpoint>)
        ensures
            self.wf(),
            v@ == self.drain_back(),
            v@ == self@.reverse(),
    {
        proof {
            use_type_invariant(&self);
        }
        let mut walk = self;
        let mut out: Vec<Breakpoint> = Vec::new();
        while walk.len() > 0
            invariant
                walk.wf(),
                out@ + walk.drain_back() == self.drain_back(),
            decreases walk.remaining(),
        {
            let ghost before = walk;
            let item = walk.next_back();
            if let Some(fencepost) = item {
                out.push(fencepost);
            }
            proof {
                assert(out@ + walk.drain_back() =~= (out@.drop_last() + before.drain_back()));
            }
        }
        proof {
            assert(out@ =~= out@ + walk.drain_back());
            self.lemma_drain_back();
        }
        out
    }

    /// Pulling from the front until nothing is left gives what was left, in
    /// ascending order, and nothing else.
    pub proof fn lemma_drain_front(self)
        requires
            self.wf(),
        ensures
            self.drain_front() == self@,
            self.drain_front().len() == self.remaining(),
        decreases self.remaining(),
    {
        self.lemma_after_next();
        if self.remaining() > 0 {
            self.after_next().lemma_drain_front();
        }
        assert(self.drain_front() =~= self@);
    }

    /// Pulling from the back until nothing is left gives what was left, in
    /// descending order, and nothing else.
    pub proof fn lemma_drain_back(self)
        requires
            self.wf(),
        ensures
            self.drain_back() == self@.reverse(),
            self.drain_back().len() == self.remaining(),
        decreases self.remaining(),
    {
        self.lemma_after_next_back();
        if self.remaining() > 0 {
            self.after_next_back().lemma_drain_back();
        }
        assert(self.drain_back() =~= self@.reverse());
    }

    /// The two directions agree: what comes from the back is exactly the
    /// reverse of what comes from the front, whatever the count and wherever
    /// the walk stands.
    pub proof fn lemma_back_reverses_front(self)
        requires
            self.wf(),
        ensures
            self.drain_back() == self.drain_front().reverse(),
            self.drain_front() == self.drain_back().reverse(),
            self.drain_back().len() == self.drain_front().len(),
    {
        self.lemma_drain_front();
        self.lemma_drain_back();
        assert(self@.reverse().reverse() =~= self@);
    }

    /// How many fenceposts are left: exactly what the two ends have not
    /// pulled yet.
    pub fn len(&self) -> (r: u128)
        ensures
            self.wf(),
            r == self@.len(),
            r == self.remaining(),
            r == self.count() + 1 - self.front() - self.back(),
    {
        // Because we iterate over `low` *and* `count` number
        // of intervals we need to add one
        (self.count as u128 + 1) - self.idx()
    }
}

} // verus!
