use vstd::prelude::*;

verus! {

/// One operation on the activity counter.
#[derive(Clone, Copy, Debug, PartialEq, Eq, Structural)]
pub enum TrackerOp {
    /// A compare task was created.
    Push,
    /// A compare task finished its pass.
    Pop,
}

/// The counter's value after `op` is applied to `v`.
pub open spec fn apply(v: int, op: TrackerOp) -> int {
    match op {
        TrackerOp::Push => v + 1,
        TrackerOp::Pop => v - 1,
    }
}

/// Whether `op`, applied to `v`, is the pop that drives the counter from one to zero.
pub open spec fn observes_quiescence(v: int, op: TrackerOp) -> bool {
    op == TrackerOp::Pop && v == 1
}

/// Counts the compare tasks that were created and have not finished their
/// pass. A run starts it at one, for the root pair; the pop that brings it
/// from one to zero tells its caller that no work is left anywhere.
pub struct ActivityTracker {
    processing_dirs: i64,
    start: Ghost<int>,
    history: Ghost<Seq<TrackerOp>>,
}

impl View for ActivityTracker {
    type V = int;

    closed spec fn view(&self) -> int {
        self.processing_dirs as int
    }
}

impl ActivityTracker {
    /// The value the counter was created with.
    pub closed spec fn start(&self) -> int {
        self.start@
    }

    /// Every push and pop made on the counter since it was created, in order.
    pub closed spec fn history(&self) -> Seq<TrackerOp> {
        self.history@
    }

    /// The counter holds what its history gives from its start.
    pub open spec fn wf(&self) -> bool {
        self@ == counter_after(self.start(), self.history())
    }

    pub fn new(val: i64) -> (r: ActivityTracker)
        ensures
            r.wf(),
            r@ == val as int,
            r.start() == val as int,
            r.history() == Seq::<TrackerOp>::empty(),
    {
        ActivityTracker { processing_dirs: val, start: Ghost(val as int), history: Ghost(Seq::empty()) }
    }

    /// The current value of the counter.
    pub fn outstanding(&self) -> (r: i64)
        ensures
            r as int == self@,
    {
        self.processing_dirs
    }

    /// Counts one more compare task.
    pub fn push(&mut self)
        requires
            old(self).wf(),
            old(self)@ < i64::MAX,
        ensures
            final(self).wf(),
            final(self)@ == apply(old(self)@, TrackerOp::Push),
            final(self).start() == old(self).start(),
            final(self).history() == old(self).history().push(TrackerOp::Push),
    {
        self.processing_dirs = self.processing_dirs + 1;
        self.history = Ghost(self.history@.push(TrackerOp::Push));
        proof {
            assert(self.history@.drop_last() =~= old(self).history@);
        }
    }

    /// Counts one compare task as finished; true exactly when the value before
    /// was one, that is when this call brought the counter to zero.
    pub fn pop(&mut self) -> (r: bool)
        requires
            old(self).wf(),
            old(self)@ > i64::MIN,
        ensures
            final(self).wf(),
            final(self)@ == apply(old(self)@, TrackerOp::Pop),
            final(self).start() == old(self).start(),
            final(self).history() == old(self).history().push(TrackerOp::Pop),
            r == observes_quiescence(old(self)@, TrackerOp::Pop),
    {
        let prev = self.processing_dirs;
        self.processing_dirs = prev - 1;
        self.history = Ghost(self.history@.push(TrackerOp::Pop));
        proof {
            assert(self.history@.drop_last() =~= old(self).history@);
        }
        prev == 1
    }
}

/// Over the life of a counter that a run started at one, with every push and
/// pop made while some compare task was outstanding: the value is one plus
/// its pushes minus its pops, and exactly one pop saw it drop from one to
/// zero if it stands at zero now, none otherwise.
pub proof fn lemma_tracker_quiescence(t: &ActivityTracker)
    requires
        t.wf(),
        t.start() == 1,
        disciplined(t.history()),
    ensures
        t@ == 1 + count_of(t.history(), TrackerOp::Push) - count_of(t.history(), TrackerOp::Pop),
        0 <= quiescence_observations(t.history()) <= 1,
        (quiescence_observations(t.history()) == 1) == (t@ == 0),
{
    lemma_quiescence_observed_once(t.history());
}

/// The counter's value after the operations `ops`, applied in order from `start`.
pub open spec fn counter_after(start: int, ops: Seq<TrackerOp>) -> int
    decreases ops.len(),
{
    if ops.len() == 0 {
        start
    } else {
        apply(counter_after(start, ops.drop_last()), ops.last())
    }
}

pub open spec fn count_of(ops: Seq<TrackerOp>, op: TrackerOp) -> int
    decreases ops.len(),
{
    if ops.len() == 0 {
        0
    } else {
        count_of(ops.drop_last(), op) + if ops.last() == op { 1int } else { 0int }
    }
}

/// How many operations of a run that starts at one observe the drop from one to zero.
pub open spec fn quiescence_observations(ops: Seq<TrackerOp>) -> int
    decreases ops.len(),
{
    if ops.len() == 0 {
        0
    } else {
        quiescence_observations(ops.drop_last()) + if observes_quiescence(
            counter_after(1, ops.drop_last()),
            ops.last(),
        ) {
            1int
        } else {
            0int
        }
    }
}

/// A run that starts at one keeps the counting discipline when every
/// operation is made while some compare task is still outstanding: a task is
/// created by a pass that has not finished yet, and a pass finishes only once.
pub open spec fn disciplined(ops: Seq<TrackerOp>) -> bool {
    forall|i: int| 0 <= i < ops.len() ==> counter_after(1, #[trigger] ops.take(i)) >= 1
}

/// Over a disciplined run that starts at one: the counter is one plus the
/// pushes minus the pops; at most one pop observes the drop from one to zero,
/// and one does exactly when the run has drained, which is when the pops
/// number the pushes plus the root task.
pub proof fn lemma_quiescence_observed_once(ops: Seq<TrackerOp>)
    requires
        disciplined(ops),
    ensures
        counter_after(1, ops) == 1 + count_of(ops, TrackerOp::Push) - count_of(ops, TrackerOp::Pop),
        0 <= quiescence_observations(ops) <= 1,
        (quiescence_observations(ops) == 1) == (counter_after(1, ops) == 0),
        (counter_after(1, ops) == 0) == (count_of(ops, TrackerOp::Pop) == count_of(ops, TrackerOp::Push) + 1),
    decreases ops.len(),
{
    if ops.len() > 0 {
        let p = ops.drop_last();
        assert forall|i: int| 0 <= i < p.len() implies counter_after(1, #[trigger] p.take(i)) >= 1 by {
            assert(p.take(i) =~= ops.take(i));
            assert(counter_after(1, ops.take(i)) >= 1);
        }
        lemma_quiescence_observed_once(p);
        assert(ops.take(ops.len() - 1) =~= p);
        assert(counter_after(1, ops.take(ops.len() - 1)) >= 1);
    }
}

} // verus!
