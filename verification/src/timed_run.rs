//! A time-stamp counter lent together with the ring it times, and the record of what
//! was done through them.
use crate::pointer_chasing::{chase_iterations, links_in_range, successors, walk, PaddedNode};
use crate::util::TscSource;
use vstd::prelude::*;

verus! {

/// One step of a timed run: a counter read with the value it gave, or a walk of
/// `steps` links of the ring from node `from`.
pub enum TimedEvent {
    Start(u64),
    End(u64),
    Walk(usize, usize),
}

/// A time-stamp counter and the ring it times, together with the record of what was done
/// with them: every read of the counter and every walk of the ring, in order.
///
/// While the run holds them, the counter can only be read and the ring only be walked
/// through the run's methods, each of which adds its step to the record.
pub struct TimedRun<C> {
    counter: C,
    ring: Vec<PaddedNode>,
    events: Ghost<Seq<TimedEvent>>,
}

impl<C: TscSource> TimedRun<C> {
    /// What was done through this run so far, in order.
    pub closed spec fn history(&self) -> Seq<TimedEvent> {
        self.events@
    }

    /// The nodes of the ring that the run holds.
    pub closed spec fn ring(&self) -> Seq<PaddedNode> {
        self.ring@
    }

    /// Lends `counter` and `ring` to a new run, with nothing done yet.
    pub fn new(counter: C, ring: Vec<PaddedNode>) -> (run: Self)
        ensures
            run.history() == Seq::<TimedEvent>::empty(),
            run.ring() == ring@,
    {
        TimedRun { counter, ring, events: Ghost(Seq::empty()) }
    }

    /// Ends the run and hands back the counter and the ring, unchanged.
    pub fn into_parts(self) -> (parts: (C, Vec<PaddedNode>))
        ensures
            parts.1@ == self.ring(),
    {
        (self.counter, self.ring)
    }

    /// Reads the counter before the timed code.
    pub fn read_start(&mut self) -> (value: u64)
        ensures
            final(self).history() == old(self).history().push(TimedEvent::Start(value)),
            final(self).ring() == old(self).ring(),
    {
        let value = self.counter.tsc_start();
        self.events = Ghost(self.events@.push(TimedEvent::Start(value)));
        value
    }

    /// Reads the counter after the timed code.
    pub fn read_end(&mut self) -> (value: u64)
        ensures
            final(self).history() == old(self).history().push(TimedEvent::End(value)),
            final(self).ring() == old(self).ring(),
    {
        let value = self.counter.tsc_end();
        self.events = Ghost(self.events@.push(TimedEvent::End(value)));
        value
    }

    /// Follows `steps` links of the ring from `from`, as the timed code.
    pub fn chase(&mut self, from: usize, steps: usize) -> (node: usize)
        requires
            from < old(self).ring().len(),
            links_in_range(successors(old(self).ring())),
        ensures
            node < old(self).ring().len(),
            node == walk(successors(old(self).ring()), from as int, steps as nat),
            final(self).history() == old(self).history().push(TimedEvent::Walk(from, steps)),
            final(self).ring() == old(self).ring(),
    {
        let node = chase_iterations(&self.ring, from, steps);
        self.events = Ghost(self.events@.push(TimedEvent::Walk(from, steps)));
        node
    }
}

} // verus!
