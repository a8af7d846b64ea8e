//! Tracking of work that moves between queues.
use vstd::prelude::*;

verus! {

/// One more, going round from the largest number to zero.
pub open spec fn next_generation(generation: usize) -> usize {
    if generation < usize::MAX {
        (generation + 1) as usize
    } else {
        0
    }
}

/// Whether `after` comes `n` generations behind `before`.
pub open spec fn later(before: usize, after: usize, n: int) -> bool {
    after == before + n || after == before + n - usize::MAX - 1
}

/// One generation more.
pub proof fn lemma_later(before: usize, after: usize, n: int)
    requires
        later(before, after, n),
        0 <= n <= usize::MAX,
    ensures
        later(before, next_generation(after), n + 1),
{
}

/// Tracks work moving between the queues of a channel.
///
/// A publication counts a new generation before it leaves the moving work, so
/// an unchanged generation without moving work proves an empty scan stable.
#[derive(Debug, PartialEq, Eq, Structural)]
pub struct PublicationTracker {
    /// Completed publications.
    pub generation: usize,
    /// Publications that have begun and not ended.
    pub in_flight: usize,
}

impl PublicationTracker {
    /// The tracker after a publication has begun.
    pub open spec fn after_begin(self) -> PublicationTracker {
        PublicationTracker {
            generation: self.generation,
            in_flight: (self.in_flight + 1) as usize,
        }
    }

    /// The tracker after a change was counted.
    pub open spec fn after_change(self) -> PublicationTracker {
        PublicationTracker {
            generation: next_generation(self.generation),
            in_flight: self.in_flight,
        }
    }

    /// The tracker after a publication has ended.
    pub open spec fn after_finish(self) -> PublicationTracker {
        PublicationTracker {
            generation: next_generation(self.generation),
            in_flight: (self.in_flight - 1) as usize,
        }
    }

    /// A tracker without publications.
    pub fn new() -> (tracker: PublicationTracker)
        ensures
            tracker.generation == 0,
            tracker.in_flight == 0,
    {
        PublicationTracker { generation: 0, in_flight: 0 }
    }

    /// The generation to compare with later.
    pub fn snapshot(&self) -> (generation: usize)
        ensures
            generation == self.generation,
    {
        self.generation
    }

    /// Begin a publication.
    pub fn begin(&mut self)
        requires
            old(self).in_flight < usize::MAX,
        ensures
            *final(self) == old(self).after_begin(),
    {
        self.in_flight = self.in_flight + 1;
    }

    /// Whether a publication has completed since the snapshot.
    pub fn changed_since(&self, snapshot: usize) -> (changed: bool)
        ensures
            changed == (self.generation != snapshot),
    {
        self.generation != snapshot
    }

    /// Whether work is moving right now.
    pub fn is_in_flight(&self) -> (moving: bool)
        ensures
            moving == (self.in_flight != 0),
    {
        self.in_flight != 0
    }

    /// Count a change.
    pub fn notify_change(&mut self)
        ensures
            *final(self) == old(self).after_change(),
    {
        self.generation = self.generation.wrapping_add(1);
    }

    /// End a publication: count the change first, then leave the moving work.
    pub fn finish(&mut self)
        requires
            old(self).in_flight > 0,
        ensures
            *final(self) == old(self).after_finish(),
    {
        self.notify_change();
        self.in_flight = self.in_flight - 1;
    }
}

/// One atomic step of some publisher.
pub enum Step {
    /// A publication begins.
    Begin,
    /// A change is counted, by a publication about to end or on its own.
    Change,
    /// A publication that has counted its change leaves the moving work.
    Leave,
}

/// A tracker among publishers that run side by side.
pub struct History {
    /// The tracker.
    pub tracker: PublicationTracker,
    /// Publications that have counted their change and not left yet.
    pub leaving: nat,
    /// Changes counted since the snapshot was taken.
    pub changes: nat,
    /// Whether work was moving at any moment since the snapshot, the first included.
    pub moved: bool,
}

impl History {
    /// A scan begins: the snapshot is taken.
    pub open spec fn start(tracker: PublicationTracker, leaving: nat) -> History {
        History { tracker, leaving, changes: 0, moved: tracker.in_flight > leaving }
    }

    /// What one step does. A step that cannot happen changes nothing.
    pub open spec fn after(self, step: Step) -> History {
        match step {
            Step::Begin => if self.tracker.in_flight < usize::MAX {
                History { tracker: self.tracker.after_begin(), moved: true, ..self }
            } else {
                self
            },
            Step::Change => if self.leaving < self.tracker.in_flight {
                History {
                    tracker: self.tracker.after_change(),
                    leaving: self.leaving + 1,
                    changes: self.changes + 1,
                    ..self
                }
            } else {
                History {
                    tracker: self.tracker.after_change(),
                    changes: self.changes + 1,
                    ..self
                }
            },
            Step::Leave => if self.leaving > 0 {
                History {
                    tracker: PublicationTracker {
                        generation: self.tracker.generation,
                        in_flight: (self.tracker.in_flight - 1) as usize,
                    },
                    leaving: (self.leaving - 1) as nat,
                    ..self
                }
            } else {
                self
            },
        }
    }

    /// What many steps do.
    pub open spec fn run(self, steps: Seq<Step>) -> History
        decreases steps.len(),
    {
        if steps.len() == 0 {
            self
        } else {
            self.run(steps.drop_last()).after(steps.last())
        }
    }
}

proof fn lemma_run(start: History, steps: Seq<Step>)
    requires
        start.leaving <= start.tracker.in_flight,
        start.changes == 0,
        start.moved == (start.tracker.in_flight > start.leaving),
        steps.len() <= usize::MAX,
    ensures
        ({
            let end = start.run(steps);
            &&& end.leaving <= end.tracker.in_flight
            &&& end.changes <= steps.len()
            &&& end.tracker.generation == if start.tracker.generation + end.changes
                <= usize::MAX {
                start.tracker.generation + end.changes
            } else {
                start.tracker.generation + end.changes - usize::MAX - 1
            }
            &&& end.changes == 0 && end.tracker.in_flight == 0 ==> !end.moved
            &&& end.changes == 0 ==> (end.moved ==> end.tracker.in_flight > end.leaving)
        }),
    decreases steps.len(),
{
    if steps.len() > 0 {
        lemma_run(start, steps.drop_last());
    }
}

/// A scan that starts with a snapshot and ends with the same generation and no
/// work in flight was not overlapped by moving work at any moment, whatever
/// publishers did meanwhile.
pub proof fn law_quiet_scan_is_stable(
    tracker: PublicationTracker,
    leaving: nat,
    steps: Seq<Step>,
)
    requires
        leaving <= tracker.in_flight,
        steps.len() <= usize::MAX,
        History::start(tracker, leaving).run(steps).tracker.generation == tracker.generation,
        History::start(tracker, leaving).run(steps).tracker.in_flight == 0,
    ensures
        !History::start(tracker, leaving).run(steps).moved,
{
    lemma_run(History::start(tracker, leaving), steps);
}

} // verus!
