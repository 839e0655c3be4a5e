//! The decisions of the event loop: which event is resolved next, and what
//! resolving it does to the counters and to the queue.
//!
//! The loop itself is run by the caller, which owns the kinematic state. Each
//! turn it asks [`Simulation::next_step`] for the next event, moves the particles
//! to the event's time, applies the collision law, computes the involved
//! particles' candidate collision times, and hands them to
//! [`Simulation::resolve_next_collision`].
use vstd::prelude::*;
use vstd::multiset::Multiset;

use crate::collisions::{
    candidate_event, counts_after, earliest_slot_below, lemma_counts_after, lemma_regenerated_fits,
    new_collisions, timed_particle_slot, wall_collisions, Collision, CollisionQueue, Partner,
};
use crate::particle::Particles;

verus! {

/// What the caller does next.
#[derive(Clone, Copy, PartialEq, Eq, Structural, Debug)]
pub enum Step {
    /// The run is over: the event budget is spent, or the kinetic energy has
    /// fallen to the cutoff.
    Finished,
    /// The queue ran dry before a valid event came up.
    QueueExhausted,
    /// Resolve this event now.
    Resolve(Collision),
}

/// The abstract state of a run.
pub struct SimulationView {
    /// Each particle's collision counter.
    pub counts: Seq<usize>,
    /// The queued events, stale ones included.
    pub events: Multiset<Collision>,
    /// The number of valid events after which the run stops.
    pub number_of_events: nat,
    /// The number of events resolved so far.
    pub resolved: nat,
    /// How many of those were resolved as perfectly elastic by regularization.
    pub tc_events: nat,
}

/// The discrete state of a run: counters, event queue and event budget.
pub struct Simulation {
    particles: Particles,
    queue: CollisionQueue,
    number_of_events: usize,
    resolved: usize,
    tc_events: usize,
}

impl View for Simulation {
    type V = SimulationView;

    closed spec fn view(&self) -> SimulationView {
        SimulationView {
            counts: self.particles@,
            events: self.queue@,
            number_of_events: self.number_of_events as nat,
            resolved: self.resolved as nat,
            tc_events: self.tc_events as nat,
        }
    }
}

impl Simulation {
    /// Every queued event names parties of this population and has snapshots no
    /// later than their counters, no counter exceeds the number of resolved
    /// events, and the budget bounds that number.
    pub closed spec fn well_formed(self) -> bool {
        &&& self.resolved <= self.number_of_events
        &&& self.tc_events <= self.resolved
        &&& self.particles@.len() <= usize::MAX
        &&& forall|i: int|
            0 <= i < self.particles@.len() ==> #[trigger] self.particles@[i] <= self.resolved
        &&& forall|e: Collision| #[trigger]
            self.queue@.count(e) > 0 ==> e.fits(self.particles@.len()) && e.snapshot_within(
                self.particles@,
            )
    }

    /// Every queued event names parties of this population, and neither of its
    /// snapshots exceeds its party's current counter.
    pub proof fn lemma_queued_events(self)
        requires
            self.well_formed(),
        ensures
            forall|e: Collision| #[trigger]
                self@.events.count(e) > 0 ==> e.fits(self@.counts.len()) && e.snapshot_within(
                    self@.counts,
                ),
    {
    }

    /// A run of `n` particles with an empty queue, stopping after
    /// `number_of_events` resolved events.
    pub fn new(n: usize, number_of_events: usize) -> (r: Simulation)
        ensures
            r.well_formed(),
            r@.counts == Seq::new(n as nat, |i: int| 0usize),
            r@.events == Multiset::<Collision>::empty(),
            r@.number_of_events == number_of_events,
            r@.resolved == 0,
            r@.tc_events == 0,
    {
        Simulation {
            particles: Particles::new(n),
            queue: CollisionQueue::new(),
            number_of_events,
            resolved: 0,
            tc_events: 0,
        }
    }

    pub fn get_particles(&self) -> (r: &Particles)
        ensures
            r@ == self@.counts,
    {
        &self.particles
    }

    pub fn get_queue(&self) -> (r: &CollisionQueue)
        ensures
            r@ == self@.events,
    {
        &self.queue
    }

    pub fn get_number_of_events(&self) -> (r: usize)
        ensures
            r == self@.number_of_events,
    {
        self.number_of_events
    }

    pub fn get_resolved(&self) -> (r: usize)
        ensures
            r == self@.resolved,
    {
        self.resolved
    }

    pub fn get_tc_events(&self) -> (r: usize)
        ensures
            r == self@.tc_events,
    {
        self.tc_events
    }

    /// Queues the predicted events of particle `i`; see
    /// [`CollisionQueue::add_new_collisions`].
    pub fn add_new_collisions(&mut self, i: usize, times: &Vec<Option<u64>>)
        requires
            old(self).well_formed(),
            i < old(self)@.counts.len(),
            times@.len() == old(self)@.counts.len() + 2,
        ensures
            final(self).well_formed(),
            final(self)@.events == old(self)@.events.add(
                new_collisions(old(self)@.counts, i, times@),
            ),
            final(self)@.counts == old(self)@.counts,
            final(self)@.number_of_events == old(self)@.number_of_events,
            final(self)@.resolved == old(self)@.resolved,
            final(self)@.tc_events == old(self)@.tc_events,
    {
        let ghost before = self.queue@;
        self.queue.add_new_collisions(&self.particles, i, times);
        proof {
            lemma_regenerated_fits(self.particles@, i, times@, times@.len() as int);
            assert forall|e: Collision| #[trigger] self.queue@.count(e) > 0 implies e.fits(
                self.particles@.len(),
            ) && e.snapshot_within(self.particles@) by {
                broadcast use vstd::multiset::group_multiset_axioms;

                if before.count(e) == 0 {
                    assert(new_collisions(self.particles@, i, times@).count(e) > 0);
                }
            }
        }
    }

    /// Queues the initial events of particle `i`; see
    /// [`CollisionQueue::add_initial_collisions`].
    pub fn add_initial_collisions(&mut self, i: usize, times: &Vec<Option<u64>>)
        requires
            old(self).well_formed(),
            i < old(self)@.counts.len(),
            times@.len() == old(self)@.counts.len() + 2,
        ensures
            final(self).well_formed(),
            final(self)@.counts == old(self)@.counts,
            final(self)@.number_of_events == old(self)@.number_of_events,
            final(self)@.resolved == old(self)@.resolved,
            final(self)@.tc_events == old(self)@.tc_events,
            (forall|k: int| !timed_particle_slot(times@, i, k)) ==> final(self)@.events
                == old(self)@.events.add(wall_collisions(old(self)@.counts, i, times@)),
            (exists|k: int| timed_particle_slot(times@, i, k)) ==> exists|j: int|
                #![trigger earliest_slot_below(times@, i, j, times@.len() as int)]
                earliest_slot_below(times@, i, j, times@.len() as int) && final(self)@.events
                    == old(self)@.events.add(wall_collisions(old(self)@.counts, i, times@)).insert(
                    candidate_event(old(self)@.counts, i, j, times@[j]->0),
                ),
    {
        let ghost before = self.queue@;
        let ghost counts = self.particles@;
        self.queue.add_initial_collisions(&self.particles, i, times);
        proof {
            lemma_regenerated_fits(counts, i, times@, 2);
            assert forall|e: Collision| #[trigger] self.queue@.count(e) > 0 implies e.fits(
                counts.len(),
            ) && e.snapshot_within(counts) by {
                broadcast use vstd::multiset::group_multiset_axioms;

                if before.count(e) == 0 && wall_collisions(counts, i, times@).count(e) == 0 {
                    if exists|k: int| timed_particle_slot(times@, i, k) {
                        let j = choose|j: int| #[trigger]
                            earliest_slot_below(times@, i, j, times@.len() as int)
                                && self.queue@ == before.add(wall_collisions(counts, i, times@)).insert(
                                candidate_event(counts, i, j, times@[j]->0),
                            );
                        assert(e == candidate_event(counts, i, j, times@[j]->0));
                    }
                }
            }
        }
    }

    /// Decides what comes next. The run is over once `number_of_events` events
    /// have been resolved or when `energy_above_cutoff` is false (the caller's
    /// comparison of the kinetic energy with the cutoff). Otherwise events are
    /// popped in scheduling order; each stale one is discarded, and the first
    /// valid one is handed back for resolution. Discarding changes neither the
    /// counters nor the number of resolved events.
    pub fn next_step(&mut self, energy_above_cutoff: bool) -> (r: Step)
        requires
            old(self).well_formed(),
        ensures
            final(self).well_formed(),
            final(self)@.counts == old(self)@.counts,
            final(self)@.number_of_events == old(self)@.number_of_events,
            final(self)@.resolved == old(self)@.resolved,
            final(self)@.tc_events == old(self)@.tc_events,
            (r == Step::Finished) == (old(self)@.resolved >= old(self)@.number_of_events
                || !energy_above_cutoff),
            r == Step::Finished ==> final(self)@.events == old(self)@.events,
            r == Step::QueueExhausted ==> {
                &&& final(self)@.events.len() == 0
                &&& forall|e: Collision| #[trigger]
                    old(self)@.events.count(e) > 0 ==> !e.valid_for(old(self)@.counts)
            },
            match r {
                Step::Resolve(c) => {
                    &&& old(self)@.events.count(c) > 0
                    &&& c.fits(old(self)@.counts.len())
                    &&& c.valid_for(old(self)@.counts)
                    &&& forall|e: Collision| #[trigger]
                        final(self)@.events.count(e) == if e == c {
                            old(self)@.events.count(e) - 1
                        } else if e.precedes(c) {
                            0
                        } else {
                            old(self)@.events.count(e) as int
                        }
                    &&& forall|e: Collision|
                        #![trigger old(self)@.events.count(e), e.precedes(c)]
                        old(self)@.events.count(e) > 0 && e.precedes(c) && e != c ==> !e.valid_for(
                            old(self)@.counts,
                        )
                },
                _ => true,
            },
    {
        if self.resolved >= self.number_of_events || !energy_above_cutoff {
            return Step::Finished;
        }
        let ghost counts = self.particles@;
        let ghost start = self.queue@;
        loop
            invariant
                self.well_formed(),
                self.particles@ == counts,
                self.number_of_events == old(self).number_of_events,
                self.resolved == old(self).resolved,
                self.tc_events == old(self).tc_events,
                self.resolved < self.number_of_events,
                energy_above_cutoff,
                start == old(self)@.events,
                counts == old(self)@.counts,
                forall|e: Collision| #[trigger] self.queue@.count(e) <= start.count(e),
                forall|e: Collision| #[trigger]
                    self.queue@.count(e) < start.count(e) ==> {
                        &&& !e.valid_for(counts)
                        &&& forall|f: Collision| #[trigger]
                            self.queue@.count(f) > 0 ==> e.precedes(f)
                    },
            decreases self.queue@.len(),
        {
            if self.queue.is_empty() {
                proof {
                    assert forall|e: Collision| #[trigger] start.count(e) > 0 implies !e.valid_for(
                        counts,
                    ) by {
                        assert(self.queue@.count(e) == 0) by {
                            broadcast use vstd::multiset::group_multiset_axioms;

                        }
                    }
                }
                return Step::QueueExhausted;
            }
            let ghost before = self.queue@;
            let c = self.queue.pop_next();
            proof {
                broadcast use vstd::multiset::group_multiset_axioms;

                assert(c.fits(counts.len()));
            }
            if c.is_valid(&self.particles) {
                proof {
                    broadcast use vstd::multiset::group_multiset_axioms;

                    assert(before.count(c) == start.count(c));
                    assert forall|e: Collision| #[trigger]
                        self.queue@.count(e) == if e == c {
                            start.count(e) - 1
                        } else if e.precedes(c) {
                            0
                        } else {
                            start.count(e) as int
                        } by {
                        if e != c {
                            crate::collisions::lemma_precedes_total_order(e, c, c);
                            if e.precedes(c) {
                                if before.count(e) > 0 {
                                    assert(c.precedes(e));
                                }
                            } else {
                                if before.count(e) < start.count(e) {
                                    assert(e.precedes(c));
                                }
                            }
                        }
                    }
                    assert forall|e: Collision|
                        #![trigger start.count(e), e.precedes(c)]
                        start.count(e) > 0 && e.precedes(c) && e != c implies !e.valid_for(
                            counts,
                        ) by {
                        crate::collisions::lemma_precedes_total_order(e, c, c);
                        if before.count(e) > 0 {
                            assert(c.precedes(e));
                        }
                        assert(before.count(e) < start.count(e));
                    }
                }
                return Step::Resolve(c);
            }
            proof {
                broadcast use vstd::multiset::group_multiset_axioms;

                assert forall|e: Collision| #[trigger]
                    self.queue@.count(e) < start.count(e) implies {
                        &&& !e.valid_for(counts)
                        &&& forall|f: Collision| #[trigger]
                            self.queue@.count(f) > 0 ==> e.precedes(f)
                    } by {
                    if e != c {
                        assert(before.count(e) < start.count(e));
                    }
                    assert forall|f: Collision| #[trigger] self.queue@.count(f) > 0 implies e.precedes(
                        f,
                    ) by {
                        assert(before.count(f) > 0);
                    }
                }
                assert forall|e: Collision| #[trigger] self.queue@.count(e) > 0 implies e.fits(
                    self.particles@.len(),
                ) by {
                    assert(before.count(e) > 0);
                }
            }
        }
    }

    /// Records the resolution of `c`, which [`Simulation::next_step`] handed out
    /// and whose collision law the caller has applied. The counters of the
    /// parties go up by one, the event counts as resolved (and as regularized
    /// when `regularized` is set), and the predicted events of the real particle,
    /// and of its partner when that is a particle, are queued from `times_1`
    /// and `times_2` with the new counters as their snapshot. `times_2` is not
    /// read for a wall collision. Every event queued before that names a party
    /// of `c` is stale from now on.
    pub fn resolve_next_collision(
        &mut self,
        c: &Collision,
        regularized: bool,
        times_1: &Vec<Option<u64>>,
        times_2: &Vec<Option<u64>>,
    )
        requires
            old(self).well_formed(),
            c.fits(old(self)@.counts.len()),
            c.valid_for(old(self)@.counts),
            old(self)@.resolved < old(self)@.number_of_events,
            times_1@.len() == old(self)@.counts.len() + 2,
            c.particle_2 is Particle ==> times_2@.len() == old(self)@.counts.len() + 2,
        ensures
            final(self).well_formed(),
            final(self)@.counts == counts_after(old(self)@.counts, *c),
            forall|e: Collision, k: int|
                #![trigger old(self)@.events.count(e), e.involves(k)]
                old(self)@.events.count(e) > 0 && c.involves(k) && e.involves(k) ==> !e.valid_for(
                    final(self)@.counts,
                ),
            final(self)@.resolved == old(self)@.resolved + 1,
            final(self)@.tc_events == old(self)@.tc_events + if regularized {
                1int
            } else {
                0int
            },
            final(self)@.number_of_events == old(self)@.number_of_events,
            final(self)@.events == old(self)@.events.add(
                new_collisions(final(self)@.counts, c.particle_1, times_1@),
            ).add(
                match c.particle_2 {
                    Partner::Particle(j) => new_collisions(final(self)@.counts, j, times_2@),
                    _ => Multiset::empty(),
                },
            ),
    {
        let ghost counts = self.particles@;
        let ghost before = self.queue@;
        self.queue.resolve_next_collision(c, &mut self.particles, times_1, times_2);
        self.resolved = self.resolved + 1;
        if regularized {
            self.tc_events = self.tc_events + 1;
        }
        proof {
            let after = self.particles@;
            lemma_counts_after(counts, *c);
            lemma_regenerated_fits(after, c.particle_1, times_1@, times_1@.len() as int);
            let second = match c.particle_2 {
                Partner::Particle(j) => new_collisions(after, j, times_2@),
                _ => Multiset::empty(),
            };
            match c.particle_2 {
                Partner::Particle(j) => {
                    lemma_regenerated_fits(after, j, times_2@, times_2@.len() as int);
                },
                _ => {},
            }
            assert forall|e: Collision| #[trigger] self.queue@.count(e) > 0 implies e.fits(
                after.len(),
            ) && e.snapshot_within(after) by {
                broadcast use vstd::multiset::group_multiset_axioms;

                if before.count(e) == 0 {
                    if new_collisions(after, c.particle_1, times_1@).count(e) == 0 {
                        assert(second.count(e) > 0);
                    }
                } else {
                    assert(counts[e.particle_1 as int] <= after[e.particle_1 as int]);
                    match e.particle_2 {
                        Partner::Particle(j) => {
                            assert(counts[j as int] <= after[j as int]);
                        },
                        _ => {},
                    }
                }
            }
            assert forall|e: Collision, k: int|
                #![trigger before.count(e), e.involves(k)]
                before.count(e) > 0 && c.involves(k) && e.involves(k) implies !e.valid_for(after) by {
                assert(e.snapshot_within(counts));
                assert(0 <= k < counts.len());
                assert(after[k] == counts[k] + 1);
            }
            assert forall|k: int| 0 <= k < after.len() implies #[trigger] after[k] <= self.resolved by {
                assert(counts[k] <= self.resolved - 1);
            }
        }
    }
}

} // verus!
