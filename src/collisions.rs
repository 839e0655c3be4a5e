//! Collision events and the time-ordered queue that holds them.
use vstd::prelude::*;

use crate::heap::{heap_ordered, lemma_root_first, sift_down, sift_up};
use crate::particle::Particles;
use vstd::multiset::Multiset;

verus! {

/// The other party of a collision event.
#[derive(Clone, Copy, PartialEq, Eq, Structural, Debug)]
pub enum Partner {
    /// The walls at y = 0 and y = y_max, struck by the vertical motion.
    HorizontalWall,
    /// The walls at x = 0 and x = x_max, struck by the horizontal motion.
    VerticalWall,
    /// Another particle, by its index in the store.
    Particle(usize),
}

impl Partner {
    /// Names a wall, or a particle of a store of `n` particles.
    pub open spec fn within(self, n: nat) -> bool {
        match self {
            Partner::Particle(j) => j < n,
            _ => true,
        }
    }

    /// Position of the party in the tie-break order: the horizontal wall, the
    /// vertical wall, then the particles by index.
    pub open spec fn rank(self) -> int {
        match self {
            Partner::HorizontalWall => 0,
            Partner::VerticalWall => 1,
            Partner::Particle(j) => j + 2,
        }
    }
}

/// The current counter of a party, given the particles' counters: a wall's
/// counter is always zero.
pub open spec fn party_count(counts: Seq<usize>, party: Partner) -> int {
    match party {
        Partner::Particle(j) => counts[j as int] as int,
        _ => 0,
    }
}

/// A scheduled collision of particle `particle_1` with `particle_2`.
///
/// `time` is the absolute time of the event as an order key: a smaller key is
/// an earlier time. The two counts are the parties' collision counters when the
/// event was predicted; the event is stale once either counter has moved on.
#[derive(Clone, Copy, PartialEq, Eq, Structural, Debug)]
pub struct Collision {
    pub time: u64,
    pub particle_1: usize,
    pub particle_2: Partner,
    pub collision_count_1: usize,
    pub collision_count_2: usize,
}

impl Collision {
    /// The parties are distinct and both exist in a store of `n` particles.
    pub open spec fn fits(self, n: nat) -> bool {
        &&& self.particle_1 < n
        &&& self.particle_2.within(n)
        &&& self.particle_2 != Partner::Particle(self.particle_1)
    }

    /// Particle `k` is a party of the event.
    pub open spec fn involves(self, k: int) -> bool {
        ||| k == self.particle_1
        ||| self.particle_2 == Partner::Particle(k as usize) && 0 <= k <= usize::MAX
    }

    /// Neither snapshot exceeds its party's counter.
    pub open spec fn snapshot_within(self, counts: Seq<usize>) -> bool {
        &&& self.collision_count_1 <= counts[self.particle_1 as int]
        &&& self.collision_count_2 <= party_count(counts, self.particle_2)
    }

    /// Neither party has taken part in a resolved collision since the event was
    /// predicted.
    pub open spec fn valid_for(self, counts: Seq<usize>) -> bool {
        &&& counts[self.particle_1 as int] == self.collision_count_1
        &&& party_count(counts, self.particle_2) == self.collision_count_2
    }

    pub fn get_time(&self) -> (r: u64)
        ensures
            r == self.time,
    {
        self.time
    }

    pub fn get_particle_1(&self) -> (r: usize)
        ensures
            r == self.particle_1,
    {
        self.particle_1
    }

    pub fn get_particle_2(&self) -> (r: Partner)
        ensures
            r == self.particle_2,
    {
        self.particle_2
    }

    /// The snapshot counter of party 1 or party 2.
    pub fn get_collision_count(&self, i: i32) -> (r: usize)
        requires
            i == 1 || i == 2,
        ensures
            i == 1 ==> r == self.collision_count_1,
            i == 2 ==> r == self.collision_count_2,
    {
        if i == 1 {
            self.collision_count_1
        } else {
            self.collision_count_2
        }
    }

    /// The scheduling order: by time key, then by the real particle's index,
    /// then by the other party's rank, then by the two snapshots. It is a total
    /// order on events, so the earliest event of any queue is determined by its
    /// contents alone.
    pub open spec fn precedes(self, other: Collision) -> bool {
        if self.time != other.time {
            self.time < other.time
        } else if self.particle_1 != other.particle_1 {
            self.particle_1 < other.particle_1
        } else if self.particle_2.rank() != other.particle_2.rank() {
            self.particle_2.rank() < other.particle_2.rank()
        } else if self.collision_count_1 != other.collision_count_1 {
            self.collision_count_1 < other.collision_count_1
        } else {
            self.collision_count_2 <= other.collision_count_2
        }
    }

    /// Whether this event comes no later than `other` in the scheduling order.
    pub fn goes_before(&self, other: &Collision) -> (r: bool)
        ensures
            r == self.precedes(*other),
    {
        if self.time != other.time {
            self.time < other.time
        } else if self.particle_1 != other.particle_1 {
            self.particle_1 < other.particle_1
        } else if partner_rank(self.particle_2) != partner_rank(other.particle_2) {
            partner_rank(self.particle_2) < partner_rank(other.particle_2)
        } else if self.collision_count_1 != other.collision_count_1 {
            self.collision_count_1 < other.collision_count_1
        } else {
            self.collision_count_2 <= other.collision_count_2
        }
    }

    /// Whether both snapshot counters still equal the parties' current counters.
    pub fn is_valid(&self, p: &Particles) -> (r: bool)
        requires
            self.fits(p@.len()),
        ensures
            r == self.valid_for(p@),
    {
        p.get_collision_count(Partner::Particle(self.particle_1)) == self.collision_count_1
            && p.get_collision_count(self.particle_2) == self.collision_count_2
    }
}

/// The rank of a party in the tie-break order, as a wide integer.
fn partner_rank(p: Partner) -> (r: u128)
    ensures
        r == p.rank(),
{
    match p {
        Partner::HorizontalWall => 0,
        Partner::VerticalWall => 1,
        Partner::Particle(j) => j as u128 + 2,
    }
}

/// The scheduling order is reflexive, total and transitive.
pub proof fn lemma_precedes_total_order(a: Collision, b: Collision, c: Collision)
    ensures
        a.precedes(a),
        a.precedes(b) || b.precedes(a),
        a.precedes(b) && b.precedes(a) ==> a == b,
        a.precedes(b) && b.precedes(c) ==> a.precedes(c),
{
    if a.precedes(b) && b.precedes(a) {
        assert(a.particle_2.rank() == b.particle_2.rank());
        assert(a.particle_2 == b.particle_2);
    }
}

/// An event of particle `p_1` with `p_2` at time key `t`, with the parties'
/// counters `cc_1` and `cc_2` as its snapshot.
pub fn make_collision(t: u64, p_1: usize, p_2: Partner, cc_1: usize, cc_2: usize) -> (r: Collision)
    ensures
        r == (Collision {
            time: t,
            particle_1: p_1,
            particle_2: p_2,
            collision_count_1: cc_1,
            collision_count_2: cc_2,
        }),
{
    Collision {
        time: t,
        particle_1: p_1,
        particle_2: p_2,
        collision_count_1: cc_1,
        collision_count_2: cc_2,
    }
}

/// The party that slot `j` of a list of candidate times stands for: slot 0 is
/// the horizontal wall, slot 1 the vertical wall, and slot `k + 2` particle `k`.
pub open spec fn partner_in_slot(j: int) -> Partner {
    if j == 0 {
        Partner::HorizontalWall
    } else if j == 1 {
        Partner::VerticalWall
    } else {
        Partner::Particle((j - 2) as usize)
    }
}

/// The party that slot `j` of a list of candidate times stands for.
pub fn slot_partner(j: usize) -> (r: Partner)
    ensures
        r == partner_in_slot(j as int),
{
    if j == 0 {
        Partner::HorizontalWall
    } else if j == 1 {
        Partner::VerticalWall
    } else {
        Partner::Particle(j - 2)
    }
}

/// The event that slot `j` gives for particle `i` at time key `t`, stamped with
/// the parties' current counters.
pub open spec fn candidate_event(counts: Seq<usize>, i: usize, j: int, t: u64) -> Collision {
    Collision {
        time: t,
        particle_1: i,
        particle_2: partner_in_slot(j),
        collision_count_1: counts[i as int],
        collision_count_2: party_count(counts, partner_in_slot(j)) as usize,
    }
}

/// The events that the first `k` slots of `times` give for particle `i`: one for
/// each slot that holds a time, except the slot of `i` itself.
pub open spec fn regenerated(counts: Seq<usize>, i: usize, times: Seq<Option<u64>>, k: int) -> Multiset<
    Collision,
>
    decreases k,
{
    if k <= 0 {
        Multiset::empty()
    } else {
        let prev = regenerated(counts, i, times, k - 1);
        match times[k - 1] {
            Some(t) => if k - 1 != i + 2 {
                prev.insert(candidate_event(counts, i, k - 1, t))
            } else {
                prev
            },
            None => prev,
        }
    }
}

/// The events that a full list of candidate times gives for particle `i`.
pub open spec fn new_collisions(counts: Seq<usize>, i: usize, times: Seq<Option<u64>>) -> Multiset<
    Collision,
> {
    regenerated(counts, i, times, times.len() as int)
}

/// The counters after resolving `c`: the real particle's counter and, for a
/// collision of two particles, the partner's counter each go up by one.
pub open spec fn counts_after(counts: Seq<usize>, c: Collision) -> Seq<usize> {
    let first = counts.update(c.particle_1 as int, (counts[c.particle_1 as int] + 1) as usize);
    match c.particle_2 {
        Partner::Particle(j) => first.update(j as int, (first[j as int] + 1) as usize),
        _ => first,
    }
}

/// Slot `j` is a particle slot of particle `i`'s list that holds a time.
pub open spec fn timed_particle_slot(times: Seq<Option<u64>>, i: usize, j: int) -> bool {
    &&& 2 <= j < times.len()
    &&& j != i + 2
    &&& times[j] is Some
}

/// Among the particle slots of `[2, hi)` that hold a time, slot `j` holds the
/// earliest one, and is the first such slot when several hold that time.
pub open spec fn earliest_slot_below(times: Seq<Option<u64>>, i: usize, j: int, hi: int) -> bool {
    &&& j < hi
    &&& timed_particle_slot(times, i, j)
    &&& forall|k: int|
        #![trigger times[k]]
        k < hi && timed_particle_slot(times, i, k) ==> {
            ||| times[j]->0 < times[k]->0
            ||| times[j]->0 == times[k]->0 && j <= k
        }
}

/// The events of particle `i` against the two walls.
pub open spec fn wall_collisions(counts: Seq<usize>, i: usize, times: Seq<Option<u64>>) -> Multiset<
    Collision,
> {
    regenerated(counts, i, times, 2)
}

/// Two slots never stand for the same party.
proof fn lemma_slots_distinct(j: int, k: int)
    requires
        0 <= j <= usize::MAX + 2,
        0 <= k <= usize::MAX + 2,
        partner_in_slot(j) == partner_in_slot(k),
    ensures
        j == k,
{
    if j >= 2 && k >= 2 {
        assert((j - 2) as usize == (k - 2) as usize);
    }
}

/// Over the first `k` slots: each slot with a time (other than the slot of `i`)
/// gives exactly one event, and nothing else is generated.
proof fn lemma_regenerated(counts: Seq<usize>, i: usize, times: Seq<Option<u64>>, k: int)
    requires
        0 <= k <= times.len(),
        times.len() <= usize::MAX + 2,
    ensures
        forall|j: int|
            #![trigger times[j]]
            0 <= j < k && j != i + 2 && times[j] is Some ==> regenerated(counts, i, times, k).count(
                candidate_event(counts, i, j, times[j]->0),
            ) == 1,
        forall|e: Collision| #[trigger]
            regenerated(counts, i, times, k).count(e) > 0 ==> exists|j: int|
                0 <= j < k && j != i + 2 && times[j] == Some(e.time) && e == candidate_event(
                    counts,
                    i,
                    j,
                    e.time,
                ),
    decreases k,
{
    broadcast use vstd::multiset::group_multiset_axioms;

    if k > 0 {
        lemma_regenerated(counts, i, times, k - 1);
        let prev = regenerated(counts, i, times, k - 1);
        let cur = regenerated(counts, i, times, k);
        match times[k - 1] {
            Some(t) => {
                if k - 1 != i + 2 {
                    let e0 = candidate_event(counts, i, k - 1, t);
                    assert(cur == prev.insert(e0));
                    if prev.count(e0) > 0 {
                        let j = choose|j: int|
                            0 <= j < k - 1 && j != i + 2 && times[j] == Some(e0.time) && e0
                                == candidate_event(counts, i, j, e0.time);
                        lemma_slots_distinct(j, k - 1);
                    }
                    assert forall|j: int|
                        #![trigger times[j]]
                        0 <= j < k && j != i + 2 && times[j] is Some implies cur.count(
                            candidate_event(counts, i, j, times[j]->0),
                        ) == 1 by {
                        if j < k - 1 {
                            let ej = candidate_event(counts, i, j, times[j]->0);
                            if ej == e0 {
                                lemma_slots_distinct(j, k - 1);
                            }
                        }
                    }
                    assert forall|e: Collision| #[trigger] cur.count(e) > 0 implies exists|j: int|
                        0 <= j < k && j != i + 2 && times[j] == Some(e.time) && e
                            == candidate_event(counts, i, j, e.time) by {
                        if e != e0 {
                            assert(prev.count(e) > 0);
                        } else {
                            assert(times[k - 1] == Some(e.time));
                        }
                    }
                }
            },
            None => {},
        }
    }
}

/// Every event generated from the first `k` slots names parties of the store
/// and carries their current counters.
pub(crate) proof fn lemma_regenerated_fits(
    counts: Seq<usize>,
    i: usize,
    times: Seq<Option<u64>>,
    k: int,
)
    requires
        i < counts.len(),
        counts.len() <= usize::MAX,
        times.len() == counts.len() + 2,
        0 <= k <= times.len(),
    ensures
        forall|e: Collision| #[trigger]
            regenerated(counts, i, times, k).count(e) > 0 ==> e.fits(counts.len())
                && e.snapshot_within(counts) && e.valid_for(counts),
{
    lemma_regenerated(counts, i, times, k);
    assert forall|e: Collision| #[trigger]
        regenerated(counts, i, times, k).count(e) > 0 implies e.fits(counts.len())
            && e.snapshot_within(counts) && e.valid_for(counts) by {
        let j = choose|j: int|
            0 <= j < k && j != i + 2 && times[j] == Some(e.time) && e == candidate_event(
                counts,
                i,
                j,
                e.time,
            );
    }
}

/// Regenerating the events of particle `i` yields one event for each wall and
/// each other particle that has a predicted contact, stamped with the parties'
/// current counters, and no other event.
pub proof fn lemma_new_collisions_one_per_party(
    counts: Seq<usize>,
    i: usize,
    times: Seq<Option<u64>>,
)
    requires
        i < counts.len(),
        counts.len() <= usize::MAX,
        times.len() == counts.len() + 2,
    ensures
        forall|j: int|
            #![trigger times[j]]
            0 <= j < times.len() && j != i + 2 && times[j] is Some ==> new_collisions(
                counts,
                i,
                times,
            ).count(candidate_event(counts, i, j, times[j]->0)) == 1,
        forall|e: Collision| #[trigger]
            new_collisions(counts, i, times).count(e) > 0 ==> exists|j: int|
                0 <= j < times.len() && j != i + 2 && times[j] == Some(e.time) && e
                    == candidate_event(counts, i, j, e.time),
{
    lemma_regenerated(counts, i, times, times.len() as int);
}

/// Resolving an event raises the real particle's counter by exactly one, and
/// the partner's by exactly one when the partner is a particle; every other
/// counter is left as it was.
pub proof fn lemma_counts_after(counts: Seq<usize>, c: Collision)
    requires
        c.fits(counts.len()),
        counts[c.particle_1 as int] < usize::MAX,
        party_count(counts, c.particle_2) < usize::MAX,
    ensures
        counts_after(counts, c).len() == counts.len(),
        forall|k: int|
            0 <= k < counts.len() ==> #[trigger] counts_after(counts, c)[k] == counts[k] + if c.involves(
                k,
            ) {
                1int
            } else {
                0int
            },
{
}


/// A stale event stays stale: counters never go down, so once a snapshot falls
/// behind its party's counter it never catches up.
pub proof fn lemma_stale_stays_stale(e: Collision, counts: Seq<usize>, later: Seq<usize>)
    requires
        e.fits(counts.len()),
        e.snapshot_within(counts),
        later.len() == counts.len(),
        forall|k: int| 0 <= k < counts.len() ==> #[trigger] counts[k] <= later[k],
        !e.valid_for(counts),
    ensures
        e.snapshot_within(later),
        !e.valid_for(later),
{
    assert(counts[e.particle_1 as int] <= later[e.particle_1 as int]);
    match e.particle_2 {
        Partner::Particle(j) => {
            assert(counts[j as int] <= later[j as int]);
        },
        _ => {},
    }
}

/// A time-ordered queue of collision events, kept as an array-backed min-heap
/// under the scheduling order of [`Collision::precedes`].
///
/// Entries are never removed except by popping: an event made stale by a later
/// collision stays queued until it comes due, and is then recognised as stale
/// and discarded by the caller.
pub struct CollisionQueue {
    heap: Vec<Collision>,
}

impl View for CollisionQueue {
    type V = Multiset<Collision>;

    closed spec fn view(&self) -> Multiset<Collision> {
        self.heap@.to_multiset()
    }
}

impl CollisionQueue {
    #[verifier::type_invariant]
    spec fn well_formed(self) -> bool {
        heap_ordered(self.heap@)
    }

    /// An empty queue.
    pub fn new() -> (r: CollisionQueue)
        ensures
            r@ == Multiset::<Collision>::empty(),
    {
        let heap: Vec<Collision> = Vec::new();
        proof {
            broadcast use vstd::seq_lib::to_multiset_len;
            broadcast use vstd::multiset::group_multiset_axioms;

            assert(heap@.to_multiset().len() == 0);
            assert(heap@.to_multiset() =~= Multiset::<Collision>::empty());
        }
        CollisionQueue { heap }
    }

    /// Number of queued events, stale ones included.
    pub fn len(&self) -> (r: usize)
        ensures
            r == self@.len(),
    {
        proof {
            broadcast use vstd::seq_lib::to_multiset_len;

        }
        self.heap.len()
    }

    pub fn is_empty(&self) -> (r: bool)
        ensures
            r == (self@.len() == 0),
    {
        proof {
            broadcast use vstd::seq_lib::to_multiset_len;

        }
        self.heap.len() == 0
    }

    /// Adds an event.
    pub fn push_collision(&mut self, c: Collision)
        ensures
            final(self)@ == old(self)@.insert(c),
    {
        proof {
            use_type_invariant(&*self);
        }
        let mut h: Vec<Collision> = Vec::new();
        core::mem::swap(&mut h, &mut self.heap);
        let ghost s = h@;
        h.push(c);
        proof {
            vstd::seq_lib::to_multiset_build(s, c);
            assert forall|i: int| 0 < i < h.len() && i != s.len() implies #[trigger] h@[(i - 1)
                / 2].precedes(h@[i]) by {
                assert(h@[i] == s[i]);
                assert(h@[(i - 1) / 2] == s[(i - 1) / 2]);
            }
        }
        let k = h.len() - 1;
        sift_up(&mut h, k);
        self.heap = h;
    }

    /// Removes and returns the earliest event in the scheduling order.
    pub fn pop_next(&mut self) -> (r: Collision)
        requires
            old(self)@.len() > 0,
        ensures
            old(self)@.count(r) > 0,
            final(self)@ == old(self)@.remove(r),
            forall|e: Collision| old(self)@.count(e) > 0 ==> r.precedes(e),
    {
        proof {
            use_type_invariant(&*self);
            broadcast use vstd::seq_lib::to_multiset_len;

        }
        let mut h: Vec<Collision> = Vec::new();
        core::mem::swap(&mut h, &mut self.heap);
        let ghost s = h@;
        let first = h[0];
        proof {
            broadcast use vstd::seq_lib::to_multiset_contains;

            assert(s.contains(first));
            assert forall|e: Collision| s.to_multiset().count(e) > 0 implies first.precedes(e) by {
                assert(s.contains(e));
                let i = choose|i: int| 0 <= i < s.len() && s[i] == e;
                lemma_root_first(s, i);
            }
        }
        let last = match h.pop() {
            Some(x) => x,
            None => first,
        };
        let ghost rest = h@;
        proof {
            assert(s =~= rest.push(last));
            vstd::seq_lib::to_multiset_build(rest, last);
        }
        if h.len() > 0 {
            h.set(0, last);
            proof {
                vstd::seq_lib::to_multiset_update(rest, 0, last);
                assert(rest[0] == first);
                assert(h@.to_multiset() =~= s.to_multiset().remove(first)) by {
                    broadcast use vstd::multiset::group_multiset_axioms;

                }
                assert forall|i: int| 0 < i < h.len() && (i - 1) / 2 != 0 implies #[trigger] h@[(i
                    - 1) / 2].precedes(h@[i]) by {
                    assert(h@[i] == s[i]);
                    assert(h@[(i - 1) / 2] == s[(i - 1) / 2]);
                }
            }
            sift_down(&mut h, 0);
        } else {
            proof {
                assert(last == first);
                assert(h@.to_multiset() =~= s.to_multiset().remove(first)) by {
                    broadcast use vstd::multiset::group_multiset_axioms;

                }
            }
        }
        self.heap = h;
        first
    }

    /// Queues the predicted events of particle `i`. `times` holds one entry per
    /// slot (see [`slot_partner`]): the time key of the predicted contact, or
    /// `None` where there is none. Each event is stamped with the parties'
    /// current counters; the slot of `i` itself is skipped.
    pub fn add_new_collisions(&mut self, particles: &Particles, i: usize, times: &Vec<Option<u64>>)
        requires
            i < particles@.len(),
            times@.len() == particles@.len() + 2,
        ensures
            final(self)@ == old(self)@.add(new_collisions(particles@, i, times@)),
    {
        let ghost counts = particles@;
        let ghost start = self@;
        let cc_1 = particles.get_collision_count(Partner::Particle(i));
        proof {
            assert(start.add(regenerated(counts, i, times@, 0)) =~= start) by {
                broadcast use vstd::multiset::group_multiset_axioms;

            }
        }
        let mut j: usize = 0;
        while j < times.len()
            invariant
                j <= times.len(),
                times@.len() == counts.len() + 2,
                i < counts.len(),
                counts == particles@,
                cc_1 == counts[i as int],
                self@ == start.add(regenerated(counts, i, times@, j as int)),
            decreases times.len() - j,
        {
            if j != i + 2 {
                match times[j] {
                    Some(t) => {
                        let partner = slot_partner(j);
                        let cc_2 = particles.get_collision_count(partner);
                        let c = make_collision(t, i, partner, cc_1, cc_2);
                        assert(c == candidate_event(counts, i, j as int, t));
                        self.push_collision(c);
                        assert(self@ =~= start.add(regenerated(counts, i, times@, j + 1))) by {
                            broadcast use vstd::multiset::group_multiset_axioms;

                        }
                    },
                    None => {
                        assert(regenerated(counts, i, times@, j + 1) == regenerated(
                            counts,
                            i,
                            times@,
                            j as int,
                        ));
                    },
                }
            } else {
                assert(regenerated(counts, i, times@, j + 1) == regenerated(
                    counts,
                    i,
                    times@,
                    j as int,
                ));
            }
            j += 1;
        }
    }

    /// Queues the initial events of particle `i`: its events against the two
    /// walls, and its event with the particle it would meet first (the earliest
    /// time among the particle slots, the lowest slot on a tie), if any.
    /// `times` is laid out as for [`CollisionQueue::add_new_collisions`].
    pub fn add_initial_collisions(&mut self, particles: &Particles, i: usize, times: &Vec<Option<u64>>)
        requires
            i < particles@.len(),
            times@.len() == particles@.len() + 2,
        ensures
            (forall|k: int| !timed_particle_slot(times@, i, k)) ==> final(self)@ == old(self)@.add(
                wall_collisions(particles@, i, times@),
            ),
            (exists|k: int| timed_particle_slot(times@, i, k)) ==> exists|j: int|
                #![trigger earliest_slot_below(times@, i, j, times@.len() as int)]
                earliest_slot_below(times@, i, j, times@.len() as int) && final(self)@ == old(
                    self,
                )@.add(wall_collisions(particles@, i, times@)).insert(
                    candidate_event(particles@, i, j, times@[j]->0),
                ),
    {
        let ghost counts = particles@;
        let ghost start = self@;
        let cc_1 = particles.get_collision_count(Partner::Particle(i));
        proof {
            assert(start.add(regenerated(counts, i, times@, 0)) =~= start) by {
                broadcast use vstd::multiset::group_multiset_axioms;

            }
        }
        let mut j: usize = 0;
        while j < 2
            invariant
                j <= 2,
                times@.len() == counts.len() + 2,
                i < counts.len(),
                counts == particles@,
                cc_1 == counts[i as int],
                self@ == start.add(regenerated(counts, i, times@, j as int)),
            decreases 2 - j,
        {
            match times[j] {
                Some(t) => {
                    let c = make_collision(t, i, slot_partner(j), cc_1, 0);
                    assert(c == candidate_event(counts, i, j as int, t));
                    self.push_collision(c);
                    assert(self@ =~= start.add(regenerated(counts, i, times@, j + 1))) by {
                        broadcast use vstd::multiset::group_multiset_axioms;

                    }
                },
                None => {
                    assert(regenerated(counts, i, times@, j + 1) == regenerated(
                        counts,
                        i,
                        times@,
                        j as int,
                    ));
                },
            }
            j += 1;
        }
        let mut best: Option<(usize, u64)> = None;
        let mut k: usize = 2;
        while k < times.len()
            invariant
                2 <= k <= times.len(),
                times@.len() == counts.len() + 2,
                i < counts.len(),
                best is None ==> forall|m: int| m < k ==> !timed_particle_slot(times@, i, m),
                best matches Some((b, tb)) ==> earliest_slot_below(times@, i, b as int, k as int)
                    && times@[b as int] == Some(tb),
            decreases times.len() - k,
        {
            if k != i + 2 {
                match times[k] {
                    Some(t) => {
                        match best {
                            None => {
                                best = Some((k, t));
                            },
                            Some((_, tb)) => {
                                if t < tb {
                                    best = Some((k, t));
                                }
                            },
                        }
                    },
                    None => {},
                }
            }
            k += 1;
        }
        match best {
            Some((b, tb)) => {
                let partner = slot_partner(b);
                let cc_2 = particles.get_collision_count(partner);
                let c = make_collision(tb, i, partner, cc_1, cc_2);
                assert(c == candidate_event(counts, i, b as int, tb));
                self.push_collision(c);
                assert(earliest_slot_below(times@, i, b as int, times@.len() as int));
            },
            None => {},
        }
    }

    /// Completes the resolution of `c`, whose collision law the caller has
    /// applied to the velocities: the counters of the parties go up by one,
    /// and the predicted events of the real particle, and of its partner when
    /// that is a particle, are queued from `times_1` and `times_2` with the new
    /// counters as their snapshot. `times_2` is not read for a wall collision.
    pub fn resolve_next_collision(
        &mut self,
        c: &Collision,
        particles: &mut Particles,
        times_1: &Vec<Option<u64>>,
        times_2: &Vec<Option<u64>>,
    )
        requires
            c.fits(old(particles)@.len()),
            old(particles)@[c.particle_1 as int] < usize::MAX,
            party_count(old(particles)@, c.particle_2) < usize::MAX,
            times_1@.len() == old(particles)@.len() + 2,
            c.particle_2 is Particle ==> times_2@.len() == old(particles)@.len() + 2,
        ensures
            final(particles)@ == counts_after(old(particles)@, *c),
            final(self)@ == old(self)@.add(new_collisions(final(particles)@, c.particle_1, times_1@)).add(
                match c.particle_2 {
                    Partner::Particle(j) => new_collisions(final(particles)@, j, times_2@),
                    _ => Multiset::empty(),
                },
            ),
    {
        let ghost counts = particles@;
        particles.increment_collision_count(c.particle_1);
        match c.particle_2 {
            Partner::Particle(j) => {
                particles.increment_collision_count(j);
            },
            _ => {},
        }
        assert(particles@ =~= counts_after(counts, *c));
        self.add_new_collisions(particles, c.particle_1, times_1);
        match c.particle_2 {
            Partner::Particle(j) => {
                self.add_new_collisions(particles, j, times_2);
            },
            _ => {
                assert(self@ =~= self@.add(Multiset::empty())) by {
                    broadcast use vstd::multiset::group_multiset_axioms;

                }
            },
        }
    }

    /// The queued events in heap order, which is not the scheduling order.
    pub fn get_heap(&self) -> (r: &Vec<Collision>)
        ensures
            r@.to_multiset() == self@,
    {
        &self.heap
    }
}

} // verus!
