//! The discrete part of the particle store: one collision counter per particle.
use vstd::prelude::*;

use crate::collisions::{party_count, Partner};

verus! {

/// Collision counters of a fixed population of particles.
///
/// A counter starts at zero and is raised by one each time its particle takes
/// part in a resolved collision. The number of particles never changes.
pub struct Particles {
    collision_count: Vec<usize>,
}

impl View for Particles {
    type V = Seq<usize>;

    closed spec fn view(&self) -> Seq<usize> {
        self.collision_count@
    }
}

impl Particles {
    /// `n` particles, none of which has collided yet.
    pub fn new(n: usize) -> (r: Particles)
        ensures
            r@ == Seq::new(n as nat, |i: int| 0usize),
    {
        let mut collision_count: Vec<usize> = Vec::new();
        let mut k: usize = 0;
        while k < n
            invariant
                k <= n,
                collision_count@ == Seq::new(k as nat, |i: int| 0usize),
            decreases n - k,
        {
            collision_count.push(0);
            k += 1;
            assert(collision_count@ =~= Seq::new(k as nat, |i: int| 0usize));
        }
        Particles { collision_count }
    }

    pub fn get_len(&self) -> (r: usize)
        ensures
            r == self@.len(),
    {
        self.collision_count.len()
    }

    /// Current counter of a particle, or zero for a wall.
    pub fn get_collision_count(&self, index: Partner) -> (r: usize)
        requires
            index.within(self@.len()),
        ensures
            r == party_count(self@, index),
    {
        match index {
            Partner::HorizontalWall => 0,
            Partner::VerticalWall => 0,
            Partner::Particle(j) => self.collision_count[j],
        }
    }

    /// Raises the counter of particle `i` by one.
    pub fn increment_collision_count(&mut self, i: usize)
        requires
            i < old(self)@.len(),
            old(self)@[i as int] < usize::MAX,
        ensures
            final(self)@ == old(self)@.update(i as int, (old(self)@[i as int] + 1) as usize),
    {
        let c = self.collision_count[i];
        self.collision_count.set(i, c + 1);
    }
}

/// Number of particles in the species before species `k`, when the species
/// are laid out one after another with `n_arr[s]` particles in species `s`.
pub open spec fn population_before(n_arr: Seq<usize>, k: int) -> int
    decreases k,
{
    if k <= 0 {
        0
    } else {
        population_before(n_arr, k - 1) + n_arr[k - 1]
    }
}

proof fn lemma_population_grows(n_arr: Seq<usize>, j: int, k: int)
    requires
        0 <= j <= k <= n_arr.len(),
    ensures
        0 <= population_before(n_arr, j) <= population_before(n_arr, k),
    decreases k,
{
    if j < k {
        lemma_population_grows(n_arr, j, k - 1);
    } else if j > 0 {
        lemma_population_grows(n_arr, j - 1, j - 1);
    }
}

/// Index of the first particle of each species, followed by the whole
/// population; `None` when the population does not fit in `usize`.
pub fn species_offsets(n_arr: &Vec<usize>) -> (r: Option<Vec<usize>>)
    ensures
        r is Some <==> population_before(n_arr@, n_arr@.len() as int) <= usize::MAX,
        r matches Some(v) ==> {
            &&& v@.len() == n_arr@.len() + 1
            &&& forall|k: int| 0 <= k <= n_arr@.len() ==> #[trigger] v@[k] == population_before(n_arr@, k)
        },
{
    let mut v: Vec<usize> = Vec::new();
    v.push(0);
    let mut total: usize = 0;
    let mut k: usize = 0;
    while k < n_arr.len()
        invariant
            k <= n_arr.len(),
            total == population_before(n_arr@, k as int),
            v@.len() == k + 1,
            forall|s: int| 0 <= s <= k ==> #[trigger] v@[s] == population_before(n_arr@, s),
        decreases n_arr.len() - k,
    {
        match total.checked_add(n_arr[k]) {
            Some(t) => {
                total = t;
            },
            None => {
                proof {
                    lemma_population_grows(n_arr@, k as int + 1, n_arr@.len() as int);
                }
                return None;
            },
        }
        v.push(total);
        k += 1;
    }
    proof {
        lemma_population_grows(n_arr@, 0, n_arr@.len() as int);
    }
    Some(v)
}

} // verus!
