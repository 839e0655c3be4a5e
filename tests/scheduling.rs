use hard_disks::collisions::{make_collision, slot_partner, Collision, CollisionQueue, Partner};
use hard_disks::particle::{species_offsets, Particles};
use hard_disks::simulation::{Simulation, Step};
use hard_disks::time::{time_bits, time_key};

fn key(t: f64) -> u64 {
    time_key(t.to_bits())
}

fn no_times(n: usize) -> Vec<Option<u64>> {
    vec![None; n + 2]
}

#[test]
fn queue_pops_in_time_order() {
    let mut q = CollisionQueue::new();
    let times = [0.7, 0.1, 0.5, 0.3, 0.9, 0.2];
    for (k, t) in times.iter().enumerate() {
        q.push_collision(make_collision(key(*t), k, Partner::HorizontalWall, 0, 0));
    }
    assert_eq!(q.len(), 6);
    let mut popped = Vec::new();
    while !q.is_empty() {
        popped.push(f64::from_bits(time_bits(q.pop_next().get_time())));
    }
    assert_eq!(popped, vec![0.1, 0.2, 0.3, 0.5, 0.7, 0.9]);
}

#[test]
fn queue_breaks_ties_by_particle_then_party() {
    let mut q = CollisionQueue::new();
    let t = key(1.0);
    q.push_collision(make_collision(t, 3, Partner::HorizontalWall, 0, 0));
    q.push_collision(make_collision(t, 1, Partner::Particle(0), 0, 0));
    q.push_collision(make_collision(t, 1, Partner::VerticalWall, 0, 0));
    q.push_collision(make_collision(t, 1, Partner::HorizontalWall, 0, 0));
    let order: Vec<(usize, Partner)> = (0..4)
        .map(|_| {
            let c = q.pop_next();
            (c.get_particle_1(), c.get_particle_2())
        })
        .collect();
    assert_eq!(
        order,
        vec![
            (1, Partner::HorizontalWall),
            (1, Partner::VerticalWall),
            (1, Partner::Particle(0)),
            (3, Partner::HorizontalWall),
        ]
    );
}

#[test]
fn heap_holds_every_pushed_event() {
    let mut q = CollisionQueue::new();
    for k in 0..10usize {
        q.push_collision(make_collision(key(10.0 - k as f64), k, Partner::VerticalWall, 0, 0));
    }
    assert_eq!(q.get_heap().len(), 10);
    assert_eq!(q.get_heap()[0].get_particle_1(), 9);
}

#[test]
fn collision_reports_its_snapshot() {
    let c = make_collision(key(2.0), 4, Partner::Particle(7), 3, 5);
    assert_eq!(c.get_collision_count(1), 3);
    assert_eq!(c.get_collision_count(2), 5);
    assert_eq!(c.get_particle_1(), 4);
    assert_eq!(c.get_particle_2(), Partner::Particle(7));
}

#[test]
fn event_goes_stale_when_a_party_collides() {
    let mut p = Particles::new(3);
    let c = make_collision(key(1.0), 0, Partner::Particle(2), 0, 0);
    let w = make_collision(key(1.0), 1, Partner::VerticalWall, 0, 0);
    assert!(c.is_valid(&p));
    assert!(w.is_valid(&p));
    p.increment_collision_count(2);
    assert!(!c.is_valid(&p));
    assert!(w.is_valid(&p));
    assert_eq!(p.get_collision_count(Partner::Particle(2)), 1);
    assert_eq!(p.get_collision_count(Partner::HorizontalWall), 0);
    assert_eq!(p.get_len(), 3);
}

#[test]
fn slots_name_walls_then_particles() {
    assert_eq!(slot_partner(0), Partner::HorizontalWall);
    assert_eq!(slot_partner(1), Partner::VerticalWall);
    assert_eq!(slot_partner(2), Partner::Particle(0));
    assert_eq!(slot_partner(5), Partner::Particle(3));
}

#[test]
fn new_collisions_one_per_party_with_a_time() {
    let mut s = Simulation::new(3, 10);
    let times = vec![Some(key(0.4)), Some(key(0.6)), Some(key(0.2)), Some(key(0.1)), None];
    s.add_new_collisions(1, &times);
    // Walls and particle 0; the slot of particle 1 itself and the empty slot give nothing.
    assert_eq!(s.get_queue().len(), 3);
    let heap: Vec<Collision> = s.get_queue().get_heap().clone();
    assert!(heap.contains(&make_collision(key(0.4), 1, Partner::HorizontalWall, 0, 0)));
    assert!(heap.contains(&make_collision(key(0.6), 1, Partner::VerticalWall, 0, 0)));
    assert!(heap.contains(&make_collision(key(0.2), 1, Partner::Particle(0), 0, 0)));
}

#[test]
fn initial_collisions_keep_the_nearest_particle() {
    let mut s = Simulation::new(4, 10);
    let times = vec![
        Some(key(0.9)),
        None,
        Some(key(0.5)),
        Some(key(0.01)),
        Some(key(0.3)),
        Some(key(0.3)),
    ];
    s.add_initial_collisions(1, &times);
    assert_eq!(s.get_queue().len(), 2);
    let heap: Vec<Collision> = s.get_queue().get_heap().clone();
    assert!(heap.contains(&make_collision(key(0.9), 1, Partner::HorizontalWall, 0, 0)));
    // Slot 3 is particle 1 itself; slots 4 and 5 tie, and the lower one wins.
    assert!(heap.contains(&make_collision(key(0.3), 1, Partner::Particle(2), 0, 0)));
}

#[test]
fn initial_collisions_without_any_particle_contact() {
    let mut s = Simulation::new(2, 10);
    let mut times = no_times(2);
    times[1] = Some(key(0.25));
    s.add_initial_collisions(0, &times);
    assert_eq!(s.get_queue().len(), 1);
    let c = s.get_queue().get_heap()[0];
    assert_eq!(c, make_collision(key(0.25), 0, Partner::VerticalWall, 0, 0));
}

#[test]
fn stale_event_is_discarded_without_touching_state() {
    let mut s = Simulation::new(3, 10);
    let mut t0 = no_times(3);
    t0[4] = Some(key(0.1));
    t0[0] = Some(key(0.5));
    s.add_new_collisions(0, &t0);
    let mut t1 = no_times(3);
    t1[1] = Some(key(0.2));
    s.add_new_collisions(1, &t1);

    // Resolve 0 with 2 first.
    let step = s.next_step(true);
    let c = make_collision(key(0.1), 0, Partner::Particle(2), 0, 0);
    assert_eq!(step, Step::Resolve(c));
    let mut r0 = no_times(3);
    r0[0] = Some(key(0.15));
    s.resolve_next_collision(&c, false, &r0, &no_times(3));
    assert_eq!(s.get_resolved(), 1);

    // The old event of 0 against the horizontal wall at 0.5 is stale now; the new
    // one at 0.15 comes first anyway, then 1 against the vertical wall.
    let step = s.next_step(true);
    assert_eq!(step, Step::Resolve(make_collision(key(0.15), 0, Partner::HorizontalWall, 1, 0)));
    let c = make_collision(key(0.15), 0, Partner::HorizontalWall, 1, 0);
    s.resolve_next_collision(&c, false, &no_times(3), &no_times(3));
    let step = s.next_step(true);
    let c = make_collision(key(0.2), 1, Partner::VerticalWall, 0, 0);
    assert_eq!(step, Step::Resolve(c));
    s.resolve_next_collision(&c, false, &no_times(3), &no_times(3));

    let before: Vec<usize> = (0..3)
        .map(|k| s.get_particles().get_collision_count(Partner::Particle(k)))
        .collect();
    assert_eq!(before, vec![2, 1, 1]);
    // Only the stale event at 0.5 is left: it is discarded, nothing else moves.
    assert_eq!(s.get_queue().len(), 1);
    let step = s.next_step(true);
    assert_eq!(step, Step::QueueExhausted);
    assert_eq!(s.get_queue().len(), 0);
    assert_eq!(s.get_resolved(), 3);
    let after: Vec<usize> = (0..3)
        .map(|k| s.get_particles().get_collision_count(Partner::Particle(k)))
        .collect();
    assert_eq!(after, before);
}

#[test]
fn resolution_raises_both_counters_and_regenerates() {
    let mut s = Simulation::new(3, 5);
    let mut t = no_times(3);
    t[3] = Some(key(1.0));
    s.add_new_collisions(2, &t);
    let step = s.next_step(true);
    let c = make_collision(key(1.0), 2, Partner::Particle(1), 0, 0);
    assert_eq!(step, Step::Resolve(c));
    let t1 = vec![Some(key(1.5)), Some(key(1.7)), Some(key(3.0)), Some(key(9.0)), Some(key(2.0))];
    let t2 = vec![Some(key(1.2)), None, None, Some(key(5.0)), Some(key(2.5))];
    s.resolve_next_collision(&c, true, &t1, &t2);
    assert_eq!(s.get_particles().get_collision_count(Partner::Particle(0)), 0);
    assert_eq!(s.get_particles().get_collision_count(Partner::Particle(1)), 1);
    assert_eq!(s.get_particles().get_collision_count(Partner::Particle(2)), 1);
    assert_eq!(s.get_resolved(), 1);
    assert_eq!(s.get_tc_events(), 1);
    // Particle 2: two walls and particles 0 and 1. Particle 1: one wall, particles 2.
    assert_eq!(s.get_queue().len(), 6);
    let heap: Vec<Collision> = s.get_queue().get_heap().clone();
    assert!(heap.contains(&make_collision(key(9.0), 2, Partner::Particle(1), 1, 1)));
    assert!(heap.contains(&make_collision(key(3.0), 2, Partner::Particle(0), 1, 0)));
    assert!(heap.contains(&make_collision(key(2.5), 1, Partner::Particle(2), 1, 1)));
    assert!(!heap.contains(&make_collision(key(5.0), 1, Partner::Particle(1), 1, 1)));
    // The earliest is the wall event of particle 1.
    assert_eq!(
        s.next_step(true),
        Step::Resolve(make_collision(key(1.2), 1, Partner::HorizontalWall, 1, 0))
    );
}

#[test]
fn run_stops_at_budget_or_energy_cutoff() {
    let mut s = Simulation::new(1, 1);
    let mut t = no_times(1);
    t[0] = Some(key(0.5));
    t[1] = Some(key(0.7));
    s.add_new_collisions(0, &t);
    assert_eq!(s.next_step(false), Step::Finished);
    assert_eq!(s.get_queue().len(), 2);
    let step = s.next_step(true);
    let c = make_collision(key(0.5), 0, Partner::HorizontalWall, 0, 0);
    assert_eq!(step, Step::Resolve(c));
    s.resolve_next_collision(&c, false, &no_times(1), &no_times(1));
    assert_eq!(s.get_number_of_events(), 1);
    assert_eq!(s.next_step(true), Step::Finished);
    assert_eq!(s.get_queue().len(), 1);
    assert_eq!(s.get_tc_events(), 0);
}

#[test]
fn empty_queue_is_exhausted() {
    let mut s = Simulation::new(2, 3);
    assert_eq!(s.next_step(true), Step::QueueExhausted);
}

#[test]
fn time_keys_follow_the_time_order() {
    let values = [-3.0, -0.5, -0.0, 0.0, 1e-9, 0.25, 1.0, 7.5, f64::INFINITY];
    for w in values.windows(2) {
        assert!(key(w[0]) < key(w[1]), "{} {}", w[0], w[1]);
    }
    assert!(key(f64::NEG_INFINITY) < key(-1e300));
    for v in values.iter() {
        assert_eq!(f64::from_bits(time_bits(key(*v))).to_bits(), v.to_bits());
    }
    assert_eq!(time_key(0), 1u64 << 63);
    assert_eq!(time_key(u64::MAX), 0);
}

#[test]
fn species_offsets_lay_out_the_population() {
    assert_eq!(species_offsets(&vec![2000, 2000]), Some(vec![0, 2000, 4000]));
    assert_eq!(species_offsets(&vec![1800, 1]), Some(vec![0, 1800, 1801]));
    assert_eq!(species_offsets(&vec![]), Some(vec![0]));
    assert_eq!(species_offsets(&vec![usize::MAX, 1]), None);
}

#[test]
fn queue_resolution_updates_store_and_queue() {
    let mut p = Particles::new(2);
    let mut q = CollisionQueue::new();
    let times = vec![Some(key(0.8)), Some(key(0.6)), None, Some(key(0.3))];
    q.add_new_collisions(&p, 0, &times);
    assert_eq!(q.len(), 3);
    let c = q.pop_next();
    assert_eq!(c, make_collision(key(0.3), 0, Partner::Particle(1), 0, 0));
    let times_1 = vec![Some(key(0.9)), None, None, None];
    let times_2 = vec![None, Some(key(0.7)), Some(key(0.5)), None];
    q.resolve_next_collision(&c, &mut p, &times_1, &times_2);
    assert_eq!(p.get_collision_count(Partner::Particle(0)), 1);
    assert_eq!(p.get_collision_count(Partner::Particle(1)), 1);
    // Two old wall events of particle 0 (now stale), one new for particle 0,
    // two new for particle 1.
    assert_eq!(q.len(), 5);
    let mut valid = Vec::new();
    while !q.is_empty() {
        let e = q.pop_next();
        if e.is_valid(&p) {
            valid.push(e);
        }
    }
    assert_eq!(
        valid,
        vec![
            make_collision(key(0.5), 1, Partner::Particle(0), 1, 1),
            make_collision(key(0.7), 1, Partner::VerticalWall, 1, 0),
            make_collision(key(0.9), 0, Partner::HorizontalWall, 1, 0),
        ]
    );
}

#[test]
fn wall_resolution_raises_one_counter() {
    let mut p = Particles::new(2);
    let mut q = CollisionQueue::new();
    let c = make_collision(key(0.5), 1, Partner::VerticalWall, 0, 0);
    q.resolve_next_collision(&c, &mut p, &no_times(2), &Vec::new());
    assert_eq!(p.get_collision_count(Partner::Particle(0)), 0);
    assert_eq!(p.get_collision_count(Partner::Particle(1)), 1);
    assert!(!c.is_valid(&p));
    assert!(q.is_empty());
}

#[test]
fn initial_queue_of_a_run_holds_walls_and_nearest_contact() {
    let mut p = Particles::new(3);
    p.increment_collision_count(2);
    let mut q = CollisionQueue::new();
    let times = vec![None, Some(key(2.0)), None, Some(key(4.0)), Some(key(1.0))];
    q.add_initial_collisions(&p, 0, &times);
    assert_eq!(q.pop_next(), make_collision(key(1.0), 0, Partner::Particle(2), 0, 1));
    assert_eq!(q.pop_next(), make_collision(key(2.0), 0, Partner::VerticalWall, 0, 0));
    assert!(q.is_empty());
}
