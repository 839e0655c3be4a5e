//! Scheduling core of an event-driven hard-disk collision simulator.
//!
//! The library keeps the discrete side of the simulation: which events are
//! scheduled, in what order they come due, whether an event is still valid,
//! and how the per-particle collision counters evolve. The kinematics (positions,
//! velocities, collision times) are floating-point work done by the caller, which
//! hands the library each candidate time as an order key.
pub mod particle;
pub mod collisions;
mod heap;
pub mod simulation;
pub mod time;
