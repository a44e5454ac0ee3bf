//! Generation, scoring and enumeration of double round-robin schedules for
//! the Traveling Tournament Problem.
//!
//! The schedule constructor follows the circle method: one anchor team stays
//! in the last position while all others rotate, and every round pairs the
//! position `i` with the position `n - 1 - i`.

pub mod data_set;
pub mod solution;
pub mod construction;
pub mod constraints;
pub mod objective;
pub mod enumeration;
pub mod sampler;
pub mod render;
pub mod xml_manager;

pub use data_set::{CapacityConstraints, Distance, Rawdata, SeparationConstraints, Slot, Team};
pub use solution::{Game, Permutations, Solution};
