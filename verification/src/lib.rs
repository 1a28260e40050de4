//! Barnes-Hut gravitational dynamics on an integer grid.
//!
//! Positions, velocities and accelerations are signed 64-bit integers in
//! units that the caller chooses; masses are unsigned 32-bit integers. One
//! simulation step builds a quadtree over the particles, walks it once per
//! particle to gather an approximate acceleration, and advances every
//! particle with a trapezoidal velocity kick.
//!
//! Every quantity is exact integer arithmetic with truncating division, so
//! sums do not depend on the order in which they are taken. A component of
//! particle state whose exact value leaves the 64-bit range is stored as the
//! nearest bound.

pub mod vector;
pub mod bounds;
pub mod config;
pub mod particle;
pub mod tree;
pub mod force;
pub mod integrate;
pub mod simulation;
pub mod tree_laws;
pub mod force_laws;
pub mod report;
