//! Grid-occupancy and unit-AI simulation of a small two-force skirmish.
//!
//! - [`grid`]: the occupancy ledger, a signed claim count per cell.
//! - [`utils`]: facings and their offsets.
//! - [`anim`]: the motion phase of a unit and its sprite frames.
//! - [`unit`]: unit components, the greedy step and the enemy search.
//! - [`spawn`]: spawners and the spawn decision.
//! - [`world`]: the three AI state machines and the per-tick pipeline,
//!   which keeps every cell count equal to the claims of the units on it.
//!
//! Times are whole milliseconds and speeds thousandths of the normal speed.

mod random;

pub mod anim;
pub mod grid;
pub mod spawn;
pub mod unit;
pub mod utils;
pub mod world;
