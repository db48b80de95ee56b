//! Verified core of the clank artificial-life simulation: the world's
//! pseudo-random generator, the spatial hash grid that indexes creatures by
//! cell, the soil deposit stencils, the event log and the integer bookkeeping
//! of a simulation tick.

pub mod prng;
pub mod cells;
pub mod grid;
pub mod soil;
pub mod events;
pub mod agent;
pub mod world;
