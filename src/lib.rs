//! A simulation of the El Farol bar problem: agents on a grid predict how
//! crowded a shared bar will be, go when they expect room, and imitate better
//! performing neighbours.
//!
//! Ratios are held in fixed point: `ratio::SCALE` stands for 1.0. Randomness
//! comes from a seeded `StdRng`, so runs repeat given a seed.

pub mod random;
pub mod ratio;
pub mod policy;
pub mod power_mean;
pub mod agent;
pub mod grid;
pub mod game;
pub mod simulation;
