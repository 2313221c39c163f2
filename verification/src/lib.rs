//! A falling-sand animation engine for a terminal time tracker.
//!
//! The heart of the crate is the particle grid: a dense matrix of
//! optional category tags, one grain of sand per cell.  Grains are
//! spawned at the top row, settle under a simple gravity rule, survive
//! terminal resizes through a conservation algorithm, and can be saved
//! and restored as a sparse snapshot.

pub mod domain;
pub mod engine;
pub mod export;
pub mod grid;
pub mod laws;
pub mod render;
pub mod resize;
pub mod rng;
pub mod settings;
pub mod state;
pub mod storage;
pub mod ui;
