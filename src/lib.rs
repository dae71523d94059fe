//! Scheduling core of a data-oriented simulation runtime: a dense/sparse
//! indexed set, a conflict graph whose coloring splits units of work into
//! race-free batches, and the dependency-declaration layer built on them.

pub mod collections;
pub mod conflictgraph;
pub mod identity;
pub mod components;
pub mod systems;
pub mod world;
pub mod query;
