//! Hydrological core of a procedural terrain generator on an irregular
//! planar mesh.
//!
//! Heights are ordered keys: any monotone integer encoding of the caller's
//! elevation scale works, since lake growth and flux routing read heights
//! only through comparisons. The crate computes lakes (priority flood with
//! merge semantics) and per-cell drainage flux routed down steepest descent
//! with lake outflow carried through each lake's outlet, and proves the
//! governing invariants of both stages.

pub mod mesh;

pub mod shore;

pub mod lakes;

pub mod flux;
