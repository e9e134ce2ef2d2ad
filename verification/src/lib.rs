//! Verified structural core of a position-based-fluids simulator.
//!
//! A PBF step works on three data structures whose correctness is purely
//! combinatorial: a padded uniform grid that maps cell coordinates to linear
//! ids, a counting-sort hash table that buckets particles by cell, and the
//! 3x3x3 neighborhood gather that feeds the density solver. This crate
//! verifies those, together with the moving-wall reflection (on a fixed-point
//! position), the staggered lattice that seeds a scene, and the table of
//! scene parameters a reset loads. The floating-point kernel and solver
//! arithmetic that consumes them lives with the host.

pub mod grid;
pub mod hash;
pub mod lattice;
pub mod neighbor;
pub mod scene;
pub mod slide;
