//! Verified core of the C1 lightweight-tectonics pipeline: the integer,
//! topological and combinatorial logic of plate-id grids, plate-pair
//! trackers and merges, plate adjacency and continental clustering,
//! drainage-area accumulation, land-mass and basin labelling, circular
//! extents on the torus, lake outlets and spillways, and the clipping of
//! rivers against lakes.
//!
//! Floating-point physics (velocities, thickness, altitude, distances)
//! stays outside this crate and hands it plain values: masks, ids, signs
//! and indices.

pub mod adjacency;
pub mod basin_flood;
pub mod basins;
pub mod clustering;
pub mod coast;
pub mod displacement;
pub mod drainage_area;
pub mod grid;
pub mod lakes;
pub mod land;
pub mod landmass;
pub mod pair_map;
pub mod plate_ops;
pub mod plate_pairs;
pub mod river_clip;
pub mod seam;
pub mod tectonic_labels;
pub mod union_find;
pub mod verdict;
pub mod volcanism;
pub mod window;
