//! Square grids of blocks, as produced by voxelizing circles, squircles and lines, together with
//! the combinatorics used to analyse them (boundaries, symmetries, connected components, tours).

pub mod control;
pub mod zvec;
pub mod sparse_graph;
pub mod symmetry_type;
pub mod grid;
pub mod blocks;
pub mod boundary_3d;
pub mod sparse_blocks;
pub mod formatting;
pub mod shape_type;
pub mod any_shape;
pub mod param_config;
pub mod orientation;
pub mod rhai_field;
pub mod lua_field;
pub mod sampling;
pub mod line;
pub mod shape_keys;
