//! A voxel octree with inherited values, a two-dimensional cell grid with
//! Conway's rules, and the integer side of a grid projection.

pub mod vector;
pub mod byte_tree;
pub mod cursor;
pub mod layout;
pub mod node_map;
pub mod cells;
pub mod octree;
pub mod grid;
pub mod life;
pub mod line;
pub mod projection;
pub mod input;
