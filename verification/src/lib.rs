//! Hexagonal map logic of the wanderer tales game: cube-coordinate hex
//! vectors, ring and spiral walks around a cell, and canonical (minimal)
//! rotations of cyclic height patterns used to pick tile meshes.

pub mod hex_vector;
pub mod hex_walk;
pub mod hex_walk_laws;
pub mod rotation;
pub mod cycle;
pub mod booth;
pub mod lexigraphical_cycle;
pub mod map_items;
pub mod map_updates;
pub mod source_table;
pub mod render_map;
