//! Shortest routes through a walled grid where every quarter turn costs a
//! thousand steps, together with the set of tiles that lie on a best route.

pub mod adapter;
pub mod bounds;
pub mod direction;
pub mod extract;
pub mod heap;
pub mod laws;
pub mod maze;
pub mod parse;
pub mod paths;
pub mod search;
pub mod sequences;
pub mod solver;
pub mod tables;
pub mod tiles;
pub mod vec2d;
