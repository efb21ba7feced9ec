//! Grid movement and navigation logic for a small tile-based game:
//! goal queues and move lists of moving bodies, the cells an object takes up,
//! the occupancy grid, neighbour expansion and path simplification for the
//! route planner, the distance heuristics, and the pixel data of generated
//! sprite sheets.

pub mod grid;
pub mod heuristic;
pub mod mover;
pub mod navigation;
pub mod physical;
pub mod queue;
pub mod single;
pub mod texture;
