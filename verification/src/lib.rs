//! Motion planning for robotics, the parts that compute on integers: grid A*
//! search (occupancy grid, neighbourhoods, search state, path
//! reconstruction) and the RRT tree with its xorshift generator.

pub mod astar_path;
pub mod rrt;
