//! Grid path planner for a snake-style agent: an A* shortest-path search over
//! a fixed rectangular board, avoiding the agent's own body.

pub mod components;
pub mod consts;
pub mod paths;
pub mod laws;
pub mod pathfinding;
