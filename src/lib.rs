//! Navigable ground regions over occupancy grids: regions are registered in
//! world space, obstacles are baked into each region's grid every step, and
//! path queries answer with the next point to steer toward.

pub mod geometry;
pub mod navigation;
pub mod objects;
pub mod pathing;
pub mod scripting;
pub mod theorems;
