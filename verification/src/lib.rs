//! Buddy placement of fixed-stride records inside one contiguous storage
//! region, tracked by a flat binary tree of per-node free orders, together
//! with the packed quad references that the region is meant to hold.

pub mod order;
pub mod tree;
pub mod blocks;
pub mod filling;
pub mod buddy;
pub mod laws;
pub mod quad;
pub mod mesh;
pub mod viewport;
