//! A procedural galaxy: exact coordinates, seeded content, and a best-first octree walk.
#![allow(unused_imports)]

pub mod cache;
pub mod coord;
pub mod decimal;
pub mod draws;
pub mod generate;
pub mod ieee;
pub mod laws;
pub mod maths;
pub mod nearest;
pub mod node;
pub mod octree;
pub mod params;
pub mod quaternion;
pub mod queue;
pub mod render;
pub mod seed;
pub mod tasks;
pub mod vector;
pub mod viewer;
