//! A sparse, chunked voxel world: storage with a compressed tier, terrain
//! generation from height samples, streaming around a viewpoint, greedy
//! surface extraction and reconciliation of published geometry.

pub mod compression;
pub mod config;
pub mod dirty;
pub mod grid;
pub mod lattice;
pub mod mesh;
pub mod mesh_law;
pub mod reconciler;
pub mod streaming;
pub mod surface;
pub mod terrain;
pub mod volume;
pub mod voxel;
pub mod world;
