//! Game logic of a voxel world: block identifiers and their packed flag bits,
//! inventories and crafting, chunk coordinates and world storage, lighting
//! values, and the small tables that describe blocks, tools and planets.

pub mod audio;
pub mod blockinfo;
pub mod chunk;
pub mod collisioncage;
pub mod cube;
pub mod game;
pub mod hud;
pub mod inventory;
pub mod light;
pub mod placement;
pub mod protocol;
pub mod planetinfo;
pub mod recipes;
pub mod savefile;
pub mod server_types;
pub mod specialblocks;
pub mod streaming;
pub mod terrain;
pub mod tools;
pub mod vec;
