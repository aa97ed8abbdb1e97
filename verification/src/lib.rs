//! A voxel world for children who cannot read yet: its rules, its crafting, its codes and
//! the bookkeeping of who is connected, as a library.
pub mod registry;
pub mod menu;
pub mod inventory;
pub mod planning;
pub mod net;
pub mod chart;
pub mod recipes;
pub mod session;
pub mod player;
pub mod forge;
pub mod craftgraph;
pub mod code;
pub mod world;
pub mod game;
pub mod pause;
pub mod start;
pub mod shortfall;
pub mod dpad;
