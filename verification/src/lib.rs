pub mod ai;
pub mod combat;
pub mod crafting;
pub mod entity;
pub mod fov;
pub mod input_queue;
pub mod item;
pub mod map;
pub mod messagelog;
pub mod messages;
pub mod net;
pub mod pathfinding;
pub mod prediction;
pub mod save;
pub mod session;
pub mod state;
pub mod sub_world;
pub mod text;
pub mod tile;
pub mod types;
pub mod visible;
pub mod world_manager;
pub mod worldgen;
