//! Core engine of a turn-based roguelike dungeon: tile grid and per-tile
//! derived state, level indexing, field of view, pathing costs, room stamps
//! and decorators, and the level generator with its connectivity guarantee.

pub mod camera;
pub mod components;
pub mod connectivity;
pub mod decorators;
pub mod dungeon;
pub mod fov;
pub mod generator;
pub mod indexing;
pub mod level;
pub mod level_utils;
pub mod map_action;
pub mod rect;
pub mod rng;
pub mod room;
pub mod screens;
pub mod tile_type;
pub mod viewshed;
