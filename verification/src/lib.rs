//! A client library for a tile-based online game: the world's tile map, the
//! commands sent to the server, path finding and the player's decisions.
pub mod decimal;
pub mod world;
pub mod commands;
pub mod pathing;
pub mod player;
pub mod json;
pub mod parse;
pub mod message;
pub mod render;
pub mod login;
pub mod control;
