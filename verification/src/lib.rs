//! Scratch-card game logic: dealing a page of cells, revealing them one by
//! one, settling a page, keeping the pages in memory, validating the game
//! rules and limiting how often one client may call.

pub mod models;
pub mod text;
pub mod game;
pub mod fixed_point;
pub mod config;
pub mod os;
pub mod state;
pub mod ratelimit;
pub mod api;
