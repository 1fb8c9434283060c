//! Brainwares: markdown memory notes with wiki-links and code-reference hashes.

pub mod text;
pub mod parser;
pub mod models;
pub mod vault;
pub mod path;
pub mod engine;
pub mod hash;
pub mod commands;
pub mod reports;
pub mod integrate;
pub mod index;
pub mod setup;
pub mod cli;
pub mod ui;
