//! The board game Acquire: its board, hotel chains, stocks, bank and rules.
pub mod bank;
pub mod board;
pub mod chain;
pub mod chain_manager;
pub mod demo;
pub mod display;
pub mod error;
pub mod fusion;
pub mod game;
pub mod logic;
pub mod placement;
pub mod player;
pub mod protocol;
pub mod purchase;
pub mod random;
pub mod stock;
pub mod text;
pub mod tui;
pub mod utils;
