pub mod cli;
pub mod commands;
pub mod config;
pub mod error;
pub mod mojang;
pub mod net;
pub mod numbers;
pub mod protocol;
pub mod scanner;
pub mod style;
pub mod text;
pub mod types;
