pub mod cli;
pub mod config;
pub mod error;
pub mod host;
pub mod laws;
pub mod ports;
pub mod ssh;
pub mod text;
