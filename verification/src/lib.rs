//! Scheduled website blocking through the system hosts file.

pub mod text;
pub mod domains;
pub mod hosts;
pub mod config;
pub mod scheduler;
pub mod daemon;
pub mod service;
