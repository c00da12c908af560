//! Opening a store and bringing tables under management.

pub mod config;
pub mod install;
