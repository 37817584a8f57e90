//! A portal registry: directories bookmarked under one or more memorable
//! names, resolved back to their canonical path for shell navigation.
//!
//! The registry itself is pure data-in, data-out logic; reading the command
//! line, locating the per-user configuration file and (de)serialising it are
//! left to the surrounding binary.

pub mod cli;
pub mod config;
pub mod order;
