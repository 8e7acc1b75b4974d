//! `ew` keeps a small roster of people and their timezones in a
//! TOML-shaped configuration file and renders each person's current
//! local time.  The roster logic, the file format, and the listing
//! layout are verified; reading the clock and resolving timezone
//! names are done by `chrono` behind trusted wrappers.

pub mod app;
pub mod chars;
pub mod codec;
pub mod config;
pub mod laws;
pub mod person;
pub mod render;
