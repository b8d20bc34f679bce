//! How a static file server for package repositories answers its requests.
//!
//! `server` holds the steps from a request to its response, and `laws` what holds
//! of them together. The other modules hold what the steps are made of.

pub mod cache;
pub mod calendar;
pub mod config;
pub mod date;
pub mod header;
pub mod laws;
pub mod number;
pub mod path;
pub mod range;
pub mod response;
pub mod server;
pub mod text;
