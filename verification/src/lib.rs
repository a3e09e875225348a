//! Reconciliation logic for a desired CPU-scheduler configuration.
//!
//! The crate validates scheduler names and mode codes, keeps the desired
//! configuration (default scheduler, default mode, per-mode flag overrides),
//! renders and parses the persisted configuration document, and decides which
//! calls an orchestrating front end must make to bring the system in line
//! with the user's choice.

pub mod codec;
pub mod engine;
pub mod errors;
pub mod loader_defaults;
pub mod modes;
pub mod registry;
pub mod store;
pub mod text;
