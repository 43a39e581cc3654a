//! Verified core of a desktop todo application's storage backend.
//!
//! The backend persists an application configuration file, a todo index,
//! and per-todo detail folders on the local filesystem, and can relocate
//! the whole data directory from one root to another. The filesystem is
//! modelled here as explicit data (`FsModel`), so the relocation engine and
//! the store operations are verified over that model; the thin I/O shell
//! that touches the real disk lives outside the library.

pub mod config;
pub mod fs_model;
pub mod icon;
pub mod laws;
pub mod paths;
pub mod relocate;
pub mod store;

pub use config::AppConfig;
