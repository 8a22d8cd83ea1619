//! Core of an application-launcher backend: a persisted registry of
//! application bundles (normalized, deduplicated and sorted), a heuristic
//! that decides from a process-table snapshot whether a bundle is running,
//! a JSON codec for the registry file, a tail reader for per-application
//! signal files, and the decisions behind launching.
pub mod apps;
pub mod codec;
pub mod launch;
pub mod liveness;
pub mod signals;
pub mod paths;
pub mod registry;
pub mod text;
