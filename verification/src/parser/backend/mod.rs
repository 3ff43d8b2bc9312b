//! Parser backends: the Deno backend's configuration and the decisions it takes on
//! what the Deno process reports.

pub mod deno;

pub use deno::{DenoBackend, DenoBackendConfig};
