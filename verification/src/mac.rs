//! The exporter of a Mac host's power.
pub mod expo;
pub mod exporter;
pub mod host;
pub mod parse;
pub mod source;
