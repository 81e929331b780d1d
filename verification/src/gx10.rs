//! The exporter of NVIDIA GPU telemetry.
pub mod expo;
pub mod nvml;
pub mod server;
pub mod source;
