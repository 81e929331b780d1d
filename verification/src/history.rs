//! The history plane: catalog, sampler, store, its maintenance, and query API.
pub mod api;
pub mod catalog;
pub mod pass;
pub mod prom;
pub mod sampler;
pub mod store;
