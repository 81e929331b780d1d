//! The verified core of a console for a fleet of inference engines, and of the
//! two exporters that measure the machines which the engines run on.
//!
//! The console stands between browsers and engines: it authenticates the
//! browser, forwards with each engine's own key, and never lets a credential
//! cross. It samples what engines and exporters publish, and it keeps and
//! serves the history of that.
//!
//! - Requests: [`headers`], [`auth`], [`origin`], [`state`], [`routes`],
//!   [`proxy`], [`ws`].
//! - Pairing: [`crypto`], [`qr`], [`net`].
//! - Configuration: [`config`], [`trust`], [`cli`].
//! - History: [`history`].
//! - Exporters: [`gx10`], [`mac`], and the text that both publish,
//!   [`exposition`].
//! - Plain values: [`text`], [`number`], [`json`], [`logging`].
pub mod auth;
pub mod cli;
pub mod config;
pub mod crypto;
pub mod exposition;
pub mod gx10;
pub mod headers;
pub mod history;
pub mod json;
pub mod logging;
pub mod mac;
pub mod net;
pub mod number;
pub mod origin;
pub mod proxy;
pub mod qr;
pub mod routes;
pub mod state;
pub mod text;
pub mod trust;
pub mod ws;
