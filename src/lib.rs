//! Routing engine of a local proxy switcher: a rule table mapping hostname
//! patterns to upstream SOCKS proxies, a pool of loopback tunnel ports, the
//! tunnel endpoints' session bookkeeping, and hostname-based routing.

pub mod config;
pub mod control;
pub mod error;
pub mod laws;
pub mod matcher;
pub mod ports;
pub mod protocol;
pub mod validate;
