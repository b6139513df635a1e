//! NordSelect is a small library to find the best NordVPN servers for your needs.
//!
//! A `Servers` catalog is built from plain server records, reduced by filters
//! (country, region, protocol, category, load, allow/deny lists) and reordered
//! by sorters (load or measured latency), after which `perfect_server` returns
//! the best remaining server.

pub mod bench;
pub mod cli;
pub mod filters;
pub mod servers;
pub mod sorters;
mod strutil;

pub use servers::Features;
pub use servers::Protocol;
pub use servers::Server;
pub use servers::ServerCategory;
pub use servers::Servers;
