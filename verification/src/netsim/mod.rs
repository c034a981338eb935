//! # Network model
//!
//! The types by which routers, prefixes and route maps are identified, and the configuration of
//! a network.
pub mod bgp;
pub mod config;
pub mod network;
pub mod route_map;
pub mod router;
pub mod types;

pub use types::{AsId, BgpSessionType, ConfigError, DeviceError, LinkWeight, NetworkError, Prefix, RouterId};
