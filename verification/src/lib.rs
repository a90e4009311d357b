//! Discovery of the system-wide network proxy setting of a Windows host.
//!
//! The operating system keeps the setting in its configuration store as an
//! enabled flag and a `host:port` string. This crate decides, from what a
//! caller has read out of the store, whether a proxy is configured, and turns
//! the string into a validated IP address and port.

pub mod addr;
pub mod compose;
pub mod parser;
pub mod proxy;
pub mod scan;
pub mod syntax;

pub use addr::{AddrParseError, IpAddr, SocketAddr};
pub use proxy::{Error, StoreReading, SystemProxy};
