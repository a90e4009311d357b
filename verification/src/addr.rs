//! Network endpoints as plain values.

use vstd::prelude::*;

verus! {

/// An IP address, version 4 or version 6.
#[derive(Debug, Clone, Copy, PartialEq, Eq, Hash)]
pub enum IpAddr {
    /// The four octets of an IPv4 address, in network order.
    V4([u8; 4]),
    /// The eight 16-bit segments of an IPv6 address, in network order.
    V6([u16; 8]),
}

/// An IP address together with a port.
#[derive(Debug, Clone, Copy, PartialEq, Eq, Hash)]
pub struct SocketAddr {
    pub ip: IpAddr,
    pub port: u16,
}

/// The diagnostic for a text that is not a socket address.
#[derive(Debug, Clone, Copy, PartialEq, Eq, Hash)]
pub struct AddrParseError;

} // verus!
