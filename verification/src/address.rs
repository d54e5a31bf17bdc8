//! Numeric network addresses, as plain values.

use vstd::prelude::*;

verus! {

/// A numeric host address: the four octets of an IPv4 address, or the eight
/// 16-bit segments of an IPv6 address, most significant first.
#[derive(Clone, Copy, Debug, PartialEq, Eq)]
pub enum HostAddr {
    V4([u8; 4]),
    V6([u16; 8]),
}

/// The target of one probe: a host and a port on it.
#[derive(Clone, Copy, Debug, PartialEq, Eq)]
pub struct Endpoint {
    pub host: HostAddr,
    pub port: u16,
}

} // verus!
