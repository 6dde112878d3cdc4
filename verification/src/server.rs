//! Holders for the listening side of a transfer.  The library keeps
//! only the configuration; the program around it owns the sockets.

use vstd::prelude::*;

verus! {

/// Configuration of a connection-oriented listener.
pub struct TcpServer {
    pub address: String,
}

impl TcpServer {
    pub fn new(address: &str) -> (r: Self)
        ensures
            r.address@ == address@,
    {
        TcpServer { address: address.to_owned() }
    }
}

/// Configuration of a datagram listener.
pub struct UdpServer {
    pub address: String,
}

impl UdpServer {
    pub fn new(address: &str) -> (r: Self)
        ensures
            r.address@ == address@,
    {
        UdpServer { address: address.to_owned() }
    }
}

} // verus!
