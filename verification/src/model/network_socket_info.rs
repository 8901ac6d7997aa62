use vstd::prelude::*;

verus! {

/// Socket-state tallies of one reading: TCP connections by state and the
/// number of UDP sockets.
#[derive(Debug, Clone, Copy, PartialEq, Eq, Structural)]
pub struct NetworkSocketInfo {
    pub tcp_connections: i32,
    pub udp_sockets: i32,
    pub tcp_established: i32,
    pub tcp_timewait: i32,
    pub tcp_listen: i32,
    pub tcp_close_wait: i32,
}

impl NetworkSocketInfo {
    pub fn new(
        tcp_connections: i32,
        udp_sockets: i32,
        tcp_established: i32,
        tcp_timewait: i32,
        tcp_listen: i32,
        tcp_close_wait: i32,
    ) -> (r: Self)
        ensures
            r == (NetworkSocketInfo {
                tcp_connections,
                udp_sockets,
                tcp_established,
                tcp_timewait,
                tcp_listen,
                tcp_close_wait,
            }),
    {
        NetworkSocketInfo {
            tcp_connections,
            udp_sockets,
            tcp_established,
            tcp_timewait,
            tcp_listen,
            tcp_close_wait,
        }
    }
}

/// One socket as the OS enumeration reports it: a TCP socket with its
/// kernel state code, or a UDP socket.
#[derive(Debug, Clone, PartialEq, Eq, Structural)]
pub enum SocketRecord {
    Tcp(u32),
    Udp,
}

} // verus!
