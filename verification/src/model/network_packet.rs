use vstd::prelude::*;
use crate::model::counter_map::{CounterMap, seq_insert};

verus! {

/// Dropped/error packet counters of one interface, for both directions.
#[derive(Debug, Clone, Copy, PartialEq, Eq, Structural)]
pub struct IfaceCounters {
    pub rx_dropped: u64,
    pub tx_dropped: u64,
    pub rx_errors: u64,
    pub tx_errors: u64,
}

impl IfaceCounters {
    pub fn new(rx_dropped: u64, tx_dropped: u64, rx_errors: u64, tx_errors: u64) -> (r: Self)
        ensures
            r == (IfaceCounters { rx_dropped, tx_dropped, rx_errors, tx_errors }),
    {
        IfaceCounters { rx_dropped, tx_dropped, rx_errors, tx_errors }
    }
}

/// Packet drop and error totals for one interval or one reading, for the
/// four independent streams.
#[derive(Debug, Clone, Copy, PartialEq, Eq, Structural)]
pub struct NetworkPacketInfo {
    pub recv_dropped_packets: u64,
    pub send_dropped_packets: u64,
    pub recv_errors_packet: u64,
    pub send_errors_packet: u64,
}

impl NetworkPacketInfo {
    pub fn new(
        recv_dropped_packets: u64,
        send_dropped_packets: u64,
        recv_errors_packet: u64,
        send_errors_packet: u64,
    ) -> (r: Self)
        ensures
            r == (NetworkPacketInfo {
                recv_dropped_packets,
                send_dropped_packets,
                recv_errors_packet,
                send_errors_packet,
            }),
    {
        NetworkPacketInfo {
            recv_dropped_packets,
            send_dropped_packets,
            recv_errors_packet,
            send_errors_packet,
        }
    }
}

/// One interface's packet counters as read from the kernel: the values a
/// packet snapshot is built from.
#[derive(Debug, Clone)]
pub struct PacketSample {
    pub name: String,
    pub info: NetworkPacketInfo,
}

/// A snapshot of the packet drop/error counters: one record per interface
/// and the capture timestamp.
pub struct PacketState {
    pub ifaces: CounterMap<IfaceCounters>,
    pub updated_at: String,
}

impl PacketState {
    pub open spec fn wf(&self) -> bool {
        self.ifaces.wf()
    }

    pub fn new(updated_at: String) -> (r: Self)
        ensures
            r.ifaces.entries_seq() == Seq::<(Seq<char>, IfaceCounters)>::empty(),
            r.updated_at@ == updated_at@,
            r.wf(),
    {
        PacketState { ifaces: CounterMap::new(), updated_at }
    }

    /// Stores a reading's counters under the interface name, each of the
    /// four independent streams in its own slot.
    pub fn add_iface(&mut self, name: String, network_packet_info: NetworkPacketInfo)
        requires
            old(self).wf(),
        ensures
            final(self).ifaces.entries_seq() == seq_insert(
                old(self).ifaces.entries_seq(),
                name@,
                IfaceCounters {
                    rx_dropped: network_packet_info.recv_dropped_packets,
                    tx_dropped: network_packet_info.send_dropped_packets,
                    rx_errors: network_packet_info.recv_errors_packet,
                    tx_errors: network_packet_info.send_errors_packet,
                },
            ),
            final(self).updated_at == old(self).updated_at,
            final(self).wf(),
    {
        let iface_counter: IfaceCounters = IfaceCounters::new(
            network_packet_info.recv_dropped_packets,
            network_packet_info.send_dropped_packets,
            network_packet_info.recv_errors_packet,
            network_packet_info.send_errors_packet,
        );
        self.ifaces.insert(name, iface_counter);
    }

    pub fn get_iface(&self, name: &str) -> (r: Option<&IfaceCounters>)
        ensures
            match r {
                Some(v) => self.ifaces.spec_get(name@) == Some(*v),
                None => self.ifaces.spec_get(name@) is None,
            },
    {
        self.ifaces.get(name)
    }
}

} // verus!
