use vstd::prelude::*;
use crate::model::counter_map::{CounterMap, seq_insert};

verus! {

/// Received/transmitted byte counters of one interface, or one rollup.
#[derive(Debug, Clone, Copy, PartialEq, Eq, Structural)]
pub struct IfaceCounters {
    pub rx: u64,
    pub tx: u64,
}

impl IfaceCounters {
    pub fn new(rx: u64, tx: u64) -> (r: Self)
        ensures
            r == (IfaceCounters { rx, tx }),
    {
        IfaceCounters { rx, tx }
    }
}

/// A snapshot of the network byte counters: one record per interface, the
/// derived rollups, and the capture timestamp.
pub struct NetState {
    pub ifaces: CounterMap<IfaceCounters>,
    pub statistics: CounterMap<IfaceCounters>,
    pub updated_at: String,
}

impl NetState {
    /// Both maps keep their keys unique.
    pub open spec fn wf(&self) -> bool {
        self.ifaces.wf() && self.statistics.wf()
    }

    pub fn new(updated_at: String) -> (r: Self)
        ensures
            r.ifaces.entries_seq() == Seq::<(Seq<char>, IfaceCounters)>::empty(),
            r.statistics.entries_seq() == Seq::<(Seq<char>, IfaceCounters)>::empty(),
            r.updated_at@ == updated_at@,
            r.wf(),
    {
        NetState { ifaces: CounterMap::new(), statistics: CounterMap::new(), updated_at }
    }

    pub fn add_iface(&mut self, name: String, rx: u64, tx: u64)
        requires
            old(self).wf(),
        ensures
            final(self).ifaces.entries_seq() == seq_insert(
                old(self).ifaces.entries_seq(),
                name@,
                IfaceCounters { rx, tx },
            ),
            final(self).statistics == old(self).statistics,
            final(self).updated_at == old(self).updated_at,
            final(self).wf(),
    {
        self.ifaces.insert(name, IfaceCounters::new(rx, tx));
    }

    pub fn get_iface(&self, name: &str) -> (r: Option<&IfaceCounters>)
        ensures
            match r {
                Some(v) => self.ifaces.spec_get(name@) == Some(*v),
                None => self.ifaces.spec_get(name@) is None,
            },
    {
        self.ifaces.get(name)
    }

    pub fn add_statistics(&mut self, name: String, rx: u64, tx: u64)
        requires
            old(self).wf(),
        ensures
            final(self).statistics.entries_seq() == seq_insert(
                old(self).statistics.entries_seq(),
                name@,
                IfaceCounters { rx, tx },
            ),
            final(self).ifaces == old(self).ifaces,
            final(self).updated_at == old(self).updated_at,
            final(self).wf(),
    {
        self.statistics.insert(name, IfaceCounters::new(rx, tx));
    }

    pub fn get_statistics(&self, name: &str) -> (r: Option<&IfaceCounters>)
        ensures
            match r {
                Some(v) => self.statistics.spec_get(name@) == Some(*v),
                None => self.statistics.spec_get(name@) is None,
            },
    {
        self.statistics.get(name)
    }

    pub fn update_timestamp(&mut self, timestamp: String)
        ensures
            final(self).updated_at == timestamp,
            final(self).ifaces == old(self).ifaces,
            final(self).statistics == old(self).statistics,
    {
        self.updated_at = timestamp;
    }
}

/// One interface's byte counters as read from the kernel: the values a
/// snapshot is built from.
#[derive(Debug, Clone)]
pub struct IfaceSample {
    pub name: String,
    pub rx: u64,
    pub tx: u64,
}

/// The per-interval change of the network byte counters: the rollup deltas
/// and their combined total.
#[derive(Debug, Clone, Copy, PartialEq, Eq, Structural)]
pub struct NetworkUsage {
    pub network_received: u64,
    pub network_transmitted: u64,
    pub loop_back_received: u64,
    pub loop_back_transmitted: u64,
    pub ethernet_received: u64,
    pub ethernet_transmitted: u64,
}

impl NetworkUsage {
    pub fn new(
        network_received: u64,
        network_transmitted: u64,
        loop_back_received: u64,
        loop_back_transmitted: u64,
        ethernet_received: u64,
        ethernet_transmitted: u64,
    ) -> (r: Self)
        ensures
            r == (NetworkUsage {
                network_received,
                network_transmitted,
                loop_back_received,
                loop_back_transmitted,
                ethernet_received,
                ethernet_transmitted,
            }),
    {
        NetworkUsage {
            network_received,
            network_transmitted,
            loop_back_received,
            loop_back_transmitted,
            ethernet_received,
            ethernet_transmitted,
        }
    }
}

} // verus!
