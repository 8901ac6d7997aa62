use vstd::prelude::*;
use vstd::string::*;
use crate::common_enums::tcp_state::TcpState;
use crate::model::counter_map::seq_insert;
use crate::model::linux_config::LinuxConfig;
use crate::model::memory::{OsMemRes, ProcessSample};
use crate::model::network::{IfaceCounters, IfaceSample, NetState, NetworkUsage};
use crate::model::network_packet::{
    IfaceCounters as PktCounters, NetworkPacketInfo, PacketSample, PacketState,
};
use crate::model::network_socket_info::NetworkSocketInfo;
use crate::utils_module::io_utils::{
    entries_storable, lemma_storable_insert, load_or_create_file, net_model, pkt_model,
    storable_key, storable_text, StorableSnapshot,
};
use crate::utils_module::parse_utils::{
    lemma_split_char_count, lower_of, lowercase, parse_hex_u32, parse_hex_u32_spec, parse_u64,
    parse_u64_spec, spec_contains_sub, spec_fields, spec_lines, split_char, str_contains,
    str_fields, str_lines,
};

verus! {

/// The numeral a token holds, or zero when it is not one: how lenient
/// field extraction reads counters out of tool output.
pub open spec fn parse_or_zero(s: Seq<char>) -> u64 {
    match parse_u64_spec(s) {
        Some(v) => v,
        None => 0u64,
    }
}

/// The kernel state code on one connection line, where the line has at
/// least four fields and the fourth reads as a hexadecimal number.
pub open spec fn tcp_line_state(l: Seq<char>) -> Option<u32> {
    let fs = spec_fields(l);
    if fs.len() >= 4 {
        parse_hex_u32_spec(fs[3])
    } else {
        None
    }
}

/// How many lines after the header have at least four fields: the
/// connection count.
pub open spec fn count_conn_lines(ls: Seq<Seq<char>>) -> int
    decreases ls.len(),
{
    if ls.len() <= 1 {
        0
    } else {
        count_conn_lines(ls.drop_last()) + if spec_fields(ls.last()).len() >= 4 {
            1int
        } else {
            0int
        }
    }
}

/// How many lines after the header carry the given kernel state code.
pub open spec fn count_state_lines(ls: Seq<Seq<char>>, code: u32) -> int
    decreases ls.len(),
{
    if ls.len() <= 1 {
        0
    } else {
        count_state_lines(ls.drop_last(), code) + if tcp_line_state(ls.last()) == Some(code) {
            1int
        } else {
            0int
        }
    }
}

/// The number of lines any text can have: one more than its characters.
pub proof fn lemma_spec_lines_count(s: Seq<char>)
    ensures
        spec_lines(s).len() <= s.len() + 1,
{
    lemma_split_char_count(s, '\n');
    crate::utils_module::parse_utils::lemma_split_char_len(s, '\n');
    let ts = split_char(s, '\n');
    if ts.last() == Seq::<char>::empty() {
        assert(spec_lines(s).len() == ts.len() - 1);
    } else {
        assert(spec_lines(s).len() == ts.len());
    }
}

/// The process-name keywords whose processes are measured.
pub open spec fn target_keywords() -> Seq<Seq<char>> {
    seq!["java"@, "jdk"@, "elasticsearch"@]
}

/// The process counts when its lower-cased name contains one of the
/// keywords.
pub open spec fn process_matches(name: Seq<char>, keywords: Seq<Seq<char>>) -> bool {
    exists|k: int| 0 <= k < keywords.len() && spec_contains_sub(lower_of(name), #[trigger] keywords[k])
}

/// The resident and virtual memory of the matching processes, summed with
/// clamping.
pub open spec fn fold_process_mem(ps: Seq<ProcessSample>, keywords: Seq<Seq<char>>) -> (u64, u64)
    decreases ps.len(),
{
    if ps.len() == 0 {
        (0u64, 0u64)
    } else {
        let p = fold_process_mem(ps.drop_last(), keywords);
        if process_matches(ps.last().name@, keywords) {
            (p.0.saturating_add(ps.last().memory), p.1.saturating_add(ps.last().virtual_memory))
        } else {
            p
        }
    }
}

/// The interface records a packet snapshot holds after storing the
/// samples in order: later readings of a repeated name win, and each of
/// the four streams keeps its own slot.
pub open spec fn fold_packet_samples(ss: Seq<PacketSample>) -> Seq<(Seq<char>, PktCounters)>
    decreases ss.len(),
{
    if ss.len() == 0 {
        Seq::<(Seq<char>, PktCounters)>::empty()
    } else {
        seq_insert(
            fold_packet_samples(ss.drop_last()),
            ss.last().name@,
            PktCounters {
                rx_dropped: ss.last().info.recv_dropped_packets,
                tx_dropped: ss.last().info.send_dropped_packets,
                rx_errors: ss.last().info.recv_errors_packet,
                tx_errors: ss.last().info.send_errors_packet,
            },
        )
    }
}

/// Snapshots built from storable sample names have storable keys.
pub proof fn lemma_fold_iface_samples_storable(ss: Seq<IfaceSample>)
    requires
        forall|i: int| 0 <= i < ss.len() ==> storable_key((#[trigger] ss[i]).name@),
    ensures
        entries_storable(fold_iface_samples(ss)),
    decreases ss.len(),
{
    if ss.len() > 0 {
        assert(forall|i: int| 0 <= i < ss.len() - 1 ==> #[trigger] ss.drop_last()[i] == ss[i]);
        lemma_fold_iface_samples_storable(ss.drop_last());
        assert(ss[ss.len() - 1] == ss.last());
        lemma_storable_insert(
            fold_iface_samples(ss.drop_last()),
            ss.last().name@,
            IfaceCounters { rx: ss.last().rx, tx: ss.last().tx },
        );
    }
}

/// Packet snapshots built from storable sample names have storable keys.
pub proof fn lemma_fold_packet_samples_storable(ss: Seq<PacketSample>)
    requires
        forall|i: int| 0 <= i < ss.len() ==> storable_key((#[trigger] ss[i]).name@),
    ensures
        entries_storable(fold_packet_samples(ss)),
    decreases ss.len(),
{
    if ss.len() > 0 {
        assert(forall|i: int| 0 <= i < ss.len() - 1 ==> #[trigger] ss.drop_last()[i] == ss[i]);
        lemma_fold_packet_samples_storable(ss.drop_last());
        assert(ss[ss.len() - 1] == ss.last());
        lemma_storable_insert(
            fold_packet_samples(ss.drop_last()),
            ss.last().name@,
            PktCounters {
                rx_dropped: ss.last().info.recv_dropped_packets,
                tx_dropped: ss.last().info.send_dropped_packets,
                rx_errors: ss.last().info.recv_errors_packet,
                tx_errors: ss.last().info.send_errors_packet,
            },
        );
    }
}

/// The tracked keys a packet snapshot has no record for, in order.
pub open spec fn spec_missing_keys(st: PacketState, keys: Seq<Seq<char>>) -> Seq<Seq<char>>
    decreases keys.len(),
{
    if keys.len() == 0 {
        Seq::<Seq<char>>::empty()
    } else {
        let p = spec_missing_keys(st, keys.drop_last());
        if st.ifaces.spec_get(keys.last()) is None {
            p.push(keys.last())
        } else {
            p
        }
    }
}

/// The rollup keys are fit for the store.
pub proof fn lemma_stat_keys_storable()
    ensures
        storable_key("loop_back"@),
        storable_key("ethernet"@),
{
    reveal_strlit("loop_back");
    reveal_strlit("ethernet");
    assert("loop_back"@.len() == 9);
    assert("ethernet"@.len() == 8);
}

/// The statistics rollup stored under a key, or zeroed counters when the
/// snapshot lacks it.
pub open spec fn stat_or_zero(s: NetState, k: Seq<char>) -> IfaceCounters {
    match s.statistics.spec_get(k) {
        Some(c) => c,
        None => IfaceCounters { rx: 0, tx: 0 },
    }
}

/// Whether an interface name counts as internal traffic: it starts with
/// the letter 'l', as "lo" does.
pub open spec fn is_loopback_name(name: Seq<char>) -> bool {
    name.len() > 0 && name[0] == 'l'
}

/// The interface records a snapshot holds after storing the samples in
/// order: later readings of a repeated name win.
pub open spec fn fold_iface_samples(ss: Seq<IfaceSample>) -> Seq<(Seq<char>, IfaceCounters)>
    decreases ss.len(),
{
    if ss.len() == 0 {
        Seq::<(Seq<char>, IfaceCounters)>::empty()
    } else {
        seq_insert(
            fold_iface_samples(ss.drop_last()),
            ss.last().name@,
            IfaceCounters { rx: ss.last().rx, tx: ss.last().tx },
        )
    }
}

/// The saturating sums of the rx and tx readings over the samples of one
/// class: the internal interfaces, or the external ones.
pub open spec fn fold_class_totals(ss: Seq<IfaceSample>, internal: bool) -> (u64, u64)
    decreases ss.len(),
{
    if ss.len() == 0 {
        (0u64, 0u64)
    } else {
        let p = fold_class_totals(ss.drop_last(), internal);
        if is_loopback_name(ss.last().name@) == internal {
            (p.0.saturating_add(ss.last().rx), p.1.saturating_add(ss.last().tx))
        } else {
            p
        }
    }
}

/// The change of the byte counters between two snapshots, every difference
/// and sum clamped rather than wrapped: a counter reset yields zero, an
/// overflowing total sticks at the maximum.
pub open spec fn spec_network_delta(prev: NetState, cur: NetState) -> NetworkUsage {
    let pl = stat_or_zero(prev, "loop_back"@);
    let pe = stat_or_zero(prev, "ethernet"@);
    let cl = stat_or_zero(cur, "loop_back"@);
    let ce = stat_or_zero(cur, "ethernet"@);
    NetworkUsage {
        network_received: (cl.rx.saturating_add(ce.rx)).saturating_sub(
            pl.rx.saturating_add(pe.rx),
        ),
        network_transmitted: (cl.tx.saturating_add(ce.tx)).saturating_sub(
            pl.tx.saturating_add(pe.tx),
        ),
        loop_back_received: cl.rx.saturating_sub(pl.rx),
        loop_back_transmitted: cl.tx.saturating_sub(pl.tx),
        ethernet_received: ce.rx.saturating_sub(pe.rx),
        ethernet_transmitted: ce.tx.saturating_sub(pe.tx),
    }
}

/// The packet delta accumulated over the tracked keys, in order: a key
/// found in both snapshots contributes its four clamped differences; a key
/// missing on either side contributes nothing.
pub open spec fn fold_packet_delta(
    prev: PacketState,
    cur: PacketState,
    keys: Seq<Seq<char>>,
) -> NetworkPacketInfo
    decreases keys.len(),
{
    if keys.len() == 0 {
        NetworkPacketInfo {
            recv_dropped_packets: 0,
            send_dropped_packets: 0,
            recv_errors_packet: 0,
            send_errors_packet: 0,
        }
    } else {
        let p = fold_packet_delta(prev, cur, keys.drop_last());
        let k = keys.last();
        match (prev.ifaces.spec_get(k), cur.ifaces.spec_get(k)) {
            (Some(a), Some(b)) => NetworkPacketInfo {
                recv_dropped_packets: p.recv_dropped_packets.saturating_add(
                    b.rx_dropped.saturating_sub(a.rx_dropped),
                ),
                send_dropped_packets: p.send_dropped_packets.saturating_add(
                    b.tx_dropped.saturating_sub(a.tx_dropped),
                ),
                recv_errors_packet: p.recv_errors_packet.saturating_add(
                    b.rx_errors.saturating_sub(a.rx_errors),
                ),
                send_errors_packet: p.send_errors_packet.saturating_add(
                    b.tx_errors.saturating_sub(a.tx_errors),
                ),
            },
            _ => p,
        }
    }
}

/// The exact whole-number packet sums over the tracked keys: for each key
/// present in both snapshots, the plain differences of the four counters,
/// summed without any clamping.
pub open spec fn exact_packet_sums(
    prev: PacketState,
    cur: PacketState,
    keys: Seq<Seq<char>>,
) -> (int, int, int, int)
    decreases keys.len(),
{
    if keys.len() == 0 {
        (0int, 0int, 0int, 0int)
    } else {
        let p = exact_packet_sums(prev, cur, keys.drop_last());
        let k = keys.last();
        match (prev.ifaces.spec_get(k), cur.ifaces.spec_get(k)) {
            (Some(a), Some(b)) => (
                p.0 + b.rx_dropped - a.rx_dropped,
                p.1 + b.tx_dropped - a.tx_dropped,
                p.2 + b.rx_errors - a.rx_errors,
                p.3 + b.tx_errors - a.tx_errors,
            ),
            _ => p,
        }
    }
}

/// When every tracked key is present in both snapshots, no counter has
/// moved backwards, and the sums fit, the packet delta is the exact
/// arithmetic difference per key, summed across keys.
pub proof fn lemma_packet_delta_exact(prev: PacketState, cur: PacketState, keys: Seq<Seq<char>>)
    requires
        forall|i: int|
            0 <= i < keys.len() ==> prev.ifaces.spec_get(#[trigger] keys[i]) is Some
                && cur.ifaces.spec_get(keys[i]) is Some,
        forall|i: int|
            0 <= i < keys.len() ==> {
                let a = prev.ifaces.spec_get(#[trigger] keys[i]).unwrap();
                let b = cur.ifaces.spec_get(keys[i]).unwrap();
                b.rx_dropped >= a.rx_dropped && b.tx_dropped >= a.tx_dropped && b.rx_errors
                    >= a.rx_errors && b.tx_errors >= a.tx_errors
            },
        exact_packet_sums(prev, cur, keys).0 <= u64::MAX,
        exact_packet_sums(prev, cur, keys).1 <= u64::MAX,
        exact_packet_sums(prev, cur, keys).2 <= u64::MAX,
        exact_packet_sums(prev, cur, keys).3 <= u64::MAX,
    ensures
        ({
            let s = exact_packet_sums(prev, cur, keys);
            0 <= s.0 && 0 <= s.1 && 0 <= s.2 && 0 <= s.3 && fold_packet_delta(prev, cur, keys)
                == (NetworkPacketInfo {
                recv_dropped_packets: s.0 as u64,
                send_dropped_packets: s.1 as u64,
                recv_errors_packet: s.2 as u64,
                send_errors_packet: s.3 as u64,
            })
        }),
    decreases keys.len(),
{
    if keys.len() > 0 {
        let k = keys.last();
        let ks = keys.drop_last();
        assert(keys[keys.len() - 1] == k);
        assert(forall|i: int| 0 <= i < ks.len() ==> #[trigger] ks[i] == keys[i]);
        let a = prev.ifaces.spec_get(k).unwrap();
        let b = cur.ifaces.spec_get(k).unwrap();
        let s = exact_packet_sums(prev, cur, keys);
        let sp = exact_packet_sums(prev, cur, ks);
        assert(s.0 == sp.0 + b.rx_dropped - a.rx_dropped);
        assert(sp.0 <= s.0 && sp.1 <= s.1 && sp.2 <= s.2 && sp.3 <= s.3);
        lemma_packet_delta_exact(prev, cur, ks);
    }
}

/// A counter that moved backwards between the snapshots, as after a reset,
/// contributes zero to its stream, never a wrapped value, wherever the key
/// stands in the tracked list, and the computation still completes over
/// the remaining keys: for each clamped stream, the delta over the whole
/// list equals the delta over the list without that key.
pub proof fn lemma_packet_delta_reset(
    prev: PacketState,
    cur: PacketState,
    keys: Seq<Seq<char>>,
    p: int,
)
    requires
        0 <= p < keys.len(),
        prev.ifaces.spec_get(keys[p]) is Some,
        cur.ifaces.spec_get(keys[p]) is Some,
    ensures
        ({
            let a = prev.ifaces.spec_get(keys[p]).unwrap();
            let b = cur.ifaces.spec_get(keys[p]).unwrap();
            let with = fold_packet_delta(prev, cur, keys);
            let without = fold_packet_delta(prev, cur, keys.remove(p));
            &&& (b.rx_dropped <= a.rx_dropped ==> with.recv_dropped_packets
                == without.recv_dropped_packets)
            &&& (b.tx_dropped <= a.tx_dropped ==> with.send_dropped_packets
                == without.send_dropped_packets)
            &&& (b.rx_errors <= a.rx_errors ==> with.recv_errors_packet
                == without.recv_errors_packet)
            &&& (b.tx_errors <= a.tx_errors ==> with.send_errors_packet
                == without.send_errors_packet)
        }),
    decreases keys.len(),
{
    if p == keys.len() - 1 {
        assert(keys.remove(p) =~= keys.drop_last());
        assert(keys[keys.len() - 1] == keys.last());
    } else {
        assert(keys.drop_last()[p] == keys[p]);
        lemma_packet_delta_reset(prev, cur, keys.drop_last(), p);
        assert(keys.remove(p).drop_last() =~= keys.drop_last().remove(p));
        assert(keys.remove(p).last() == keys.last()) by {
            assert(keys.remove(p)[keys.len() - 2] == keys[keys.len() - 1]);
        }
    }
}

/// Computes the per-interval network metrics on the Linux side: building
/// snapshots from kernel counter samples and diffing them.
#[derive(Debug, Clone)]
pub struct LinuxMetricServiceImpl {
    linux_config: LinuxConfig,
}

impl LinuxMetricServiceImpl {
    /// The configuration is read and decoded at startup; the service holds
    /// the decoded value.
    pub fn new(linux_config: LinuxConfig) -> (r: Self)
        ensures
            r.spec_linux_config() == linux_config,
    {
        LinuxMetricServiceImpl { linux_config }
    }

    pub closed spec fn spec_linux_config(&self) -> LinuxConfig {
        self.linux_config
    }

    pub fn linux_config(&self) -> (r: &LinuxConfig)
        ensures
            *r == self.spec_linux_config(),
    {
        &self.linux_config
    }

    /// The statistics rollup under a key, or zeroed counters when missing;
    /// a miss is an anomaly the caller's log records.
    pub fn get_statistics_safe(&self, net_state: &NetState, key: &str) -> (r: IfaceCounters)
        ensures
            r == stat_or_zero(*net_state, key@),
    {
        match net_state.get_statistics(key) {
            Some(c) => IfaceCounters { rx: c.rx, tx: c.tx },
            None => IfaceCounters::new(0, 0),
        }
    }

    /// The combined received and transmitted totals of the two rollups,
    /// each sum clamped at the maximum.
    pub fn aggregate_network_totals(&self, loop_back: &IfaceCounters, ethernet: &IfaceCounters)
        -> (r: (u64, u64))
        ensures
            r.0 == loop_back.rx.saturating_add(ethernet.rx),
            r.1 == loop_back.tx.saturating_add(ethernet.tx),
    {
        let total_received: u64 = loop_back.rx.saturating_add(ethernet.rx);
        let total_transmitted: u64 = loop_back.tx.saturating_add(ethernet.tx);
        (total_received, total_transmitted)
    }

    /// Builds the network snapshot from one round of kernel counter samples:
    /// one record per sampled interface, and the internal/external rollups
    /// under "loop_back" and "ethernet".
    pub fn calculate_sysfs_net_infos(&self, samples: &Vec<IfaceSample>, captured_at: String)
        -> (r: NetState)
        ensures
            r.ifaces.entries_seq() == fold_iface_samples(samples@),
            r.statistics.entries_seq() == seq_insert(
                seq_insert(
                    Seq::<(Seq<char>, IfaceCounters)>::empty(),
                    "loop_back"@,
                    IfaceCounters {
                        rx: fold_class_totals(samples@, true).0,
                        tx: fold_class_totals(samples@, true).1,
                    },
                ),
                "ethernet"@,
                IfaceCounters {
                    rx: fold_class_totals(samples@, false).0,
                    tx: fold_class_totals(samples@, false).1,
                },
            ),
            r.updated_at@ == captured_at@,
            r.wf(),
    {
        let mut loop_back_received: u64 = 0;
        let mut loop_back_transmitted: u64 = 0;
        let mut ethernet_received: u64 = 0;
        let mut ethernet_transmitted: u64 = 0;

        let ghost cap = captured_at@;
        let mut net_state: NetState = NetState::new(captured_at);

        let n: usize = samples.len();
        let mut i: usize = 0;
        while i < n
            invariant
                0 <= i <= n,
                n == samples@.len(),
                net_state.wf(),
                net_state.ifaces.entries_seq() == fold_iface_samples(samples@.take(i as int)),
                net_state.statistics.entries_seq() == Seq::<(Seq<char>, IfaceCounters)>::empty(),
                net_state.updated_at@ == cap,
                (loop_back_received, loop_back_transmitted) == fold_class_totals(
                    samples@.take(i as int),
                    true,
                ),
                (ethernet_received, ethernet_transmitted) == fold_class_totals(
                    samples@.take(i as int),
                    false,
                ),
            decreases n - i,
        {
            let sample: &IfaceSample = &samples[i];
            let name: String = sample.name.clone();
            assert(samples@.take(i + 1).drop_last() =~= samples@.take(i as int));
            assert(samples@.take(i + 1).last() == samples@[i as int]);
            net_state.add_iface(name, sample.rx, sample.tx);
            let is_internal: bool = {
                let nm: &str = sample.name.as_str();
                nm.unicode_len() > 0 && nm.get_char(0) == 'l'
            };
            assert(is_internal == is_loopback_name(samples@[i as int].name@));
            if is_internal {
                loop_back_received = loop_back_received.saturating_add(sample.rx);
                loop_back_transmitted = loop_back_transmitted.saturating_add(sample.tx);
            } else {
                ethernet_received = ethernet_received.saturating_add(sample.rx);
                ethernet_transmitted = ethernet_transmitted.saturating_add(sample.tx);
            }
            i = i + 1;
        }
        assert(samples@.take(n as int) =~= samples@);

        net_state.add_statistics(
            String::from_str("loop_back"),
            loop_back_received,
            loop_back_transmitted,
        );
        net_state.add_statistics(
            String::from_str("ethernet"),
            ethernet_received,
            ethernet_transmitted,
        );

        net_state
    }

    /// Diffs two network snapshots into the per-interval usage, as
    /// `spec_network_delta` describes: clamped uniformly, never wrapped.
    pub fn calculate_network_delta(&self, prev: NetState, cur: NetState) -> (r: NetworkUsage)
        ensures
            r == spec_network_delta(prev, cur),
    {
        let prev_loop: IfaceCounters = self.get_statistics_safe(&prev, "loop_back");
        let prev_eth: IfaceCounters = self.get_statistics_safe(&prev, "ethernet");
        let (prev_total_rx, prev_total_tx) = self.aggregate_network_totals(&prev_loop, &prev_eth);

        let cur_loop: IfaceCounters = self.get_statistics_safe(&cur, "loop_back");
        let cur_eth: IfaceCounters = self.get_statistics_safe(&cur, "ethernet");
        let (cur_total_rx, cur_total_tx) = self.aggregate_network_totals(&cur_loop, &cur_eth);

        let total_rx_delta: u64 = cur_total_rx.saturating_sub(prev_total_rx);
        let total_tx_delta: u64 = cur_total_tx.saturating_sub(prev_total_tx);
        let loop_rx_delta: u64 = cur_loop.rx.saturating_sub(prev_loop.rx);
        let loop_tx_delta: u64 = cur_loop.tx.saturating_sub(prev_loop.tx);
        let eth_rx_delta: u64 = cur_eth.rx.saturating_sub(prev_eth.rx);
        let eth_tx_delta: u64 = cur_eth.tx.saturating_sub(prev_eth.tx);

        NetworkUsage::new(
            total_rx_delta,
            total_tx_delta,
            loop_rx_delta,
            loop_tx_delta,
            eth_rx_delta,
            eth_tx_delta,
        )
    }

    /// Diffs two packet snapshots over the tracked keys, as
    /// `fold_packet_delta` describes: a key missing on either side
    /// contributes zero and the computation goes on.
    pub fn calculate_network_packet_delta(
        &self,
        prev: PacketState,
        cur: PacketState,
        network_tx_rx_list: &Vec<String>,
    ) -> (r: NetworkPacketInfo)
        ensures
            r == fold_packet_delta(prev, cur, network_tx_rx_list@.map_values(|s: String| s@)),
    {
        let mut recv_dropped_packets: u64 = 0;
        let mut send_dropped_packets: u64 = 0;
        let mut recv_errors_packet: u64 = 0;
        let mut send_errors_packet: u64 = 0;

        let ghost keys = network_tx_rx_list@.map_values(|s: String| s@);
        let n: usize = network_tx_rx_list.len();
        let mut i: usize = 0;
        while i < n
            invariant
                0 <= i <= n,
                n == network_tx_rx_list@.len(),
                keys == network_tx_rx_list@.map_values(|s: String| s@),
                keys.len() == n,
                (NetworkPacketInfo {
                    recv_dropped_packets,
                    send_dropped_packets,
                    recv_errors_packet,
                    send_errors_packet,
                }) == fold_packet_delta(prev, cur, keys.take(i as int)),
            decreases n - i,
        {
            let network: &String = &network_tx_rx_list[i];
            assert(keys.take(i + 1).drop_last() =~= keys.take(i as int));
            assert(keys.take(i + 1).last() == keys[i as int]);
            assert(keys[i as int] == network@);

            let prev_iface_counter = prev.get_iface(network.as_str());
            let cur_iface_counter = cur.get_iface(network.as_str());

            if let (Some(prev_c), Some(cur_c)) = (prev_iface_counter, cur_iface_counter) {
                recv_dropped_packets = recv_dropped_packets.saturating_add(
                    cur_c.rx_dropped.saturating_sub(prev_c.rx_dropped),
                );
                send_dropped_packets = send_dropped_packets.saturating_add(
                    cur_c.tx_dropped.saturating_sub(prev_c.tx_dropped),
                );
                recv_errors_packet = recv_errors_packet.saturating_add(
                    cur_c.rx_errors.saturating_sub(prev_c.rx_errors),
                );
                send_errors_packet = send_errors_packet.saturating_add(
                    cur_c.tx_errors.saturating_sub(prev_c.tx_errors),
                );
            }
            i = i + 1;
        }
        assert(keys.take(n as int) =~= keys);

        NetworkPacketInfo::new(
            recv_dropped_packets,
            send_dropped_packets,
            recv_errors_packet,
            send_errors_packet,
        )
    }

    /// Tallies the TCP connection lines of one kernel connection table:
    /// the total, and the established, time-wait, listen and close-wait
    /// counts, as the `count_*_lines` functions describe.
    pub fn parse_tcp_connections(&self, content: &str) -> (r: (i32, i32, i32, i32, i32))
        requires
            content@.len() + 1 <= i32::MAX,
        ensures
            ({
                let ls = spec_lines(content@);
                &&& r.0 == count_conn_lines(ls)
                &&& r.1 == count_state_lines(ls, 0x01)
                &&& r.2 == count_state_lines(ls, 0x06)
                &&& r.3 == count_state_lines(ls, 0x0A)
                &&& r.4 == count_state_lines(ls, 0x08)
                &&& 0 <= r.1 <= r.0
                &&& 0 <= r.2 <= r.0
                &&& 0 <= r.3 <= r.0
                &&& 0 <= r.4 <= r.0
                &&& r.0 <= content@.len()
            }),
    {
        let lines: Vec<String> = str_lines(content);
        let ghost ls = spec_lines(content@);
        proof {
            lemma_spec_lines_count(content@);
        }
        let n: usize = lines.len();
        assert(n == ls.len() && n <= content@.len() + 1);
        assert(forall|j: int| 0 <= j < n ==> #[trigger] lines@[j]@ == ls[j]);
        let mut connections: i32 = 0;
        let mut established: i32 = 0;
        let mut timewait: i32 = 0;
        let mut listen: i32 = 0;
        let mut close_wait: i32 = 0;
        if n <= 1 {
            return (0, 0, 0, 0, 0);
        }
        let mut i: usize = 1;
        while i < n
            invariant
                1 <= i <= n,
                n == ls.len(),
                n == lines@.len(),
                n <= content@.len() + 1,
                content@.len() + 1 <= i32::MAX,
                ls == spec_lines(content@),
                forall|j: int| 0 <= j < n ==> #[trigger] lines@[j]@ == ls[j],
                connections == count_conn_lines(ls.take(i as int)),
                established == count_state_lines(ls.take(i as int), 0x01),
                timewait == count_state_lines(ls.take(i as int), 0x06),
                listen == count_state_lines(ls.take(i as int), 0x0A),
                close_wait == count_state_lines(ls.take(i as int), 0x08),
                0 <= established <= connections,
                0 <= timewait <= connections,
                0 <= listen <= connections,
                0 <= close_wait <= connections,
                connections <= i - 1,
            decreases n - i,
        {
            assert(ls.take(i + 1).drop_last() =~= ls.take(i as int));
            assert(ls.take(i + 1).last() == ls[i as int]);
            assert(ls.take(i + 1).len() == i + 1 >= 2);
            let parts: Vec<String> = str_fields(lines[i].as_str());
            assert(parts@.map_values(|t: String| t@) == spec_fields(ls[i as int]));
            if parts.len() >= 4 {
                connections = connections + 1;
                assert(parts@[3]@ == spec_fields(ls[i as int])[3]);
                match parse_hex_u32(parts[3].as_str()) {
                    Some(state_value) => {
                        assert(tcp_line_state(ls[i as int]) == Some(state_value));
                        match TcpState::from_u32(state_value) {
                            Some(tcp_state) => {
                                match tcp_state {
                                    TcpState::Established => {
                                        established = established + 1;
                                    },
                                    TcpState::Listen => {
                                        listen = listen + 1;
                                    },
                                    TcpState::TimeWait => {
                                        timewait = timewait + 1;
                                    },
                                    TcpState::CloseWait => {
                                        close_wait = close_wait + 1;
                                    },
                                    _ => {},
                                }
                            },
                            None => {},
                        }
                    },
                    None => {
                        assert(tcp_line_state(ls[i as int]) is None);
                    },
                }
            } else {
                assert(spec_fields(ls[i as int]).len() < 4);
                assert(tcp_line_state(ls[i as int]) is None);
            }
            i = i + 1;
        }
        assert(ls.take(n as int) =~= ls);
        (connections, established, timewait, listen, close_wait)
    }

    /// The number of socket lines after the header of one kernel socket
    /// table.
    pub fn count_udp_sockets(&self, content: &str) -> (r: i32)
        requires
            content@.len() + 1 <= i32::MAX,
        ensures
            r == (if spec_lines(content@).len() >= 1 {
                spec_lines(content@).len() - 1
            } else {
                0int
            }),
            0 <= r <= content@.len(),
    {
        let lines: Vec<String> = str_lines(content);
        proof {
            lemma_spec_lines_count(content@);
        }
        let n: usize = lines.len();
        if n == 0 {
            0
        } else {
            (n - 1) as i32
        }
    }

    /// Tallies the socket states over the four kernel tables: the TCP
    /// counts summed over the two TCP tables, the UDP socket counts summed
    /// over the two UDP tables.
    pub fn get_socket_info(
        &self,
        tcp_content: &str,
        tcp6_content: &str,
        udp_content: &str,
        udp6_content: &str,
    ) -> (r: NetworkSocketInfo)
        requires
            tcp_content@.len() + tcp6_content@.len() + 2 <= i32::MAX,
            udp_content@.len() + udp6_content@.len() + 2 <= i32::MAX,
        ensures
            ({
                let l4 = spec_lines(tcp_content@);
                let l6 = spec_lines(tcp6_content@);
                let u4 = spec_lines(udp_content@);
                let u6 = spec_lines(udp6_content@);
                &&& r.tcp_connections == count_conn_lines(l4) + count_conn_lines(l6)
                &&& r.tcp_established == count_state_lines(l4, 0x01) + count_state_lines(l6, 0x01)
                &&& r.tcp_timewait == count_state_lines(l4, 0x06) + count_state_lines(l6, 0x06)
                &&& r.tcp_listen == count_state_lines(l4, 0x0A) + count_state_lines(l6, 0x0A)
                &&& r.tcp_close_wait == count_state_lines(l4, 0x08) + count_state_lines(l6, 0x08)
                &&& r.udp_sockets == (if u4.len() >= 1 {
                    u4.len() - 1
                } else {
                    0int
                }) + (if u6.len() >= 1 {
                    u6.len() - 1
                } else {
                    0int
                })
            }),
    {
        let (tcp_conn, tcp_est, tcp_tw, tcp_listen, tcp_cw) = self.parse_tcp_connections(
            tcp_content,
        );
        let (tcp6_conn, tcp6_est, tcp6_tw, tcp6_listen, tcp6_cw) = self.parse_tcp_connections(
            tcp6_content,
        );

        let udp4_sockets: i32 = self.count_udp_sockets(udp_content);
        let udp6_sockets: i32 = self.count_udp_sockets(udp6_content);

        let total_tcp_connections: i32 = tcp_conn + tcp6_conn;
        let total_udp_sockets: i32 = udp4_sockets + udp6_sockets;
        let total_tcp_established: i32 = tcp_est + tcp6_est;
        let total_tcp_timewait: i32 = tcp_tw + tcp6_tw;
        let total_tcp_listen: i32 = tcp_listen + tcp6_listen;
        let total_tcp_close_wait: i32 = tcp_cw + tcp6_cw;

        NetworkSocketInfo::new(
            total_tcp_connections,
            total_udp_sockets,
            total_tcp_established,
            total_tcp_timewait,
            total_tcp_listen,
            total_tcp_close_wait,
        )
    }

    /// Reads the last two fields of one tool-output line as counters; a
    /// missing or unreadable field counts as zero.
    pub fn get_socket_info_parsing(&self, socket_vec: &Vec<String>) -> (r: (u64, u64))
        ensures
            r.0 == (if socket_vec@.len() >= 2 {
                parse_or_zero(socket_vec@[socket_vec@.len() - 2]@)
            } else {
                0u64
            }),
            r.1 == (if socket_vec@.len() >= 1 {
                parse_or_zero(socket_vec@[socket_vec@.len() - 1]@)
            } else {
                0u64
            }),
    {
        let n: usize = socket_vec.len();
        let recv_packet: u64 = if n >= 2 {
            match parse_u64(socket_vec[n - 2].as_str()) {
                Some(v) => v,
                None => 0,
            }
        } else {
            0
        };
        let send_packet: u64 = if n >= 1 {
            match parse_u64(socket_vec[n - 1].as_str()) {
                Some(v) => v,
                None => 0,
            }
        } else {
            0
        };
        (recv_packet, send_packet)
    }

    /// Builds the packet snapshot from one round of kernel counter
    /// samples, as `fold_packet_samples` describes.
    pub fn calculate_sysfs_packet_infos(&self, samples: &Vec<PacketSample>, captured_at: String)
        -> (r: PacketState)
        ensures
            r.ifaces.entries_seq() == fold_packet_samples(samples@),
            r.updated_at@ == captured_at@,
            r.wf(),
    {
        let ghost cap = captured_at@;
        let mut network_packet_info: PacketState = PacketState::new(captured_at);
        let n: usize = samples.len();
        let mut i: usize = 0;
        while i < n
            invariant
                0 <= i <= n,
                n == samples@.len(),
                network_packet_info.wf(),
                network_packet_info.updated_at@ == cap,
                network_packet_info.ifaces.entries_seq() == fold_packet_samples(
                    samples@.take(i as int),
                ),
            decreases n - i,
        {
            assert(samples@.take(i + 1).drop_last() =~= samples@.take(i as int));
            assert(samples@.take(i + 1).last() == samples@[i as int]);
            let name: String = samples[i].name.clone();
            network_packet_info.add_iface(name, samples[i].info);
            i = i + 1;
        }
        assert(samples@.take(n as int) =~= samples@);
        network_packet_info
    }

    /// One network-usage cycle: takes the stored previous snapshot over,
    /// healing an absent or corrupt store with the freshly built one,
    /// diffs it against the snapshot built from this round's samples, and
    /// hands back the text that persists the new snapshot. The snapshots
    /// themselves are returned as ghost values the contract speaks of.
    pub fn get_network_usage(
        &self,
        stored: &Option<String>,
        samples: &Vec<IfaceSample>,
        captured_at: String,
    ) -> (r: (NetworkUsage, String, Ghost<NetState>, Ghost<NetState>))
        requires
            forall|i: int| 0 <= i < samples@.len() ==> storable_key((#[trigger] samples@[i]).name@),
            storable_text(captured_at@),
        ensures
            ({
                let prev = r.2@;
                let cur = r.3@;
                &&& cur.ifaces.entries_seq() == fold_iface_samples(samples@)
                &&& cur.statistics.entries_seq() == seq_insert(
                    seq_insert(
                        Seq::<(Seq<char>, IfaceCounters)>::empty(),
                        "loop_back"@,
                        IfaceCounters {
                            rx: fold_class_totals(samples@, true).0,
                            tx: fold_class_totals(samples@, true).1,
                        },
                    ),
                    "ethernet"@,
                    IfaceCounters {
                        rx: fold_class_totals(samples@, false).0,
                        tx: fold_class_totals(samples@, false).1,
                    },
                )
                &&& cur.updated_at@ == captured_at@
                &&& (match stored {
                    Some(text) => {
                        if NetState::spec_decodable(text@) {
                            NetState::spec_decodes(text@, &prev)
                        } else {
                            net_model(prev) == net_model(cur)
                        }
                    },
                    None => net_model(prev) == net_model(cur),
                })
                &&& r.0 == spec_network_delta(prev, cur)
                &&& r.1@ == cur.spec_encode()
            }),
    {
        let fresh: NetState = self.calculate_sysfs_net_infos(samples, captured_at.clone());
        proof {
            lemma_fold_iface_samples_storable(samples@);
            lemma_stat_keys_storable();
            assert(entries_storable(fresh.statistics.entries_seq())) by {
                lemma_storable_insert(
                    Seq::<(Seq<char>, IfaceCounters)>::empty(),
                    "loop_back"@,
                    IfaceCounters {
                        rx: fold_class_totals(samples@, true).0,
                        tx: fold_class_totals(samples@, true).1,
                    },
                );
                lemma_storable_insert(
                    seq_insert(
                        Seq::<(Seq<char>, IfaceCounters)>::empty(),
                        "loop_back"@,
                        IfaceCounters {
                            rx: fold_class_totals(samples@, true).0,
                            tx: fold_class_totals(samples@, true).1,
                        },
                    ),
                    "ethernet"@,
                    IfaceCounters {
                        rx: fold_class_totals(samples@, false).0,
                        tx: fold_class_totals(samples@, false).1,
                    },
                );
            }
            assert(fresh.wf_store());
        }
        let (prev_net_state, _heal_write) = load_or_create_file::<NetState>(stored, fresh);

        let cur_net_state: NetState = self.calculate_sysfs_net_infos(samples, captured_at);

        let encoded: String = cur_net_state.encode();

        let ghost gprev = prev_net_state;
        let ghost gcur = cur_net_state;
        let cur_network_usage: NetworkUsage = self.calculate_network_delta(
            prev_net_state,
            cur_net_state,
        );
        (cur_network_usage, encoded, Ghost(gprev), Ghost(gcur))
    }

    /// One packet cycle: takes the stored previous packet snapshot over,
    /// healing an absent or corrupt store with the freshly built one,
    /// diffs it against the snapshot built from this round's samples over
    /// the configured keys, and hands back the text that persists the new
    /// snapshot.
    pub fn get_network_packet_infos(
        &self,
        stored: &Option<String>,
        samples: &Vec<PacketSample>,
        captured_at: String,
    ) -> (r: (NetworkPacketInfo, String, Ghost<PacketState>, Ghost<PacketState>))
        requires
            forall|i: int| 0 <= i < samples@.len() ==> storable_key((#[trigger] samples@[i]).name@),
            storable_text(captured_at@),
        ensures
            ({
                let prev = r.2@;
                let cur = r.3@;
                &&& cur.ifaces.entries_seq() == fold_packet_samples(samples@)
                &&& cur.updated_at@ == captured_at@
                &&& (match stored {
                    Some(text) => {
                        if PacketState::spec_decodable(text@) {
                            PacketState::spec_decodes(text@, &prev)
                        } else {
                            pkt_model(prev) == pkt_model(cur)
                        }
                    },
                    None => pkt_model(prev) == pkt_model(cur),
                })
                &&& r.0 == fold_packet_delta(
                    prev,
                    cur,
                    self.spec_linux_config().network_tx_rx_list@.map_values(|s: String| s@),
                )
                &&& r.1@ == cur.spec_encode()
            }),
    {
        let fresh: PacketState = self.calculate_sysfs_packet_infos(samples, captured_at.clone());
        proof {
            lemma_fold_packet_samples_storable(samples@);
            assert(fresh.wf_store());
        }
        let (prev_packet_state, _heal_write) = load_or_create_file::<PacketState>(stored, fresh);

        let cur_packet_state: PacketState = self.calculate_sysfs_packet_infos(
            samples,
            captured_at,
        );

        let encoded: String = cur_packet_state.encode();

        let ghost gprev = prev_packet_state;
        let ghost gcur = cur_packet_state;
        let network_packet_usage: NetworkPacketInfo = self.calculate_network_packet_delta(
            prev_packet_state,
            cur_packet_state,
            &self.linux_config.network_tx_rx_list,
        );
        (network_packet_usage, encoded, Ghost(gprev), Ghost(gcur))
    }

    /// The tracked keys the snapshot has no record for, in order: the keys
    /// whose contribution the packet delta replaces with zero. The caller
    /// owns the log line each miss deserves.
    pub fn missing_packet_keys(&self, st: &PacketState, network_tx_rx_list: &Vec<String>) -> (r:
        Vec<String>)
        ensures
            r@.map_values(|s: String| s@) == spec_missing_keys(
                *st,
                network_tx_rx_list@.map_values(|s: String| s@),
            ),
    {
        let ghost keys = network_tx_rx_list@.map_values(|s: String| s@);
        let mut out: Vec<String> = Vec::new();
        let n: usize = network_tx_rx_list.len();
        proof {
            assert(out@.map_values(|s: String| s@) =~= spec_missing_keys(*st, keys.take(0)));
        }
        let mut i: usize = 0;
        while i < n
            invariant
                0 <= i <= n,
                n == network_tx_rx_list@.len(),
                keys == network_tx_rx_list@.map_values(|s: String| s@),
                keys.len() == n,
                out@.map_values(|s: String| s@) == spec_missing_keys(*st, keys.take(i as int)),
            decreases n - i,
        {
            assert(keys.take(i + 1).drop_last() =~= keys.take(i as int));
            assert(keys.take(i + 1).last() == keys[i as int]);
            assert(keys[i as int] == network_tx_rx_list@[i as int]@);
            let absent: bool = st.get_iface(network_tx_rx_list[i].as_str()).is_none();
            if absent {
                let ghost out0 = out@;
                out.push(network_tx_rx_list[i].clone());
                assert(out@.map_values(|s: String| s@) =~~= spec_missing_keys(
                    *st,
                    keys.take(i + 1),
                )) by {
                    assert(out@ == out0.push(out@[out0.len() as int]));
                    assert(out@[out0.len() as int]@ == keys[i as int]);
                }
            }
            i = i + 1;
        }
        assert(keys.take(n as int) =~= keys);
        out
    }

    /// Sums the resident and virtual memory of the processes whose
    /// lower-cased name contains one of the measured keywords, clamped
    /// rather than wrapped.
    pub fn get_process_mem_usage(&self, processes: &Vec<ProcessSample>) -> (r: OsMemRes)
        ensures
            r.working_set_size == fold_process_mem(processes@, target_keywords()).0,
            r.virtual_size == fold_process_mem(processes@, target_keywords()).1,
    {
        let mut total_rss_byte: u64 = 0;
        let mut total_vms_byte: u64 = 0;
        let n: usize = processes.len();
        let mut i: usize = 0;
        while i < n
            invariant
                0 <= i <= n,
                n == processes@.len(),
                (total_rss_byte, total_vms_byte) == fold_process_mem(
                    processes@.take(i as int),
                    target_keywords(),
                ),
            decreases n - i,
        {
            assert(processes@.take(i + 1).drop_last() =~= processes@.take(i as int));
            assert(processes@.take(i + 1).last() == processes@[i as int]);
            let name_lower: String = lowercase(processes[i].name.as_str());
            let matched: bool = str_contains(name_lower.as_str(), "java") || str_contains(
                name_lower.as_str(),
                "jdk",
            ) || str_contains(name_lower.as_str(), "elasticsearch");
            proof {
                assert(target_keywords()[0] == "java"@);
                assert(target_keywords()[1] == "jdk"@);
                assert(target_keywords()[2] == "elasticsearch"@);
                if matched {
                    assert(process_matches(processes@[i as int].name@, target_keywords()));
                } else {
                    assert forall|k: int|
                        0 <= k < target_keywords().len() implies !spec_contains_sub(
                        lower_of(processes@[i as int].name@),
                        #[trigger] target_keywords()[k],
                    ) by {
                        if k == 0 {
                        } else if k == 1 {
                        } else {
                            assert(target_keywords()[k] == "elasticsearch"@);
                        }
                    }
                }
            }
            if matched {
                total_rss_byte = total_rss_byte.saturating_add(processes[i].memory);
                total_vms_byte = total_vms_byte.saturating_add(processes[i].virtual_memory);
            }
            i = i + 1;
        }
        assert(processes@.take(n as int) =~= processes@);
        OsMemRes::new(total_rss_byte, total_vms_byte)
    }
}

} // verus!
