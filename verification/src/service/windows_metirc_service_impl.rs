use vstd::prelude::*;
use vstd::string::*;
use crate::model::memory::{OsMemRes, ProcessSample};
use crate::model::network::NetworkUsage;
use crate::model::network_packet::NetworkPacketInfo;
use crate::model::network_socket_info::{NetworkSocketInfo, SocketRecord};
use crate::service::linux_metric_service_impl::{
    fold_process_mem, parse_or_zero, process_matches, target_keywords,
};
use crate::utils_module::parse_utils::{
    lower_of, lowercase, parse_u64, spec_fields, spec_lines, str_contains, str_fields, str_lines,
};

verus! {

/// The clamped sums of the received and transmitted byte readings over
/// all interfaces.
pub open spec fn fold_network_totals(ts: Seq<(u64, u64)>) -> (u64, u64)
    decreases ts.len(),
{
    if ts.len() == 0 {
        (0u64, 0u64)
    } else {
        let p = fold_network_totals(ts.drop_last());
        (p.0.saturating_add(ts.last().0), p.1.saturating_add(ts.last().1))
    }
}

/// The last two fields of one tool-output line read as counters, zero
/// where a field is missing or not a numeral.
pub open spec fn line_counter_pair(l: Seq<char>) -> (u64, u64) {
    let fs = spec_fields(l);
    (
        if fs.len() >= 2 {
            parse_or_zero(fs[fs.len() - 2])
        } else {
            0u64
        },
        if fs.len() >= 1 {
            parse_or_zero(fs[fs.len() - 1])
        } else {
            0u64
        },
    )
}

/// How many records are TCP sockets.
pub open spec fn count_tcp_records(ss: Seq<SocketRecord>) -> int
    decreases ss.len(),
{
    if ss.len() == 0 {
        0
    } else {
        count_tcp_records(ss.drop_last()) + if ss.last() is Tcp {
            1int
        } else {
            0int
        }
    }
}

/// How many records are UDP sockets.
pub open spec fn count_udp_records(ss: Seq<SocketRecord>) -> int
    decreases ss.len(),
{
    if ss.len() == 0 {
        0
    } else {
        count_udp_records(ss.drop_last()) + if ss.last() is Udp {
            1int
        } else {
            0int
        }
    }
}

/// How many records are TCP sockets in the given kernel state.
pub open spec fn count_tcp_state_records(ss: Seq<SocketRecord>, code: u32) -> int
    decreases ss.len(),
{
    if ss.len() == 0 {
        0
    } else {
        count_tcp_state_records(ss.drop_last(), code) + if ss.last() == SocketRecord::Tcp(code) {
            1int
        } else {
            0int
        }
    }
}

/// Computes the per-interval metrics on the Windows side from readings the
/// OS collectors hand in as plain values.
#[derive(Debug, Clone)]
pub struct WindowsMetricServiceImpl {
}

impl WindowsMetricServiceImpl {
    pub fn new() -> (r: Self)
        ensures
            r == (WindowsMetricServiceImpl {  }),
    {
        WindowsMetricServiceImpl {  }
    }

    /// The total received and transmitted bytes over all interface
    /// readings, clamped rather than wrapped.
    pub fn get_network_usage(&self, totals: &Vec<(u64, u64)>) -> (r: NetworkUsage)
        ensures
            r == (NetworkUsage {
                network_received: fold_network_totals(totals@).0,
                network_transmitted: fold_network_totals(totals@).1,
                loop_back_received: 0u64,
                loop_back_transmitted: 0u64,
                ethernet_received: 0u64,
                ethernet_transmitted: 0u64,
            }),
    {
        let mut network_received: u64 = 0;
        let mut network_transmitted: u64 = 0;
        let n: usize = totals.len();
        let mut i: usize = 0;
        while i < n
            invariant
                0 <= i <= n,
                n == totals@.len(),
                (network_received, network_transmitted) == fold_network_totals(
                    totals@.take(i as int),
                ),
            decreases n - i,
        {
            assert(totals@.take(i + 1).drop_last() =~= totals@.take(i as int));
            assert(totals@.take(i + 1).last() == totals@[i as int]);
            network_received = network_received.saturating_add(totals[i].0);
            network_transmitted = network_transmitted.saturating_add(totals[i].1);
            i = i + 1;
        }
        assert(totals@.take(n as int) =~= totals@);
        NetworkUsage::new(network_received, network_transmitted, 0, 0, 0, 0)
    }

    /// Reads the last two fields of one tool-output line as counters; a
    /// missing or unreadable field counts as zero.
    pub fn get_socket_info_parsing(&self, socket_vec: &Vec<String>) -> (r: (u64, u64))
        ensures
            r.0 == (if socket_vec@.len() >= 2 {
                parse_or_zero(socket_vec@[socket_vec@.len() - 2]@)
            } else {
                0u64
            }),
            r.1 == (if socket_vec@.len() >= 1 {
                parse_or_zero(socket_vec@[socket_vec@.len() - 1]@)
            } else {
                0u64
            }),
    {
        let n: usize = socket_vec.len();
        let recv_packet: u64 = if n >= 2 {
            match parse_u64(socket_vec[n - 2].as_str()) {
                Some(v) => v,
                None => 0,
            }
        } else {
            0
        };
        let send_packet: u64 = if n >= 1 {
            match parse_u64(socket_vec[n - 1].as_str()) {
                Some(v) => v,
                None => 0,
            }
        } else {
            0
        };
        (recv_packet, send_packet)
    }

    /// Reads the interface-statistics table the netstat tool prints: the
    /// dropped-packet counters stand on the seventh line, the error
    /// counters on the ninth; a shorter report leaves them zero.
    pub fn get_network_packet_infos(&self, output: &str) -> (r: NetworkPacketInfo)
        ensures
            ({
                let ls = spec_lines(output@);
                &&& r.recv_dropped_packets == (if ls.len() > 6 {
                    line_counter_pair(ls[6]).0
                } else {
                    0u64
                })
                &&& r.send_dropped_packets == (if ls.len() > 6 {
                    line_counter_pair(ls[6]).1
                } else {
                    0u64
                })
                &&& r.recv_errors_packet == (if ls.len() > 8 {
                    line_counter_pair(ls[8]).0
                } else {
                    0u64
                })
                &&& r.send_errors_packet == (if ls.len() > 8 {
                    line_counter_pair(ls[8]).1
                } else {
                    0u64
                })
            }),
    {
        let lines: Vec<String> = str_lines(output);
        let ghost ls = spec_lines(output@);
        assert(forall|j: int| 0 <= j < lines@.len() ==> #[trigger] lines@[j]@ == ls[j]);
        let n: usize = lines.len();
        let mut recv_dropped_packets: u64 = 0;
        let mut send_dropped_packets: u64 = 0;
        let mut recv_errors_packet: u64 = 0;
        let mut send_errors_packet: u64 = 0;
        if n > 6 {
            let parts: Vec<String> = str_fields(lines[6].as_str());
            let (a, b) = self.get_socket_info_parsing(&parts);
            proof {
                assert(parts@.map_values(|t: String| t@) == spec_fields(ls[6]));
                if parts@.len() >= 2 {
                    assert(parts@[parts@.len() - 2]@ == spec_fields(ls[6])[parts@.len() - 2]);
                }
                if parts@.len() >= 1 {
                    assert(parts@[parts@.len() - 1]@ == spec_fields(ls[6])[parts@.len() - 1]);
                }
            }
            recv_dropped_packets = a;
            send_dropped_packets = b;
        }
        if n > 8 {
            let parts: Vec<String> = str_fields(lines[8].as_str());
            let (a, b) = self.get_socket_info_parsing(&parts);
            proof {
                assert(parts@.map_values(|t: String| t@) == spec_fields(ls[8]));
                if parts@.len() >= 2 {
                    assert(parts@[parts@.len() - 2]@ == spec_fields(ls[8])[parts@.len() - 2]);
                }
                if parts@.len() >= 1 {
                    assert(parts@[parts@.len() - 1]@ == spec_fields(ls[8])[parts@.len() - 1]);
                }
            }
            recv_errors_packet = a;
            send_errors_packet = b;
        }
        NetworkPacketInfo::new(
            recv_dropped_packets,
            send_dropped_packets,
            recv_errors_packet,
            send_errors_packet,
        )
    }

    /// Tallies the socket records the OS enumeration handed in: every TCP
    /// socket counts as a connection, and the four tracked states are
    /// counted separately.
    pub fn get_socket_info(&self, sockets: &Vec<SocketRecord>) -> (r: NetworkSocketInfo)
        requires
            sockets@.len() <= i32::MAX,
        ensures
            r.tcp_connections == count_tcp_records(sockets@),
            r.udp_sockets == count_udp_records(sockets@),
            r.tcp_established == count_tcp_state_records(sockets@, 0x01),
            r.tcp_timewait == count_tcp_state_records(sockets@, 0x06),
            r.tcp_listen == count_tcp_state_records(sockets@, 0x0A),
            r.tcp_close_wait == count_tcp_state_records(sockets@, 0x08),
    {
        let mut tcp_connections: i32 = 0;
        let mut udp_sockets: i32 = 0;
        let mut tcp_established: i32 = 0;
        let mut tcp_timewait: i32 = 0;
        let mut tcp_listen: i32 = 0;
        let mut tcp_close_wait: i32 = 0;
        let n: usize = sockets.len();
        let mut i: usize = 0;
        while i < n
            invariant
                0 <= i <= n,
                n == sockets@.len(),
                n <= i32::MAX,
                tcp_connections == count_tcp_records(sockets@.take(i as int)),
                udp_sockets == count_udp_records(sockets@.take(i as int)),
                tcp_established == count_tcp_state_records(sockets@.take(i as int), 0x01),
                tcp_timewait == count_tcp_state_records(sockets@.take(i as int), 0x06),
                tcp_listen == count_tcp_state_records(sockets@.take(i as int), 0x0A),
                tcp_close_wait == count_tcp_state_records(sockets@.take(i as int), 0x08),
                0 <= tcp_connections <= i,
                0 <= udp_sockets <= i,
                0 <= tcp_established <= tcp_connections,
                0 <= tcp_timewait <= tcp_connections,
                0 <= tcp_listen <= tcp_connections,
                0 <= tcp_close_wait <= tcp_connections,
            decreases n - i,
        {
            assert(sockets@.take(i + 1).drop_last() =~= sockets@.take(i as int));
            assert(sockets@.take(i + 1).last() == sockets@[i as int]);
            match &sockets[i] {
                SocketRecord::Tcp(state) => {
                    tcp_connections = tcp_connections + 1;
                    if *state == 0x01 {
                        tcp_established = tcp_established + 1;
                    } else if *state == 0x06 {
                        tcp_timewait = tcp_timewait + 1;
                    } else if *state == 0x0A {
                        tcp_listen = tcp_listen + 1;
                    } else if *state == 0x08 {
                        tcp_close_wait = tcp_close_wait + 1;
                    }
                },
                SocketRecord::Udp => {
                    udp_sockets = udp_sockets + 1;
                },
            }
            i = i + 1;
        }
        assert(sockets@.take(n as int) =~= sockets@);
        NetworkSocketInfo::new(
            tcp_connections,
            udp_sockets,
            tcp_established,
            tcp_timewait,
            tcp_listen,
            tcp_close_wait,
        )
    }

    /// Sums the resident and virtual memory of the processes whose
    /// lower-cased name contains one of the measured keywords, clamped
    /// rather than wrapped.
    pub fn get_process_mem_usage(&self, processes: &Vec<ProcessSample>) -> (r: OsMemRes)
        ensures
            r.working_set_size == fold_process_mem(processes@, target_keywords()).0,
            r.virtual_size == fold_process_mem(processes@, target_keywords()).1,
    {
        let mut total_rss_byte: u64 = 0;
        let mut total_vms_byte: u64 = 0;
        let n: usize = processes.len();
        let mut i: usize = 0;
        while i < n
            invariant
                0 <= i <= n,
                n == processes@.len(),
                (total_rss_byte, total_vms_byte) == fold_process_mem(
                    processes@.take(i as int),
                    target_keywords(),
                ),
            decreases n - i,
        {
            assert(processes@.take(i + 1).drop_last() =~= processes@.take(i as int));
            assert(processes@.take(i + 1).last() == processes@[i as int]);
            let name_lower: String = lowercase(processes[i].name.as_str());
            let matched: bool = str_contains(name_lower.as_str(), "java") || str_contains(
                name_lower.as_str(),
                "jdk",
            ) || str_contains(name_lower.as_str(), "elasticsearch");
            proof {
                assert(target_keywords()[0] == "java"@);
                assert(target_keywords()[1] == "jdk"@);
                assert(target_keywords()[2] == "elasticsearch"@);
                if matched {
                    assert(process_matches(processes@[i as int].name@, target_keywords()));
                } else {
                    assert forall|k: int|
                        0 <= k < target_keywords().len() implies !crate::utils_module::parse_utils::spec_contains_sub(
                        lower_of(processes@[i as int].name@),
                        #[trigger] target_keywords()[k],
                    ) by {
                        if k == 0 {
                        } else if k == 1 {
                        } else {
                            assert(target_keywords()[k] == "elasticsearch"@);
                        }
                    }
                }
            }
            if matched {
                total_rss_byte = total_rss_byte.saturating_add(processes[i].memory);
                total_vms_byte = total_vms_byte.saturating_add(processes[i].virtual_memory);
            }
            i = i + 1;
        }
        assert(processes@.take(n as int) =~= processes@);
        OsMemRes::new(total_rss_byte, total_vms_byte)
    }
}

} // verus!
