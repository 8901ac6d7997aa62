use os_metric_beats::common_enums::tcp_state::TcpState;
use os_metric_beats::model::linux_config::LinuxConfig;
use os_metric_beats::model::memory::ProcessSample;
use os_metric_beats::model::network_socket_info::SocketRecord;
use os_metric_beats::service::linux_metric_service_impl::LinuxMetricServiceImpl;
use os_metric_beats::service::linux_process_service_impl::LinuxProcessServiceImpl;
use os_metric_beats::service::windows_metirc_service_impl::WindowsMetricServiceImpl;

fn service() -> LinuxMetricServiceImpl {
    LinuxMetricServiceImpl::new(LinuxConfig { network_tx_rx_list: vec![] })
}

#[test]
fn tcp_state_codes_round_trip() {
    assert_eq!(TcpState::from_u32(0x01), Some(TcpState::Established));
    assert_eq!(TcpState::from_u32(0x06), Some(TcpState::TimeWait));
    assert_eq!(TcpState::from_u32(0x0A), Some(TcpState::Listen));
    assert_eq!(TcpState::from_u32(0x0B), Some(TcpState::Closing));
    assert_eq!(TcpState::from_u32(0x00), None);
    assert_eq!(TcpState::from_u32(0x0C), None);
    assert_eq!(TcpState::Established.as_str(), "ESTABLISHED");
    assert_eq!(TcpState::CloseWait.as_str(), "CLOSE_WAIT");
}

#[test]
fn parse_tcp_connections_counts_states() {
    let content = "  sl  local_address rem_address   st tx_queue\n\
                   0: 00000000:0016 00000000:0000 0A 00000000\n\
                   1: 0100007F:1F40 00000000:0000 01 00000000\n\
                   2: 0100007F:1F90 0100007F:C350 01 00000000\n\
                   3: 0100007F:1F90 0100007F:C351 06 00000000\n\
                   4: 0100007F:1F90 0100007F:C352 08 00000000\n\
                   short line\n";
    let svc = service();
    let (conn, est, tw, listen, cw) = svc.parse_tcp_connections(content);
    assert_eq!(conn, 5);
    assert_eq!(est, 2);
    assert_eq!(tw, 1);
    assert_eq!(listen, 1);
    assert_eq!(cw, 1);
}

#[test]
fn parse_tcp_connections_empty_input() {
    let svc = service();
    assert_eq!(svc.parse_tcp_connections(""), (0, 0, 0, 0, 0));
    assert_eq!(svc.parse_tcp_connections("header only\n"), (0, 0, 0, 0, 0));
}

#[test]
fn count_udp_sockets_skips_header() {
    let svc = service();
    assert_eq!(svc.count_udp_sockets("hdr\na b c\nd e f\n"), 2);
    assert_eq!(svc.count_udp_sockets("hdr\n"), 0);
    assert_eq!(svc.count_udp_sockets(""), 0);
}

#[test]
fn get_socket_info_sums_both_families() {
    let svc = service();
    let tcp = "hdr\n0: a b 01 x\n1: a b 06 x\n";
    let tcp6 = "hdr\n0: a b 01 x\n";
    let udp = "hdr\nrow\n";
    let udp6 = "hdr\nrow\nrow\n";
    let info = svc.get_socket_info(tcp, tcp6, udp, udp6);
    assert_eq!(info.tcp_connections, 3);
    assert_eq!(info.tcp_established, 2);
    assert_eq!(info.tcp_timewait, 1);
    assert_eq!(info.tcp_listen, 0);
    assert_eq!(info.tcp_close_wait, 0);
    assert_eq!(info.udp_sockets, 3);
}

#[test]
fn socket_info_parsing_reads_last_two_fields() {
    let svc = service();
    let v = vec!["Discards".to_string(), "10".to_string(), "20".to_string()];
    assert_eq!(svc.get_socket_info_parsing(&v), (10, 20));
    let one = vec!["20".to_string()];
    assert_eq!(svc.get_socket_info_parsing(&one), (0, 20));
    let none: Vec<String> = vec![];
    assert_eq!(svc.get_socket_info_parsing(&none), (0, 0));
    let bad = vec!["x".to_string(), "y".to_string()];
    assert_eq!(svc.get_socket_info_parsing(&bad), (0, 0));
}

#[test]
fn windows_netstat_table_rows_are_read_by_position() {
    let output = "\n\
Interface Statistics\n\
\n\
                           Received            Sent\n\
Bytes                    1279913096        83985865\n\
Unicast packets              961149          234136\n\
Discards                         10              20\n\
Unknown protocols                 0\n\
Errors                            3               4\n";
    let svc = WindowsMetricServiceImpl::new();
    let info = svc.get_network_packet_infos(output);
    assert_eq!(info.recv_dropped_packets, 10);
    assert_eq!(info.send_dropped_packets, 20);
    assert_eq!(info.recv_errors_packet, 3);
    assert_eq!(info.send_errors_packet, 4);
}

#[test]
fn windows_netstat_short_report_leaves_zeroes() {
    let svc = WindowsMetricServiceImpl::new();
    let info = svc.get_network_packet_infos("just\ntwo lines\n");
    assert_eq!(info.recv_dropped_packets, 0);
    assert_eq!(info.send_errors_packet, 0);
}

#[test]
fn windows_socket_records_are_tallied() {
    let svc = WindowsMetricServiceImpl::new();
    let sockets = vec![
        SocketRecord::Tcp(0x01),
        SocketRecord::Tcp(0x01),
        SocketRecord::Tcp(0x06),
        SocketRecord::Tcp(0x0A),
        SocketRecord::Tcp(0x08),
        SocketRecord::Tcp(0x02),
        SocketRecord::Udp,
        SocketRecord::Udp,
    ];
    let info = svc.get_socket_info(&sockets);
    assert_eq!(info.tcp_connections, 6);
    assert_eq!(info.udp_sockets, 2);
    assert_eq!(info.tcp_established, 2);
    assert_eq!(info.tcp_timewait, 1);
    assert_eq!(info.tcp_listen, 1);
    assert_eq!(info.tcp_close_wait, 1);
}

#[test]
fn windows_network_totals_sum_all_interfaces() {
    let svc = WindowsMetricServiceImpl::new();
    let usage = svc.get_network_usage(&vec![(100, 10), (200, 20)]);
    assert_eq!(usage.network_received, 300);
    assert_eq!(usage.network_transmitted, 30);
    assert_eq!(usage.ethernet_received, 0);
}

fn proc_sample(name: &str, mem: u64, vmem: u64) -> ProcessSample {
    ProcessSample { name: name.to_string(), memory: mem, virtual_memory: vmem }
}

#[test]
fn process_memory_matches_keywords_case_insensitively() {
    let svc = service();
    let procs = vec![
        proc_sample("JavaApp", 100, 1000),
        proc_sample("nginx", 7, 70),
        proc_sample("ElasticSearch-node", 200, 2000),
        proc_sample("OpenJDK-runtime", 30, 300),
    ];
    let mem = svc.get_process_mem_usage(&procs);
    assert_eq!(mem.working_set_size, 330);
    assert_eq!(mem.virtual_size, 3300);
    let win = WindowsMetricServiceImpl::new().get_process_mem_usage(&procs);
    assert_eq!(win.working_set_size, 330);
    assert_eq!(win.virtual_size, 3300);
}

#[test]
fn process_memory_with_caller_keywords() {
    let svc = LinuxProcessServiceImpl::new();
    let procs = vec![proc_sample("redis-server", 11, 110), proc_sample("postgres", 5, 50)];
    let keywords = vec!["redis".to_string()];
    let mem = svc.get_process_memory_usage_linux(&keywords, &procs);
    assert_eq!(mem.working_set_size, 11);
    assert_eq!(mem.virtual_size, 110);
    // the keyword is lower-cased too, as the process name is
    let upper = svc.get_process_memory_usage_linux(&vec!["Redis".to_string()], &procs);
    assert_eq!(upper.working_set_size, 11);
    let no_match = svc.get_process_memory_usage_linux(&vec!["oracle".to_string()], &procs);
    assert_eq!(no_match.working_set_size, 0);
}
