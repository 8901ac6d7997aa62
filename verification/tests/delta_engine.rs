use os_metric_beats::model::linux_config::LinuxConfig;
use os_metric_beats::model::network::IfaceSample;
use os_metric_beats::model::network_packet::{NetworkPacketInfo, PacketSample};
use os_metric_beats::service::linux_metric_service_impl::LinuxMetricServiceImpl;

fn service_with(keys: Vec<&str>) -> LinuxMetricServiceImpl {
    LinuxMetricServiceImpl::new(LinuxConfig {
        network_tx_rx_list: keys.into_iter().map(|s| s.to_string()).collect(),
    })
}

fn iface_sample(name: &str, rx: u64, tx: u64) -> IfaceSample {
    IfaceSample { name: name.to_string(), rx, tx }
}

fn packet_sample(name: &str, rd: u64, sd: u64, re: u64, se: u64) -> PacketSample {
    PacketSample { name: name.to_string(), info: NetworkPacketInfo::new(rd, sd, re, se) }
}

#[test]
fn network_delta_concrete_scenario() {
    let svc = service_with(vec!["eth0"]);
    let prev = svc.calculate_sysfs_net_infos(&vec![iface_sample("eth0", 1000, 500)], "t0".to_string());
    let cur = svc.calculate_sysfs_net_infos(&vec![iface_sample("eth0", 1500, 650)], "t1".to_string());
    let usage = svc.calculate_network_delta(prev, cur);
    assert_eq!(usage.network_received, 500);
    assert_eq!(usage.network_transmitted, 150);
    assert_eq!(usage.ethernet_received, 500);
    assert_eq!(usage.ethernet_transmitted, 150);
    assert_eq!(usage.loop_back_received, 0);
    assert_eq!(usage.loop_back_transmitted, 0);
}

#[test]
fn network_delta_counter_reset_clamps_to_zero() {
    let svc = service_with(vec!["eth0"]);
    let prev = svc.calculate_sysfs_net_infos(&vec![iface_sample("eth0", 9000, 9000)], "t0".to_string());
    let cur = svc.calculate_sysfs_net_infos(&vec![iface_sample("eth0", 100, 50)], "t1".to_string());
    let usage = svc.calculate_network_delta(prev, cur);
    assert_eq!(usage.network_received, 0);
    assert_eq!(usage.network_transmitted, 0);
    assert_eq!(usage.ethernet_received, 0);
    assert_eq!(usage.ethernet_transmitted, 0);
}

#[test]
fn network_delta_splits_internal_and_external() {
    let svc = service_with(vec!["lo", "eth0"]);
    let prev = svc.calculate_sysfs_net_infos(
        &vec![iface_sample("lo", 10, 20), iface_sample("eth0", 100, 200)],
        "t0".to_string(),
    );
    let cur = svc.calculate_sysfs_net_infos(
        &vec![iface_sample("lo", 15, 26), iface_sample("eth0", 140, 280)],
        "t1".to_string(),
    );
    let usage = svc.calculate_network_delta(prev, cur);
    assert_eq!(usage.loop_back_received, 5);
    assert_eq!(usage.loop_back_transmitted, 6);
    assert_eq!(usage.ethernet_received, 40);
    assert_eq!(usage.ethernet_transmitted, 80);
    assert_eq!(usage.network_received, 45);
    assert_eq!(usage.network_transmitted, 86);
}

#[test]
fn packet_delta_monotone_counters_are_exact_sums() {
    let svc = service_with(vec!["eth0", "eth1"]);
    let keys: Vec<String> = vec!["eth0".to_string(), "eth1".to_string()];
    let prev = svc.calculate_sysfs_packet_infos(
        &vec![packet_sample("eth0", 10, 20, 30, 40), packet_sample("eth1", 1, 2, 3, 4)],
        "t0".to_string(),
    );
    let cur = svc.calculate_sysfs_packet_infos(
        &vec![packet_sample("eth0", 15, 27, 41, 56), packet_sample("eth1", 2, 4, 7, 11)],
        "t1".to_string(),
    );
    let delta = svc.calculate_network_packet_delta(prev, cur, &keys);
    // Per key: eth0 contributes (5, 7, 11, 16) and eth1 (1, 2, 4, 7).
    assert_eq!(delta.recv_dropped_packets, 6);
    assert_eq!(delta.send_dropped_packets, 9);
    assert_eq!(delta.recv_errors_packet, 15);
    assert_eq!(delta.send_errors_packet, 23);
}

#[test]
fn packet_delta_reset_key_contributes_zero() {
    let svc = service_with(vec!["eth0"]);
    let keys: Vec<String> = vec!["eth0".to_string()];
    let prev = svc.calculate_sysfs_packet_infos(
        &vec![packet_sample("eth0", 100, 100, 100, 100)],
        "t0".to_string(),
    );
    let cur = svc.calculate_sysfs_packet_infos(
        &vec![packet_sample("eth0", 5, 120, 2, 120)],
        "t1".to_string(),
    );
    let delta = svc.calculate_network_packet_delta(prev, cur, &keys);
    assert_eq!(delta.recv_dropped_packets, 0);
    assert_eq!(delta.send_dropped_packets, 20);
    assert_eq!(delta.recv_errors_packet, 0);
    assert_eq!(delta.send_errors_packet, 20);
}

#[test]
fn packet_delta_missing_key_still_succeeds() {
    let svc = service_with(vec!["eth0", "eth1"]);
    let keys: Vec<String> = vec!["eth0".to_string(), "eth1".to_string()];
    let prev = svc.calculate_sysfs_packet_infos(
        &vec![packet_sample("eth0", 10, 20, 30, 40), packet_sample("eth1", 1, 2, 3, 4)],
        "t0".to_string(),
    );
    // The current snapshot is missing eth1 entirely.
    let cur = svc.calculate_sysfs_packet_infos(
        &vec![packet_sample("eth0", 15, 27, 41, 56)],
        "t1".to_string(),
    );
    let delta = svc.calculate_network_packet_delta(prev, cur, &keys);
    assert_eq!(delta.recv_dropped_packets, 5);
    assert_eq!(delta.send_dropped_packets, 7);
    assert_eq!(delta.recv_errors_packet, 11);
    assert_eq!(delta.send_errors_packet, 16);
}

#[test]
fn snapshot_getters_reflect_samples() {
    let svc = service_with(vec!["eth0"]);
    let st = svc.calculate_sysfs_net_infos(&vec![iface_sample("eth0", 7, 9)], "t0".to_string());
    let c = st.get_iface("eth0").expect("eth0 sampled");
    assert_eq!(c.rx, 7);
    assert_eq!(c.tx, 9);
    assert!(st.get_iface("eth1").is_none());
    let eth = st.get_statistics("ethernet").expect("rollup present");
    assert_eq!(eth.rx, 7);
    assert_eq!(eth.tx, 9);
    let lo = st.get_statistics("loop_back").expect("rollup present");
    assert_eq!(lo.rx, 0);
    assert_eq!(lo.tx, 0);
    assert_eq!(st.updated_at, "t0");
}

#[test]
fn net_state_insert_replaces_and_timestamp_updates() {
    let mut st = os_metric_beats::model::network::NetState::new("t0".to_string());
    st.add_iface("eth0".to_string(), 1, 2);
    st.add_iface("eth0".to_string(), 5, 6);
    let c = st.get_iface("eth0").expect("present");
    assert_eq!((c.rx, c.tx), (5, 6));
    st.add_statistics("ethernet".to_string(), 7, 8);
    let s = st.get_statistics("ethernet").expect("present");
    assert_eq!((s.rx, s.tx), (7, 8));
    st.update_timestamp("t9".to_string());
    assert_eq!(st.updated_at, "t9");
}

#[test]
fn packet_state_keeps_each_stream_in_its_slot() {
    let mut st = os_metric_beats::model::network_packet::PacketState::new("t0".to_string());
    st.add_iface("eth0".to_string(), NetworkPacketInfo::new(1, 2, 3, 4));
    let c = st.get_iface("eth0").expect("present");
    assert_eq!(c.rx_dropped, 1);
    assert_eq!(c.tx_dropped, 2);
    assert_eq!(c.rx_errors, 3);
    assert_eq!(c.tx_errors, 4);
}

#[test]
fn missing_packet_keys_lists_absent_keys_in_order() {
    let svc = service_with(vec!["eth0", "eth1", "eth2"]);
    let keys: Vec<String> = vec!["eth0".to_string(), "eth1".to_string(), "eth2".to_string()];
    let st = svc.calculate_sysfs_packet_infos(
        &vec![packet_sample("eth1", 1, 2, 3, 4)],
        "t0".to_string(),
    );
    let missing = svc.missing_packet_keys(&st, &keys);
    assert_eq!(missing, vec!["eth0".to_string(), "eth2".to_string()]);
}
