use os_metric_beats::model::linux_config::LinuxConfig;
use os_metric_beats::model::network::{IfaceSample, NetState};
use os_metric_beats::model::network_packet::{NetworkPacketInfo, PacketSample, PacketState};
use os_metric_beats::service::linux_metric_service_impl::LinuxMetricServiceImpl;
use os_metric_beats::utils_module::io_utils::{
    load_or_create_file, load_snapshot, read_u64, StorableSnapshot, StoreError,
};

fn service() -> LinuxMetricServiceImpl {
    LinuxMetricServiceImpl::new(LinuxConfig { network_tx_rx_list: vec!["eth0".to_string()] })
}

fn fresh_net() -> NetState {
    service().calculate_sysfs_net_infos(
        &vec![IfaceSample { name: "eth0".to_string(), rx: 123, tx: 456 }],
        "2024-10-16 07:05:09".to_string(),
    )
}

#[test]
fn missing_store_returns_fresh_and_heals() {
    let (got, write_back) = load_or_create_file::<NetState>(&None, fresh_net());
    let c = got.get_iface("eth0").expect("fresh snapshot kept");
    assert_eq!((c.rx, c.tx), (123, 456));
    let text = write_back.expect("store must be healed");
    // A subsequent load returns the same value.
    let loaded: NetState = load_snapshot(&Some(text)).expect("healed store decodes");
    let lc = loaded.get_iface("eth0").expect("entry survives the round trip");
    assert_eq!((lc.rx, lc.tx), (123, 456));
    let eth = loaded.get_statistics("ethernet").expect("rollup survives");
    assert_eq!((eth.rx, eth.tx), (123, 456));
    assert_eq!(loaded.updated_at, "2024-10-16 07:05:09");
}

#[test]
fn corrupt_store_returns_fresh_and_heals() {
    let stored = Some("this is not a snapshot".to_string());
    let (got, write_back) = load_or_create_file::<NetState>(&stored, fresh_net());
    let c = got.get_iface("eth0").expect("fresh snapshot kept");
    assert_eq!((c.rx, c.tx), (123, 456));
    let text = write_back.expect("store must be healed");
    let loaded: NetState = load_snapshot(&Some(text)).expect("healed store decodes");
    assert_eq!(loaded.updated_at, "2024-10-16 07:05:09");
}

#[test]
fn intact_store_is_loaded_and_left_alone() {
    let text = fresh_net().encode();
    let other = service().calculate_sysfs_net_infos(
        &vec![IfaceSample { name: "eth9".to_string(), rx: 1, tx: 1 }],
        "t9".to_string(),
    );
    let (got, write_back) = load_or_create_file::<NetState>(&Some(text), other);
    assert!(write_back.is_none());
    let c = got.get_iface("eth0").expect("stored snapshot wins");
    assert_eq!((c.rx, c.tx), (123, 456));
    assert!(got.get_iface("eth9").is_none());
}

#[test]
fn load_errors_name_their_cause() {
    let missing: Result<NetState, StoreError> = load_snapshot(&None);
    assert!(matches!(missing, Err(StoreError::NotFound)));
    let corrupt: Result<NetState, StoreError> = load_snapshot(&Some("netstate".to_string()));
    assert!(matches!(corrupt, Err(StoreError::DecodeError)));
}

#[test]
fn decode_rejects_malformed_text() {
    assert!(NetState::decode("").is_err());
    assert!(NetState::decode("netstate\n").is_err());
    assert!(NetState::decode("netstate\nt now").is_err());
    assert!(NetState::decode("netstate\nt now\ni eth0 12\n").is_err());
    assert!(NetState::decode("netstate\nt now\ni eth0 twelve 13\n").is_err());
    assert!(NetState::decode("packetstate\nt now\n").is_err());
    assert!(NetState::decode("netstate\nt now\ni eth0 12 13\n").is_ok());
}

#[test]
fn packet_snapshot_round_trips() {
    let svc = service();
    let st = svc.calculate_sysfs_packet_infos(
        &vec![PacketSample {
            name: "eth0".to_string(),
            info: NetworkPacketInfo::new(1, 2, 3, 4),
        }],
        "t0".to_string(),
    );
    let text = st.encode();
    let loaded = PacketState::decode(text.as_str()).expect("own encoding decodes");
    let c = loaded.get_iface("eth0").expect("entry survives");
    assert_eq!(c.rx_dropped, 1);
    assert_eq!(c.tx_dropped, 2);
    assert_eq!(c.rx_errors, 3);
    assert_eq!(c.tx_errors, 4);
    assert_eq!(loaded.updated_at, "t0");
}

#[test]
fn packet_decode_rejects_net_header() {
    assert!(PacketState::decode("netstate\nt now\n").is_err());
    assert!(PacketState::decode("packetstate\nt now\ni eth0 1 2 3 4\n").is_ok());
}

#[test]
fn read_u64_trims_and_defaults_to_zero() {
    assert_eq!(read_u64("  42\n"), 42);
    assert_eq!(read_u64("1234567890"), 1234567890);
    assert_eq!(read_u64("abc"), 0);
    assert_eq!(read_u64(""), 0);
    assert_eq!(read_u64("18446744073709551615"), u64::MAX);
    assert_eq!(read_u64("18446744073709551616"), 0);
    assert_eq!(read_u64(" 12 34 "), 0);
    assert_eq!(read_u64("+42"), 42);
    assert_eq!(read_u64("  +42 "), 42);
    assert_eq!(read_u64("+"), 0);
    assert_eq!(read_u64("++42"), 0);
}

#[test]
fn cycle_uses_stored_snapshot_and_persists_current() {
    let svc = service();
    let samples0 = vec![IfaceSample { name: "eth0".to_string(), rx: 1000, tx: 500 }];
    let (usage0, text0, _, _) = svc.get_network_usage(&None, &samples0, "t0".to_string());
    // First run: previous and current coincide, so the deltas are zero.
    assert_eq!(usage0.network_received, 0);
    assert_eq!(usage0.network_transmitted, 0);

    let samples1 = vec![IfaceSample { name: "eth0".to_string(), rx: 1500, tx: 650 }];
    let (usage1, text1, _, _) = svc.get_network_usage(&Some(text0), &samples1, "t1".to_string());
    assert_eq!(usage1.network_received, 500);
    assert_eq!(usage1.network_transmitted, 150);

    // The persisted text holds the current snapshot.
    let persisted = NetState::decode(text1.as_str()).expect("persisted snapshot decodes");
    let c = persisted.get_iface("eth0").expect("entry present");
    assert_eq!((c.rx, c.tx), (1500, 650));
    assert_eq!(persisted.updated_at, "t1");
}

#[test]
fn packet_cycle_diffs_against_stored_snapshot() {
    let svc = service();
    let s0 = vec![PacketSample {
        name: "eth0".to_string(),
        info: NetworkPacketInfo::new(10, 20, 30, 40),
    }];
    let (d0, text0, _, _) = svc.get_network_packet_infos(&None, &s0, "t0".to_string());
    assert_eq!(d0.recv_dropped_packets, 0);
    let s1 = vec![PacketSample {
        name: "eth0".to_string(),
        info: NetworkPacketInfo::new(15, 27, 41, 56),
    }];
    let (d1, _text1, _, _) = svc.get_network_packet_infos(&Some(text0), &s1, "t1".to_string());
    assert_eq!(d1.recv_dropped_packets, 5);
    assert_eq!(d1.send_dropped_packets, 7);
    assert_eq!(d1.recv_errors_packet, 11);
    assert_eq!(d1.send_errors_packet, 16);
}
