pub mod cluster_json;
pub mod counter_map;
pub mod elastic_info_config;
pub mod linux_config;
pub mod memory;
pub mod network;
pub mod network_packet;
pub mod network_socket_info;
pub mod system_config;
