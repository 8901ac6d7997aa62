pub mod memory_service;
pub mod wmi_conn_service;
