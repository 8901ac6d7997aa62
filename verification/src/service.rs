pub mod linux_metric_service_impl;
pub mod linux_process_service_impl;
pub mod windows_metirc_service_impl;
