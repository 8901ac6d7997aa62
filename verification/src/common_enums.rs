pub mod tcp_state;
