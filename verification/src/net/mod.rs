pub mod transport;
pub mod udp;
