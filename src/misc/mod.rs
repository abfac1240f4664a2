//! Drainers and connection progress built on the reactor and the streams.

pub mod connect;
pub mod duplex;
pub mod linger;
pub mod tcp_connect;
pub mod unix_connect;
