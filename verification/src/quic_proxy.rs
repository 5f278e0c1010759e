//! QUIC listener logic: which flow a datagram belongs to, what may be buffered
//! before a flow is routed, and where a datagram goes.

pub mod dispatch;
pub mod header;
pub mod index;
pub mod model;
pub mod table;
