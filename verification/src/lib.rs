//! Routing, admission and configuration logic of an SNI/Host-routing TLS gateway.

pub mod certscope;
pub mod config;
pub mod connect;
pub mod dns;
pub mod dns_resolvers;
pub mod ech;
pub mod gateway;
pub mod h3_proxy;
pub mod net;
pub mod octets;
pub mod order;
pub mod peek;
pub mod pool;
pub mod probe;
pub mod proxy;
pub mod psl;
pub mod quic_initial;
pub mod quic_proxy;
pub mod quic_runtime;
pub mod quic_socket;
pub mod table;
pub mod text;
pub mod time;
