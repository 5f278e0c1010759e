//! Adaptive upstream endpoint selection.
//!
//! A pool is a named set of upstream endpoints with background probing. A
//! *target* is one entry of the configuration, and its index is what selections
//! refer to. A *candidate* is one probed address: a domain yields one per record,
//! a network one per sampled address, and the NAT64 projection adds one per IPv4
//! candidate and prefix. Tags live on candidates, as that is where they are known.
//!
//! One task per pool resolves, probes and ranks. The data path only reads the
//! finished ranking.

pub mod double;
pub mod health;
pub mod http;
pub mod ranking;
pub mod state;
pub mod target;
