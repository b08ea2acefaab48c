//! An IPv4/CIDR subnet calculator.
//!
//! Given an address and a prefix length, the library derives the
//! netmask, wildcard, network and broadcast addresses, the usable host
//! range and host count, and the address's class and privacy
//! classification, and renders addresses in dotted-decimal and in
//! binary with the network/host boundary marked. A parser accepts
//! `A.B.C.D/P` notation and says exactly which inputs it rejects and
//! why. Every function carries a proved contract.

pub mod addr;
pub mod classify;
pub mod engine;
pub mod parse;
pub mod render;
pub mod report;
