//! A desync engine for a local SOCKS5 proxy: it classifies the first
//! client-to-server payload of a TCP connection (HTTP request or TLS
//! ClientHello), optionally re-fragments a TLS record, and plans how the
//! payload is written upstream as a sequence of perturbed segments.

pub mod desync;
pub mod packets;
pub mod socks;
