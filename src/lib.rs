//! Connection establishment between two peers: a race of direct dials, a
//! rendezvous (NAT traversal) connection and connections the remote peer
//! opens, each authenticated by a handshake of peer id and network name
//! hash; the first attempt that validates wins. Also the protocol-tagged
//! socket address and its text form.
//!
//! Modules:
//! - `handshake`: the handshake message and its validation, for outgoing and
//!   incoming connections.
//! - `connect`: the start of a connect call and the race over its attempts.
//! - `race_laws`: what holds of every run of a race.
//! - `error`: per-attempt and whole-call errors.
//! - `addr`: `PaAddr`, its text `<scheme>://<host>:<port>` and its parser.
//! - `ipv6`: the text of eight IPv6 groups (zero runs shortened, IPv4-mapped
//!   addresses in dotted form) and its parser.
//! - `text`: digits, separators and the numbers they spell.

pub mod addr;
pub mod connect;
pub mod error;
pub mod handshake;
pub mod ipv6;
pub mod race_laws;
pub mod text;
