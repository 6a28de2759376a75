//! A reliable, ordered ARQ protocol engine over an unreliable datagram
//! transport.
//!
//! The engine never performs I/O: [`kcp::KCP::update`] and
//! [`kcp::KCP::flush`] hand back the datagrams that are due, and received
//! datagrams are passed to [`kcp::KCP::input`]. Every transition is specified
//! over the mathematical model in [`model`], and the executable code is proved
//! to follow it.
//!
//! - [`serial`]: arithmetic on sequence numbers and timestamps that wrap.
//! - [`buf`]: the byte buffer that payloads and datagrams travel in.
//! - [`segment`]: the segment and its wire format.
//! - [`model`]: the engine as a state machine, and what is proved of it:
//!   the invariants of every reachable state, that datagrams are read back as
//!   they were written, that delivery is in order, and that a flush taken in
//!   by a peer hands over the payloads unchanged.
//! - [`kcp`]: the engine itself.

pub mod serial;
pub mod buf;
pub mod segment;
pub mod model;
pub mod kcp;
