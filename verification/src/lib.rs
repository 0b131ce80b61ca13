//! Relay of multicast UDP datagrams to one unicast destination.
//!
//! The crate holds the decisions of the relay: the forwarding loop as a state
//! machine over the outcomes of non-blocking socket operations, the laws that
//! hold of every run of it, and the validation of numeric arguments. The
//! sockets themselves belong to the program that drives the loop.

pub mod args;
pub mod relay;
pub mod trace;
