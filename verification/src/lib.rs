//! Core of a controller for network-attached smart lights.
//!
//! The library covers the two pieces with real protocol logic: discovery
//! (parsing multicast replies into device records and deduplicating them)
//! and the command protocol client (encoding a single request/response
//! exchange and tracking its outcome). All network I/O is left to the
//! surrounding application, which drives the state machines defined here.

pub mod bulb;
pub mod command;
pub mod discovery;
pub mod headers;
