//! Partyline intercom: configuration, mix-minus routing, PTP, RTP and the host's decisions.
//!
//! Everything here computes on plain values. Sockets, clocks, threads, HTTP and files
//! belong to the program around this library.

pub mod bytes;
pub mod config;
pub mod engine;
pub mod lists;
pub mod ptp;
pub mod rtp;
pub mod sample;
pub mod server;
pub mod text;
pub mod text_laws;

use vstd::prelude::*;

verus! {

} // verus!
