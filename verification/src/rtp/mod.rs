//! AES67 transport: RTP packets, session descriptions, jitter buffering and addressing.
//!
//! The mix engine needs every input block aligned into the server's clock domain. This is
//! where that is done.

pub mod addressing;
pub mod jitter;
pub mod jitter_laws;
pub mod packet;
pub mod playout_laws;
pub mod scan;
pub mod scan_laws;
pub mod sdp;
pub mod sdp_laws;
pub mod session_laws;
pub mod stream_laws;
pub mod transport;
