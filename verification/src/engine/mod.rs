//! The mix-minus engine: one block of audio in from every endpoint, one block out for
//! every key.

pub mod control_laws;
pub mod kernels;
pub mod laws;
pub mod limiter;
pub mod limiter_laws;
pub mod mixer;
pub mod order;
pub mod plan;
pub mod rows;
pub mod signal_laws;
