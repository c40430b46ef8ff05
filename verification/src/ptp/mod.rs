//! IEEE 1588-2008 (PTPv2): agreeing on time with one grandmaster.
//!
//! Timestamps are taken in software, which is good to about one sample at 48 kHz.

pub mod bmca;
pub mod exchange_laws;
pub mod master_laws;
pub mod message;
pub mod pending;
pub mod port;
pub mod servo;
pub mod servo_laws;
pub mod shared;
pub mod slave;
pub mod testing;
pub mod wire_laws;
