//! The authored state of a system: partylines, endpoints and keys.
//!
//! Partyline membership is derived from key assignments. There is no member list: an
//! endpoint is a member of a partyline if and only if one of its keys targets it.

pub mod coherence;
pub mod findings;
pub mod model;
pub mod model_laws;
pub mod validate;
pub mod validate_laws;
