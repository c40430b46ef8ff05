//! The server: the audio loop's clock, what it does with commands, and edits to the
//! configuration.

pub mod audio_io;
pub mod audio_laws;
pub mod clock;
pub mod clock_laws;
pub mod command_laws;
pub mod edit;
pub mod edit_laws;
pub mod host;
pub mod host_laws;
pub mod patch_laws;
pub mod talk;
