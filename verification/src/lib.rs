//! # EON Stream engine
//!
//! Turns a stream source into a playing video by driving mpv, run as a
//! separate process, over its JSON IPC channel.
//!
//! This crate holds the part of that work that is decided rather than
//! performed: the command lines and request lines written to mpv, the
//! reading of its replies and track lists, and the order in which mpv is
//! looked for. Each of these is stated in a contract and proved.
//!
//! Torrent peers and addon-supplied URLs are untrusted input. mpv is started
//! with `--no-config`, and the source always follows `--`. A stream URL can
//! carry a signed token, so [`PlaybackSource::display_hint`] shows only a
//! file name.
pub mod error;
pub mod ipc;
pub mod json;
pub mod launch;
pub mod number;
pub mod player;
pub mod text;
pub mod track;

pub use error::{Error, Result};
pub use player::{PlaybackSource, SeekMode, Track};
