//! openplay: an AirPlay 2 audio sender.
//!
//! The protocol core: mDNS discovery messages, HomeKit transient pairing
//! (TLV8 framing and the SRP-6a client state), the RTSP control codec, the
//! `/info` receiver description and the command line of the bundled binary.
//! Sockets, timers and the process entry point live outside this crate.

pub mod cli;
pub mod discovery;
pub mod error;
pub mod info;
pub mod keymap;
pub mod octets;
pub mod pairing;
pub mod rtsp;
pub mod text;

pub use error::Error;
