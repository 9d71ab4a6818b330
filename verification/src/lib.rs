//! A verified core for a tag-based motor control bridge.
//!
//! The crate maps short user-chosen tags to motor addresses on physical
//! devices, decodes a semicolon-delimited wire protocol into per-device
//! batches of motor instructions, migrates versioned configurations, and
//! tracks a dead-man's-switch watchdog deadline.

pub mod assoc;
pub mod codec;
pub mod config_store;
pub mod configuration_minimal;
pub mod configuration_v2;
pub mod configuration_v3;
pub mod devices;
pub mod dispatcher;
pub mod messages;
pub mod number;
pub mod protocol;
pub mod session;
pub mod tagging;
pub mod text;
pub mod watchdog;
