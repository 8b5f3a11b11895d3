//! Core of a client driver for the Chrome DevTools Protocol: command
//! sequencing, request/response correlation and the per-page frame tree with
//! its navigation state machine.
//!
//! The library decides; it performs no input or output. Its driver hands it
//! what arrived and the current time, and carries out what it hands back.
//! Time is a `u64` count of milliseconds on a monotonic clock.
//!
//! - [`cmd`]: commands on their way to the connection, and chains of commands
//!   that are issued one at a time.
//! - [`handler`]: the requests that wait for a response, and the frames of a
//!   page with the navigations under way in it.
//! - [`tab`]: what the answers to the commands of a tab mean.
//! - [`types`], [`cdp`], [`error`], [`json`]: the messages, the payloads of
//!   the page events, the errors, and the JSON values.
//! - [`string_map`], [`string_set`]: maps and sets keyed by strings.

pub mod cdp;
pub mod cmd;
pub mod error;
pub mod handler;
pub mod json;
pub mod string_map;
pub mod string_set;
pub mod tab;
pub mod types;
