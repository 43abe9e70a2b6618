//! Reassembly of per-slot fragment sets from an unordered fragment stream,
//! detection of gap-free index windows, and a scan of decoded entries for
//! transactions that reference a chosen account key.
//!
//! - [`fragment`]: the fragments that arrive.
//! - [`slot_buffer`] and [`buffer`]: where they are kept, by slot and index,
//!   within a retention window.
//! - [`completion`]: what makes a window of indices complete.
//! - [`state`]: the life of a slot as a state machine.
//! - [`record`] and [`decode`]: entries and transactions, and how a payload
//!   is parsed into them.
//! - [`scanner`]: the match events among decoded transactions.
//! - [`sink`]: the text of a match event in the match log.
//! - [`config`]: the options.
//! - [`pipeline`]: all of it in one place, from a fragment to match events.
//!
//! Times are milliseconds since the Unix epoch.

pub mod buffer;
pub mod completion;
pub mod config;
pub mod decode;
pub mod fragment;
pub mod pipeline;
pub mod record;
pub mod scanner;
pub mod sink;
pub mod slot_buffer;
pub mod state;
