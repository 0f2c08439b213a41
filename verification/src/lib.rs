//! A color-target particle filter for tracking a configured RGB color in a
//! stream of raw interleaved pixel buffers, together with the surrounding
//! capture-session state machine and two simple whole-buffer pixel filters.

pub mod filters;
pub mod session;
