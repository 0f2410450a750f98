//! The transition kernel: a deterministic state machine over claim events.
pub mod types;
pub mod event;
pub mod state;
pub mod transition;
pub mod replay;
pub mod serialization;
pub mod state_encoding;
