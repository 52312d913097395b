//! Core of a terminal chat client that streams tokens from a remote
//! chat-completion service: a double-buffered cell-grid renderer with
//! cell-level diffing, a row-major selection model, and an incremental
//! line-oriented parser for the streaming wire protocol.

pub mod chat;
pub mod renderer;
pub mod transport;
