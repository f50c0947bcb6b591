//! A line-oriented multi-user chat: the wire codec, the registry of connected
//! users, and the per-connection session state machines of server and client.

pub mod client;
pub mod command;
pub mod message;
pub mod outbox;
pub mod room;
pub mod session;
