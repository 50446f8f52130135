//! Correlated request/reply multiplexing over duplex peer connections.
//!
//! The library keeps the registry of live connections, numbers the calls
//! issued on each of them, and matches every reply frame to the caller that
//! waits for it. Sockets, the HTTP listener and the awaiting of replies live
//! outside it: they hand the library plain values and take plain values back.

pub mod outside;
pub mod wire;
pub mod ws;

pub use wire::{Message, MessageReply};
pub use ws::{CallError, Delivery, Handled, Inbound, PendingCall, Ws};
