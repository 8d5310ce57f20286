//! A broker for shared clipboard sessions: a registry of sessions keyed by a
//! short human-typeable code, and per-session state that admits clients and
//! decides where each incoming message goes.
pub mod code;
pub mod engine;
pub mod message;
pub mod session;
