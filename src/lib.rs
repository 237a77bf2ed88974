//! Room-based chat core: a single-owner router of connections and rooms,
//! the per-connection protocol state machine, the reading of client command
//! lines and request headers, and the sign-in check on HTTP paths.

pub mod auth;
pub mod header;
pub mod laws;
pub mod model;
pub mod router;
pub mod session;
pub mod text;
