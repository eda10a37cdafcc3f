//! Session synchronization engine for a shared estimation session host.
//!
//! Clients join a named session, submit commands (choose a name, vote,
//! claim the admin role, kick users) and observe masked projections of the
//! shared state. This crate holds the verified core: the wire codec, the
//! frame handling rules, the session state engine and the session
//! directory. The asynchronous transport around it lives outside.

pub mod app_context;
pub mod codec;
pub mod context;
pub mod error;
pub mod numerals;
pub mod protocol;
pub mod routes;
pub mod session;
pub mod transport;

pub use app_context::AppContext;
pub use context::{ServiceContext, ServiceContextConfig};
pub use error::PlancError;
pub use protocol::{ClientMessage, ServerMessage, SessionState, UserState};
pub use session::Session;
