//! Verified core of a client bridge to a compositor's workspace IPC: the
//! newline-delimited JSON wire codec, the workspace-snapshot reconciliation
//! rules, the command-request builders, and the event-stream session state
//! machine. The socket I/O that surrounds this core is ordinary unverified
//! glue and lives outside the library.

pub mod client;
pub mod codec;
pub mod model;
pub mod session;
