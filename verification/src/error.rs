//! Error kinds surfaced by the store, the readers and the server.

use vstd::prelude::*;

verus! {

/// A composite id failed to resolve: either its ring kind is invalid, or the
/// slot it names is uninitialised (or out of range).
#[derive(Clone, Copy, Debug, PartialEq, Eq, Structural)]
pub enum IdNotFoundError {
    /// The high 32 bits of the id name no known ring.
    Ring(u32),
    /// The slot index (low 32 bits) holds no entry.
    Entry(u32),
}

/// Errors of the core store and readers.
#[derive(Clone, Debug)]
pub enum Error {
    /// A filesystem or syscall failure, with a human-readable breadcrumb.
    Io { context: &'static str },
    /// A composite id did not resolve to a live entry.
    IdNotFound(IdNotFoundError),
    /// A file in the direct store does not match the `<ring>_<slot>` naming
    /// convention.
    NotARingboard { file: Vec<u8> },
    /// The server lock file is present but holds no parsable PID.
    InvalidPid { context: &'static str },
}

/// Errors surfaced to clients of the server.
#[derive(Clone, Debug)]
pub enum ClientError {
    Core(Error),
    /// Handshake protocol version disagreement.
    VersionMismatch { actual: u8 },
    /// The server reply was malformed at the client.
    InvalidResponse { context: &'static str },
}

/// Errors of the server process itself.
#[derive(Clone, Debug)]
pub enum CliError {
    Core(Error),
    /// Startup saw a live PID in the lock file.
    ServerAlreadyRunning { pid: u32, lock_file: Vec<u8> },
    /// The lock file is present but empty: the operator asks for recovery.
    UncleanShutdown,
    /// A reactor invariant was violated.
    Internal { context: &'static str },
}

} // verus!
