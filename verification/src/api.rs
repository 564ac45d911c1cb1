//! What the HTTP interface of the symbol server decides.
//!
//! The server answers health checks, lists the SDKs of the stash and
//! looks symbols up. This module holds the decisions behind those
//! answers; receiving requests and sending responses is left to the
//! program that uses the library.
pub mod handlers;
pub mod server;
pub mod types;
