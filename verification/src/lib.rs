//! Symbol lookup for system libraries of Apple platforms: a compact
//! binary symbol database, its builder and reader, and the bookkeeping
//! of a local stash of such databases that follows a remote bucket.
pub mod api;
pub mod config;
pub mod dsym;
pub mod errors;
pub mod memdb;
pub mod s3;
pub mod sdk;
pub mod text;
pub mod utils;
