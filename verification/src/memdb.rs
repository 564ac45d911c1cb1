//! The memdb: the symbols of one SDK as one flat file.
//!
//! A support folder with SDK debug symbols can be processed into a
//! database which is a flat file on the file system. The file is laid
//! out so that symbols are found by binary search directly on its
//! bytes, without building anything in memory first.
pub mod types;
pub mod layout;
pub mod format;
pub mod read;
pub mod roundtrip;
pub mod write;
pub mod stash;
