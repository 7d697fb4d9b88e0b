//! Archives every message of every mailbox of mail accounts to local files,
//! one file per message, named so that a message already saved is never
//! written again.

pub mod text;
pub mod filename;
pub mod headers;
pub mod archive;
pub mod config;
pub mod account;
pub mod ordering;
