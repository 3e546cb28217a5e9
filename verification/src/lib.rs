//! Preservation library for unsent iMessage content.
//!
//! The crate models the data that flows through a retraction watcher: decoded
//! messages with their bubble components, the handle and chat caches, the
//! query filters, the attachment numbering scheme, and the reconciliation
//! engine that diffs one database observation against the previous one and
//! decides which attachments to stage, promote or discard and which log
//! records to append.

pub mod config;
pub mod dates;
pub mod handle;
pub mod handwriting;
pub mod logfmt;
pub mod message;
pub mod query_context;
pub mod reconcile;
pub mod strutil;
