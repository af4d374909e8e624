//! The immutable audit trail behind a log shipping service.
//!
//! Journal lines and task events are appended to segment files, and served
//! back newest first. Everything here decides or computes; reading, writing
//! and removing files, the network and the database are the caller's.
pub mod api;
pub mod audit;
pub mod config;
pub mod decay;
pub mod decimal;
pub mod durability;
pub mod event_table;
pub mod headers;
pub mod http;
pub mod ids;
pub mod json;
pub mod lines;
pub mod oplog;
pub mod retention;
pub mod runs;
pub mod segmented_log;
pub mod segments;
pub mod text;
pub mod timestamp;
