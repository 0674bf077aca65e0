//! A storage gateway core for S3-style multipart uploads.
//!
//! The library verifies the orchestration logic of a multipart-upload
//! gateway: deterministic staging-path construction, a part tracker that
//! answers completeness queries, a staging store with delimiter-aware,
//! paginated listing, the session lifecycle (create, upload, complete,
//! abort) over that store, a retention sweep that reclaims abandoned
//! sessions, and a two-stage credential resolver.

pub mod errors;
pub mod paths;
pub mod part_tracker;
pub mod store;
pub mod timefmt;
pub mod manager;
pub mod resolver;
