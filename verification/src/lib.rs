//! Managed host-block reconciliation engine.
//!
//! The library computes idempotent, surgically scoped edits of a system hosts
//! file from a declarative rule set, keeps the cache of soft-block ("friction")
//! rules that a companion process queries, and holds the pure decision logic
//! around privilege gating, path resolution, request routing and autostart
//! registration. All file, network and process work stays with the caller.

pub mod autostart;
pub mod lifecycle;
pub mod paths;
pub mod reconcile;
pub mod rules;
pub mod server;
pub mod text;
