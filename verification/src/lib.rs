//! An idempotent unit-orchestration core: units are self-describing
//! executables (or directories) implementing `check` / `apply` / `rollback` /
//! `deps` operations.  The library resolves a unit's transitive dependency
//! graph (edges are discovered at run time by invoking each instance's `deps`
//! operation), memoizes instances by content signature, and drives the
//! non-conforming instances toward the desired state in dependency-first
//! order, on a pluggable execution target.

pub mod engine;
pub mod error;
pub mod execution;
pub mod instance_cache;
pub mod operation;
pub mod reporting;
pub mod resolver;
pub mod text;
pub mod unit;
