//! A verified reconciliation engine for a pull-based CI resource that
//! converges a cluster's deployed set of helm charts toward a desired set.
//!
//! The library computes the three-way difference between a deployed and a
//! desired chart set, sequences the resulting install / upgrade / delete
//! operations, derives an order-independent digest of cluster state for
//! change detection, parses the package manager's listing output, and builds
//! the command lines that apply each operation.  All I/O — running commands,
//! reading the request envelope — stays outside the library.

pub mod chart;
pub mod commands;
pub mod digest;
pub mod encoding;
pub mod error;
pub mod helm;
pub mod listing;
pub mod order;
pub mod plan;
pub mod protocol;
