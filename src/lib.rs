//! Dependency-graph analysis of a declared package environment: constraint
//! parsing, version compatibility, graph construction with transitive
//! closure, conflict detection and a layered layout for display.

pub mod semver_bridge;
pub mod text;

pub mod models;
pub mod constraint;
pub mod depmap;
pub mod closure;
pub mod graph;
pub mod conflicts;
pub mod layout;
pub mod analysis;
pub mod parsers;
pub mod conda_api;
pub mod performance;
pub mod exporters;
pub mod cli;
pub mod provider;
pub mod vulnerabilities;
pub mod utils;
