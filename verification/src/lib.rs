//! A package-manager core: semver parsing and range evaluation, specifier
//! parsing, dependency-graph construction with deterministic installation
//! order, a content-addressed store model, and registry catalogue caching.

pub mod client;
pub mod commands;
pub mod graph;
pub mod logger;
pub mod parser;
pub mod parsers;
pub mod registry;
pub mod resolver;
pub mod semver;
pub mod shared;
pub mod specifier;
pub mod store;
