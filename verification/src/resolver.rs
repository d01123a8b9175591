//! The shapes an event-driven resolution reports: a package settled in
//! the graph with its edges, and the ways resolution can fail.

use crate::registry::NpmPackage;
use crate::semver::push_char;
use vstd::prelude::*;
use vstd::string::*;

verus! {

/// A package settled in the graph: its manifest, its concrete id, the
/// ids its requests resolved to, and the ids that depend on it.
pub struct ResolvedPackage {
    pub package: NpmPackage,
    pub id: String,
    pub dependencies: Vec<(String, String)>,
    pub dependent_packages: Vec<String>,
}

/// Why a resolution stopped or skipped a package.
pub enum ResolverError {
    VersionConflict { package: String, requested: String, existing: String },
    CyclicDependency { cycle: Vec<String> },
    MissingPackage { name: String, version: String },
    InvalidVersion(String),
    NetworkError(String),
}

impl ResolverError {
    /// One line naming the failure, for reporting.
    pub fn message(&self) -> (r: String)
        ensures
            match self {
                ResolverError::VersionConflict { package, .. } => r@ == "version conflict for "@
                    + package@,
                ResolverError::CyclicDependency { .. } => r@ == "cyclic dependency"@,
                ResolverError::MissingPackage { name, version } => r@ == "missing package "@
                    + name@ + seq!['@'] + version@,
                ResolverError::InvalidVersion(v) => r@ == "invalid version "@ + v@,
                ResolverError::NetworkError(e) => r@ == "network error: "@ + e@,
            },
    {
        match self {
            ResolverError::VersionConflict { package, .. } => {
                let mut out = String::from_str("version conflict for ");
                out.append(package.as_str());
                out
            },
            ResolverError::CyclicDependency { .. } => String::from_str("cyclic dependency"),
            ResolverError::MissingPackage { name, version } => {
                let mut out = String::from_str("missing package ");
                out.append(name.as_str());
                push_char(&mut out, '@');
                out.append(version.as_str());
                out
            },
            ResolverError::InvalidVersion(v) => {
                let mut out = String::from_str("invalid version ");
                out.append(v.as_str());
                out
            },
            ResolverError::NetworkError(e) => {
                let mut out = String::from_str("network error: ");
                out.append(e.as_str());
                out
            },
        }
    }
}

} // verus!
