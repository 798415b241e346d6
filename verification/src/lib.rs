//! Reads the lock file of a JavaScript package manager into dependency
//! locks: for each package specifier the requirement that led to it, the
//! version and download location that were resolved, and the requirements
//! of its own dependencies.

use vstd::prelude::*;
use semver::{Version, VersionReq};
use url::Url;
use crate::dependencies::DependencyMap;

pub mod block;
pub mod dependencies;
pub mod error;
pub mod lines;
pub mod npm_semver;
pub mod outside;
pub mod parser;
pub mod specifier;
pub mod text;

pub use crate::parser::{parse, parse_by_name};

verus! {

/// One dependency lock: what was resolved for one package specifier.
///
/// One block of a lock file may answer several specifiers, and so result in
/// several locks. They differ in `name` and `last_seen` only.
#[derive(Debug)]
pub struct DependencyLock {
    /// The package's name, with its scope where it has one.
    pub name: String,
    /// The requirement that this lock answers; absent where the specifier
    /// holds none or holds one that cannot be read.
    pub last_seen: Option<VersionReq>,
    /// The version that was resolved; absent where the block names none
    /// that can be read.
    pub version: Option<Version>,
    /// The location that the package was resolved to; absent where the
    /// block names none that can be read.
    pub resolved: Option<Url>,
    /// The requirements of the package's own dependencies, by name.
    pub dependencies: DependencyMap,
}

/// The mathematical value of a `DependencyLock`.
pub struct LockView {
    pub name: Seq<char>,
    pub last_seen: Option<VersionReq>,
    pub version: Option<Version>,
    pub resolved: Option<Url>,
    pub dependencies: Map<Seq<char>, VersionReq>,
}

impl View for DependencyLock {
    type V = LockView;

    open spec fn view(&self) -> LockView {
        LockView {
            name: self.name@,
            last_seen: self.last_seen,
            version: self.version,
            resolved: self.resolved,
            dependencies: self.dependencies@,
        }
    }
}

impl DependencyLock {
    /// The invariant of the type: that of its dependency map.
    pub open spec fn wf(&self) -> bool {
        self.dependencies.wf()
    }
}

/// The values of a sequence of locks.
pub open spec fn lock_views(locks: Seq<DependencyLock>) -> Seq<LockView> {
    Seq::new(locks.len(), |i: int| locks[i]@)
}

} // verus!
