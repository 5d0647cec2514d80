//! What a launch is made of.
use vstd::prelude::*;
use vstd::string::*;

use crate::env::Environment;
use crate::path::HostPath;
use crate::views::views;

verus! {

broadcast use crate::views::group_views;

/// A program, the way to it, and what it needs to run.
#[derive(Clone, Debug, PartialEq, Eq)]
pub struct Runtime {
    pub lexical_executable: HostPath,
    pub canonical_executable: HostPath,
    pub mount_roots: Vec<HostPath>,
    pub path_dirs: Vec<HostPath>,
}

pub struct RuntimeView {
    pub lexical_executable: Seq<u8>,
    pub canonical_executable: Seq<u8>,
    pub mount_roots: Seq<Seq<u8>>,
    pub path_dirs: Seq<Seq<u8>>,
}

impl View for Runtime {
    type V = RuntimeView;

    open spec fn view(&self) -> RuntimeView {
        RuntimeView {
            lexical_executable: self.lexical_executable@,
            canonical_executable: self.canonical_executable@,
            mount_roots: views(self.mount_roots@),
            path_dirs: views(self.path_dirs@),
        }
    }
}

/// How discovery deals with servers that cannot be found.
#[derive(Clone, Copy, Debug, PartialEq, Eq)]
pub struct McpDiscoveryPolicy {
    pub strict: bool,
}

impl Default for McpDiscoveryPolicy {
    fn default() -> (r: McpDiscoveryPolicy)
        ensures
            !r.strict,
    {
        McpDiscoveryPolicy { strict: false }
    }
}

/// What the configured servers need.
#[derive(Clone, Debug, PartialEq, Eq)]
pub struct Discovery {
    pub mount_roots: Vec<HostPath>,
    pub path_dirs: Vec<HostPath>,
    pub warnings: Vec<String>,
}

pub struct DiscoveryView {
    pub mount_roots: Seq<Seq<u8>>,
    pub path_dirs: Seq<Seq<u8>>,
    pub warnings: Seq<Seq<char>>,
}

impl View for Discovery {
    type V = DiscoveryView;

    open spec fn view(&self) -> DiscoveryView {
        DiscoveryView {
            mount_roots: views(self.mount_roots@),
            path_dirs: views(self.path_dirs@),
            warnings: views(self.warnings@),
        }
    }
}

impl Default for Discovery {
    fn default() -> (r: Discovery)
        ensures
            r@.mount_roots == Seq::<Seq<u8>>::empty(),
            r@.path_dirs == Seq::<Seq<u8>>::empty(),
            r@.warnings == Seq::<Seq<char>>::empty(),
    {
        Discovery { mount_roots: Vec::new(), path_dirs: Vec::new(), warnings: Vec::new() }
    }
}

/// Everything that a launch goes by.
#[derive(Clone, Debug, PartialEq, Eq)]
pub struct LaunchSpec {
    pub bwrap: HostPath,
    pub project: HostPath,
    pub home: HostPath,
    pub state_dir: HostPath,
    pub uid: u32,
    pub omp: Runtime,
    pub read_only: Vec<HostPath>,
    pub environment: Environment,
    pub warnings: Vec<String>,
}

pub struct LaunchView {
    pub bwrap: Seq<u8>,
    pub project: Seq<u8>,
    pub home: Seq<u8>,
    pub state_dir: Seq<u8>,
    pub uid: u32,
    pub omp: RuntimeView,
    pub read_only: Seq<Seq<u8>>,
    pub environment: Map<Seq<u8>, Seq<u8>>,
    pub warnings: Seq<Seq<char>>,
}

impl View for LaunchSpec {
    type V = LaunchView;

    open spec fn view(&self) -> LaunchView {
        LaunchView {
            bwrap: self.bwrap@,
            project: self.project@,
            home: self.home@,
            state_dir: self.state_dir@,
            uid: self.uid,
            omp: self.omp@,
            read_only: views(self.read_only@),
            environment: self.environment@,
            warnings: views(self.warnings@),
        }
    }
}

} // verus!
