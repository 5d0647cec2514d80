//! Project-scoped Bubblewrap sandboxing.
pub mod bytes;
pub mod cli;
pub mod command;
pub mod config;
pub mod course;
pub mod env;
pub mod error;
pub mod glob;
pub mod host;
pub mod json;
pub mod layout;
pub mod mcp;
pub mod needs;
pub mod path;
pub mod preflight;
pub mod program;
pub mod questions;
pub mod resolve;
pub mod roots;
pub mod rows;
pub mod sandbox;
pub mod servers;
pub mod shebang;
pub mod text;
pub mod types;
pub mod views;

pub use crate::mcp::{discover_mcp_mounts, discover_mcp_mounts_with_policy};
pub use crate::program::execute;
pub use crate::sandbox::{build_bwrap_command, run_omp};
pub use crate::types::{Discovery, LaunchSpec, McpDiscoveryPolicy, Runtime};
