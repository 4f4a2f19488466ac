//! Navigation and session state for a desktop browser of S3-compatible
//! object storage: the registry of configured remotes, the tab set, the
//! per-tab breadcrumb stack and the per-prefix listing state machine.

pub mod config;
pub mod error;
pub mod listing;
pub mod nav;
pub mod object;
pub mod registry;
pub mod text;
