//! A verified client core for resolving game-asset dependencies.
//!
//! Assets live in a remote hierarchy addressed by `/`-delimited paths.
//! The library models the locally cached part of that hierarchy as a
//! tree of typed nodes, merges freshly fetched subtrees into the cache
//! without disturbing unrelated entries, and scans merged nodes for
//! references to further assets that must be fetched in turn.
//! The request/response cycle over the duplex connection is driven by
//! the caller; the library supplies the state machine that keeps at
//! most one request in flight and attributes every reply to it.

pub mod client;
pub mod errors;
pub mod helpers;
pub mod model;
pub mod node;
pub mod path;
pub mod protocol;
pub mod scan;
pub mod text;
pub mod tree;

pub use client::{BeginFetch, FetchClient, FetchPlan, PollOutcome, WSResponse};
pub use errors::FetchError;
pub use helpers::{convert_str_u32_to_char, vec_starts_with};
pub use node::{AssetData, AssetNode};
pub use path::AssetPath;
pub use scan::scan_dependencies;
pub use tree::AssetTree;
