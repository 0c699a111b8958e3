//! Verified core of the scryd mail daemon: document building and
//! segmentation, snippets, queue and crash-history decisions, path layout.

pub mod accounts;
pub mod daemon;
pub mod digest;
pub mod document;
pub mod drainer;
pub mod in_memory;
pub mod messages;
pub mod migrations;
pub mod preflight;
pub mod queue;
pub mod raw;
pub mod reconcile;
pub mod search;
pub mod serve;
pub mod sink;
pub mod snippet;
pub mod sync_state;
pub mod text;
pub mod witchcraft;
pub mod xdg;

pub use document::build as build_document;
pub use snippet::render as render_snippet;
