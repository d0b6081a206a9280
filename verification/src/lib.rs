//! Core of a Markdown document indexer: path eligibility policy, one-shot
//! directory scanning over a modeled file tree, translation of raw filesystem
//! notifications into a stream of domain events, the guarded application
//! state, and the release-update decision rules.

pub mod files;
pub mod policy;
pub mod sorting;
pub mod state;
pub mod updater;
pub mod watcher;
