//! Line provenance over a linear history of source-tree snapshots.
//!
//! Diffs between consecutive snapshots are translated into positional line
//! operations ([`change`]), folded onto per-file arrays of cohort labels that
//! consecutive samples share where nothing changed ([`sample`]), delivered in
//! timestamp order whatever order they were produced in ([`pipeline`]), and
//! reduced to per-cohort line counts ([`report`]). [`laws`] states what holds
//! of the model for all inputs.
pub mod change;
pub mod sample;
pub mod laws;
pub mod label;
pub mod pipeline;
pub mod select;
pub mod options;
pub mod report;
pub mod ids;
pub mod axe;

pub use axe::Axe;
pub use change::{Change, Changeset, FileStatus, Hunk, translate};
pub use ids::repo_hash;
pub use label::cohort_label;
pub use options::{Options, Pattern};
pub use pipeline::{Pipeline, PipelineError};
pub use report::{all_cohorts, cohort_counts};
pub use sample::{ApplyError, Sample};
pub use select::{TreePair, select_commits, tree_pairs};
