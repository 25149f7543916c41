//! Analysis of a library of "skills": named text documents whose bodies may
//! mention one another. The crate detects those cross-references, builds a
//! directed graph over them, and runs a battery of consistency checks whose
//! results form one ranked diagnostic report.
//!
//! Everything here is pure computation over plain values; discovery, file
//! reading and symlink management live with the callers.

use vstd::prelude::*;

pub mod checks;
pub mod config;
pub mod crossref;
pub mod finding;
pub mod frontmatter;
pub mod graph;
pub mod graph_export;
pub mod installer;
pub mod pipelines;
pub mod skill;
pub mod target;
pub mod text;

verus! {

/// The marker file that labels a target directory as managed by this tool.
pub fn marker_file_name() -> (r: &'static str)
    ensures
        r@ == crate::text::spec_marker_file_name(),
{
    ".managed-by-loadout"
}

} // verus!
