//! Target directories as the checks see them: a listing of entries with the
//! few facts the rules need. Reading directories happens with the callers;
//! the rules over what they found live here.

use vstd::prelude::*;

use crate::text::{spec_marker_file_name, str_eq};

verus! {

/// What linking operations can report.
#[derive(Debug, Clone)]
pub enum LinkerError {
    /// The target exists and carries no marker file.
    UnmanagedTarget(String),
    /// A link with this name already exists.
    SymlinkExists(String),
}

/// The mathematical value of a [`LinkerError`].
pub ghost enum LinkerErrorV {
    UnmanagedTarget(Seq<char>),
    SymlinkExists(Seq<char>),
}

impl View for LinkerError {
    type V = LinkerErrorV;

    open spec fn view(&self) -> LinkerErrorV {
        match self {
            LinkerError::UnmanagedTarget(p) => LinkerErrorV::UnmanagedTarget(p@),
            LinkerError::SymlinkExists(p) => LinkerErrorV::SymlinkExists(p@),
        }
    }
}

impl DeepView for LinkerError {
    type V = LinkerErrorV;

    open spec fn deep_view(&self) -> LinkerErrorV {
        self.view()
    }
}

/// One entry of a target directory, with the facts the checks read.
#[derive(Debug, Clone)]
pub struct TargetEntry {
    /// The entry's file name.
    pub name: String,
    /// Whether the entry is a symbolic link.
    pub is_symlink: bool,
    /// Whether the entry is a directory.
    pub is_dir: bool,
    /// Whether the entry's metadata could be read (false for a link whose
    /// referent is gone).
    pub readable: bool,
    /// For directories: whether the marker file lies inside.
    pub has_marker: bool,
}

/// The mathematical value of a [`TargetEntry`].
pub ghost struct TargetEntryV {
    pub name: Seq<char>,
    pub is_symlink: bool,
    pub is_dir: bool,
    pub readable: bool,
    pub has_marker: bool,
}

impl View for TargetEntry {
    type V = TargetEntryV;

    open spec fn view(&self) -> TargetEntryV {
        TargetEntryV {
            name: self.name@,
            is_symlink: self.is_symlink,
            is_dir: self.is_dir,
            readable: self.readable,
            has_marker: self.has_marker,
        }
    }
}

impl DeepView for TargetEntry {
    type V = TargetEntryV;

    open spec fn deep_view(&self) -> TargetEntryV {
        self.view()
    }
}

/// One target directory's listing.
#[derive(Debug, Clone)]
pub struct TargetListing {
    /// The directory's path.
    pub dir: String,
    /// Whether the directory exists at all; a missing one is skipped.
    pub exists: bool,
    /// The directory's entries.
    pub entries: Vec<TargetEntry>,
}

/// The mathematical value of a [`TargetListing`].
pub ghost struct TargetListingV {
    pub dir: Seq<char>,
    pub exists: bool,
    pub entries: Seq<TargetEntryV>,
}

impl View for TargetListing {
    type V = TargetListingV;

    open spec fn view(&self) -> TargetListingV {
        TargetListingV { dir: self.dir@, exists: self.exists, entries: self.entries.deep_view() }
    }
}

impl DeepView for TargetListing {
    type V = TargetListingV;

    open spec fn deep_view(&self) -> TargetListingV {
        self.view()
    }
}

/// Whether a directory with these entries is managed by this tool: it holds
/// the marker file.
pub open spec fn spec_is_managed(entries: Seq<TargetEntryV>) -> bool {
    exists|i: int| 0 <= i < entries.len() && entries[i].name == spec_marker_file_name()
}

/// Whether a target directory's entries include the marker file.
pub fn is_managed(entries: &Vec<TargetEntry>) -> (r: bool)
    ensures
        r == spec_is_managed(entries.deep_view()),
{
    let mut i: usize = 0;
    while i < entries.len()
        invariant
            i <= entries@.len(),
            forall|m: int|
                0 <= m < i ==> (#[trigger] entries.deep_view()[m]).name
                    != spec_marker_file_name(),
        decreases entries@.len() - i,
    {
        if str_eq(entries[i].name.as_str(), crate::marker_file_name()) {
            proof {
                assert(entries.deep_view()[i as int].name == spec_marker_file_name());
            }
            return true;
        }
        i = i + 1;
    }
    false
}

} // verus!
