use vstd::prelude::*;
use std::collections::HashSet;

verus! {

/// A source of changes: anything that can tell which files differ between two revisions
/// of a tree under version control.
pub trait DiffEngine {
    /// The absolute paths of the files under `path` whose content differs between the
    /// revisions `from` and `to`, in no particular order, or a message saying why they
    /// could not be determined.
    fn get_affected_paths(path: &str, from: String, to: String) -> Result<HashSet<String>, String>;
}

} // verus!
