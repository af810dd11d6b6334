//! Which files of a directory are workflow files, and in what order they are
//! analyzed. Reading the directory is left to the caller.

use vstd::prelude::*;

use crate::graph::{sort_names, sorted_perm};
use crate::text::{owned, views};

verus! {

/// Why workflow discovery failed.
pub enum DiscoverError {
    NotFound(String),
    NotAWorkflowPath(String),
    Io(std::io::Error),
}

impl DiscoverError {
    /// The human-readable description of this error; for an I/O error the
    /// caller shows the error's own text.
    pub fn to_message(&self) -> (s: Option<String>)
        ensures
            match self {
                DiscoverError::NotFound(p) => s matches Some(m) && m@ == "path not found: "@ + p@,
                DiscoverError::NotAWorkflowPath(p) => s matches Some(m) && m@ == "not a workflow file or directory: "@ + p@,
                DiscoverError::Io(_) => s is None,
            },
    {
        match self {
            DiscoverError::NotFound(p) => {
                let mut m = owned("path not found: ");
                m.append(p.as_str());
                Some(m)
            },
            DiscoverError::NotAWorkflowPath(p) => {
                let mut m = owned("not a workflow file or directory: ");
                m.append(p.as_str());
                Some(m)
            },
            DiscoverError::Io(_) => None,
        }
    }
}

/// The workflow files found in one directory, in the order they are
/// analyzed: ascending.
pub fn sort_paths(paths: Vec<String>) -> (r: Vec<String>)
    ensures
        sorted_perm(views(r@), views(paths@)),
{
    sort_names(paths)
}

} // verus!
