//! The stand-alone repository handle used by the import tools: it only
//! knows where the repository is; committing is done by the caller.
use vstd::prelude::*;
use crate::paths::FsPath;

verus! {

/// A handle on the repository rooted at a workspace folder.
pub struct GitController {
    repo_path: FsPath,
}

impl View for GitController {
    type V = Seq<Seq<char>>;

    closed spec fn view(&self) -> Seq<Seq<char>> {
        self.repo_path@
    }
}

impl GitController {
    /// A controller for the repository at `repo_path`.
    pub fn new(repo_path: &FsPath) -> (r: GitController)
        ensures
            r@ == repo_path@,
    {
        GitController { repo_path: repo_path.duplicate() }
    }

    /// The repository's root folder.
    pub fn repo_path(&self) -> (r: &FsPath)
        ensures
            r@ == self@,
    {
        &self.repo_path
    }
}

} // verus!
