//! Setting up a workspace folder: where the app keeps its own state, what
//! the default `.gitignore` holds, how the new-project dialog names the
//! project, and where imported notes are written. Creating folders and
//! files and initializing the repository is the caller's part.
use vstd::prelude::*;
use crate::paths::{FsPath, joined};
use crate::strings::{append_str, concat_str, trim, trim_str};

verus! {

/// A workspace root folder, as set up by the new-project flow.
pub struct WorkspaceManager {
    pub root_path: FsPath,
}

/// The contents of a new workspace's `.gitignore`: the app's own state
/// folder stays out of version control.
pub open spec fn default_gitignore_text() -> Seq<char> {
    ".rhymr/\n"@
}

/// The name the new-project dialog uses: what was typed, trimmed, or
/// `untitled` when nothing was.
pub open spec fn project_name_of(typed: Seq<char>) -> Seq<char> {
    if trim(typed).len() == 0 {
        "untitled"@
    } else {
        trim(typed)
    }
}

impl WorkspaceManager {
    /// The manager for the workspace rooted at `root_path`.
    pub fn new(root_path: FsPath) -> (r: WorkspaceManager)
        ensures
            r.root_path@ == root_path@,
    {
        WorkspaceManager { root_path }
    }

    /// The hidden folder for app state, `.rhymr` inside the workspace.
    pub fn state_dir(&self) -> (r: FsPath)
        ensures
            r@ == joined(self.root_path@, ".rhymr"@),
    {
        proof {
            reveal_strlit(".rhymr");
        }
        self.root_path.join(".rhymr")
    }

    /// The workspace's `.gitignore`.
    pub fn gitignore_path(&self) -> (r: FsPath)
        ensures
            r@ == joined(self.root_path@, ".gitignore"@),
    {
        proof {
            reveal_strlit(".gitignore");
        }
        self.root_path.join(".gitignore")
    }

    /// Where an imported note titled `title` is written: `title.txt` in the
    /// workspace root.
    pub fn note_path(&self, title: &str) -> (r: FsPath)
        requires
            !title@.contains('/'),
        ensures
            r@ == joined(self.root_path@, title@ + ".txt"@),
    {
        let name = concat_str(title, ".txt");
        proof {
            reveal_strlit(".txt");
            assert forall|i: int| 0 <= i < name@.len() implies name@[i] != '/' by {
                if i < title@.len() {
                    assert(name@[i] == title@[i]);
                }
            }
        }
        self.root_path.join(name.as_str())
    }
}

/// The contents of a new workspace's `.gitignore`.
pub fn default_gitignore() -> (r: String)
    ensures
        r@ == default_gitignore_text(),
{
    ".rhymr/\n".to_owned()
}

/// The project name for what was typed in the new-project dialog.
pub fn project_name(typed: &str) -> (r: String)
    ensures
        r@ == project_name_of(typed@),
{
    let t = trim_str(typed);
    if t.as_str().is_empty() {
        "untitled".to_owned()
    } else {
        t
    }
}

/// The new-project dialog's preview line: where the project will go.
pub fn project_preview(location: &str, typed: &str) -> (r: String)
    ensures
        r@ == "Project will be created in: "@ + location@ + "/"@ + project_name_of(typed@),
{
    let mut r = "Project will be created in: ".to_owned();
    append_str(&mut r, location);
    append_str(&mut r, "/");
    let name = project_name(typed);
    append_str(&mut r, name.as_str());
    r
}

} // verus!
