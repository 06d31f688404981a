//! The decisions around the workspace's git integration: how a libgit2
//! status word is bucketed for the file tree, which bucket wins when a
//! folder's contents disagree, and what the commit, fetch, pull and push
//! flows report. Opening the repository and talking to remotes is the
//! caller's part; it hands over plain values (status bits, object counts,
//! merge-analysis flags) and gets back decisions and messages.
use vstd::prelude::*;
use crate::paths::{FsPath, normal_part};
use crate::strings::{append_str, decimal, decimal_string, trim, trim_str};

verus! {

/// libgit2's `GIT_STATUS_INDEX_NEW` bit.
pub const STATUS_INDEX_NEW: u32 = 1;

/// libgit2's `GIT_STATUS_INDEX_MODIFIED` bit.
pub const STATUS_INDEX_MODIFIED: u32 = 2;

/// libgit2's `GIT_STATUS_INDEX_DELETED` bit.
pub const STATUS_INDEX_DELETED: u32 = 4;

/// libgit2's `GIT_STATUS_INDEX_RENAMED` bit.
pub const STATUS_INDEX_RENAMED: u32 = 8;

/// libgit2's `GIT_STATUS_INDEX_TYPECHANGE` bit.
pub const STATUS_INDEX_TYPECHANGE: u32 = 16;

/// libgit2's `GIT_STATUS_WT_NEW` bit.
pub const STATUS_WT_NEW: u32 = 128;

/// libgit2's `GIT_STATUS_WT_MODIFIED` bit.
pub const STATUS_WT_MODIFIED: u32 = 256;

/// libgit2's `GIT_STATUS_WT_DELETED` bit.
pub const STATUS_WT_DELETED: u32 = 512;

/// libgit2's `GIT_STATUS_WT_TYPECHANGE` bit.
pub const STATUS_WT_TYPECHANGE: u32 = 1024;

/// libgit2's `GIT_STATUS_WT_RENAMED` bit.
pub const STATUS_WT_RENAMED: u32 = 2048;

/// libgit2's `GIT_STATUS_IGNORED` bit.
pub const STATUS_IGNORED: u32 = 16384;

/// The bits that make a file "new" (untracked or newly staged).
pub const NEW_FLAGS: u32 = STATUS_WT_NEW | STATUS_INDEX_NEW;

/// The bits that make a file "renamed".
pub const RENAMED_FLAGS: u32 = STATUS_WT_RENAMED | STATUS_INDEX_RENAMED;

/// The bits that make a file "modified" (content, deletion or type change,
/// staged or not).
pub const MODIFIED_FLAGS: u32 = STATUS_WT_MODIFIED | STATUS_WT_DELETED | STATUS_WT_TYPECHANGE
    | STATUS_INDEX_MODIFIED | STATUS_INDEX_DELETED | STATUS_INDEX_TYPECHANGE;

/// A file's status relative to HEAD, simplified to the categories the file
/// tree colors differently. A renamed file that also changed content still
/// reads as renamed, matching `git status`'s own compact summary.
#[derive(Clone, Copy, PartialEq, Eq, Debug, Structural)]
pub enum GitFileStatus {
    New,
    Renamed,
    Modified,
}

/// The category of a libgit2 status word: ignored files have none, then
/// new beats renamed beats modified; a word with none of those bits (an
/// unchanged file) has none either.
pub open spec fn status_category(bits: u32) -> Option<GitFileStatus> {
    if bits & STATUS_IGNORED != 0 {
        None
    } else if bits & NEW_FLAGS != 0 {
        Some(GitFileStatus::New)
    } else if bits & RENAMED_FLAGS != 0 {
        Some(GitFileStatus::Renamed)
    } else if bits & MODIFIED_FLAGS != 0 {
        Some(GitFileStatus::Modified)
    } else {
        None
    }
}

/// How libgit2's status bits decide a file's category, bit by bit: an
/// ignored file (bit 0x4000) has none; otherwise a new file (index 0x1 or
/// worktree 0x80) is `New`, then a rename (index 0x8 or worktree 0x800) is
/// `Renamed`, then any content change, deletion or type change, staged or
/// not (index 0x2, 0x4, 0x10; worktree 0x100, 0x200, 0x400), is
/// `Modified`; a file with none of these bits is unchanged.
pub proof fn lemma_status_category_bits(bits: u32)
    ensures
        bits & 0x4000u32 != 0 ==> status_category(bits) is None,
        bits & 0x4000u32 == 0 && bits & 0x81u32 != 0 ==> status_category(bits) == Some(GitFileStatus::New),
        bits & 0x4000u32 == 0 && bits & 0x81u32 == 0 && bits & 0x808u32 != 0 ==> status_category(bits) == Some(
            GitFileStatus::Renamed,
        ),
        bits & 0x4000u32 == 0 && bits & 0x889u32 == 0 && bits & 0x716u32 != 0 ==> status_category(bits) == Some(
            GitFileStatus::Modified,
        ),
        bits & 0x4f9fu32 == 0 ==> status_category(bits) is None,
{
    assert(STATUS_IGNORED == 0x4000u32);
    assert(NEW_FLAGS == 0x81u32) by (bit_vector);
    assert(RENAMED_FLAGS == 0x808u32) by (bit_vector);
    assert(MODIFIED_FLAGS == 0x716u32) by (bit_vector);
    assert(bits & 0x4000u32 == 0 && bits & 0x81u32 == 0 && bits & 0x808u32 == 0 ==> bits & 0x889u32 == 0) by (bit_vector);
    assert(bits & 0x889u32 == 0 ==> bits & 0x81u32 == 0 && bits & 0x808u32 == 0) by (bit_vector);
    assert(bits & 0x4f9fu32 == 0 ==> bits & 0x4000u32 == 0 && bits & 0x81u32 == 0 && bits & 0x808u32 == 0
        && bits & 0x716u32 == 0) by (bit_vector);
}

/// Which status wins when a folder's descendants disagree: higher wins.
pub open spec fn priority(s: GitFileStatus) -> u8 {
    match s {
        GitFileStatus::New => 3,
        GitFileStatus::Renamed => 2,
        GitFileStatus::Modified => 1,
    }
}

/// A new file outranks a rename, which outranks a modification, so a
/// folder shows the most drastic change beneath it.
pub proof fn lemma_priority_order()
    ensures
        priority(GitFileStatus::New) > priority(GitFileStatus::Renamed),
        priority(GitFileStatus::Renamed) > priority(GitFileStatus::Modified),
        priority(GitFileStatus::Modified) >= 1,
{
}

/// The one-letter marker the commit dialog shows for a status.
pub open spec fn marker_of(s: GitFileStatus) -> Seq<char> {
    match s {
        GitFileStatus::New => seq!['A'],
        GitFileStatus::Renamed => seq!['R'],
        GitFileStatus::Modified => seq!['M'],
    }
}

impl GitFileStatus {
    /// The category for a libgit2 status word (`Status::bits`).
    pub fn from_status_bits(bits: u32) -> (r: Option<GitFileStatus>)
        ensures
            r == status_category(bits),
    {
        if bits & STATUS_IGNORED != 0 {
            None
        } else if bits & NEW_FLAGS != 0 {
            Some(GitFileStatus::New)
        } else if bits & RENAMED_FLAGS != 0 {
            Some(GitFileStatus::Renamed)
        } else if bits & MODIFIED_FLAGS != 0 {
            Some(GitFileStatus::Modified)
        } else {
            None
        }
    }

    /// The commit dialog's marker: `A`, `R` or `M`.
    pub fn marker(self) -> (r: String)
        ensures
            r@ == marker_of(self),
    {
        let mut r = String::new();
        match self {
            GitFileStatus::New => crate::strings::push_char(&mut r, 'A'),
            GitFileStatus::Renamed => crate::strings::push_char(&mut r, 'R'),
            GitFileStatus::Modified => crate::strings::push_char(&mut r, 'M'),
        }
        assert(r@ =~= marker_of(self));
        r
    }
}

/// Higher wins when a folder's descendants disagree on status.
pub fn status_priority(status: GitFileStatus) -> (r: u8)
    ensures
        r == priority(status),
{
    match status {
        GitFileStatus::New => 3,
        GitFileStatus::Renamed => 2,
        GitFileStatus::Modified => 1,
    }
}

/// A handle on the repository rooted at a workspace folder.
pub struct GitController {
    repo_path: FsPath,
}

impl View for GitController {
    type V = Seq<Seq<char>>;

    closed spec fn view(&self) -> Seq<Seq<char>> {
        self.repo_path@
    }
}

impl GitController {
    /// A controller for the repository at `repo_path`.
    pub fn new(repo_path: &FsPath) -> (r: GitController)
        ensures
            r@ == repo_path@,
    {
        GitController { repo_path: repo_path.duplicate() }
    }

    /// The repository's root folder.
    pub fn repo_path(&self) -> (r: &FsPath)
        ensures
            r@ == self@,
    {
        &self.repo_path
    }

    /// The absolute path of a status entry, given the entry's path
    /// relative to the repository root (`repo_path.join(entry.path())`).
    pub fn entry_path(&self, rel: &FsPath) -> (r: FsPath)
        requires
            forall|i: int| 0 <= i < rel@.len() ==> normal_part(#[trigger] rel@[i]),
        ensures
            r@ == self@ + rel@,
    {
        let mut parts = self.repo_path.duplicate().parts;
        let ghost start = self@;
        let mut i: usize = 0;
        while i < rel.parts.len()
            invariant
                start == self@,
                i <= rel.parts@.len(),
                parts@.map_values(|p: String| p@) == start + rel@.take(i as int),
            decreases rel.parts.len() - i,
        {
            let ghost before = parts@;
            parts.push(rel.parts[i].clone());
            assert(rel@.take(i + 1) =~= rel@.take(i as int).push(rel@[i as int]));
            assert(parts@.map_values(|p: String| p@) =~= before.map_values(|p: String| p@).push(rel.parts@[i as int]@));
            i = i + 1;
        }
        assert(rel@.take(rel@.len() as int) =~= rel@);
        FsPath { parts }
    }
}

/// What a fetch reports: nothing new, or how many objects came in.
pub open spec fn fetch_summary_text(received: nat, remote: Seq<char>) -> Seq<char> {
    if received == 0 {
        "Already up to date."@
    } else {
        "Fetched "@ + decimal(received) + " object(s) from "@ + remote + "."@
    }
}

/// The one-line summary of a finished fetch from `remote` that received
/// `received` objects.
pub fn fetch_summary(received: u64, remote: &str) -> (r: String)
    ensures
        r@ == fetch_summary_text(received as nat, remote@),
{
    if received == 0 {
        return "Already up to date.".to_owned();
    }
    let mut r = "Fetched ".to_owned();
    let count = decimal_string(received);
    append_str(&mut r, count.as_str());
    append_str(&mut r, " object(s) from ");
    append_str(&mut r, remote);
    append_str(&mut r, ".");
    r
}

/// Why a pull or push cannot start: the checked-out HEAD is not a branch.
pub fn detached_head_message(action: &str) -> (r: String)
    ensures
        r@ == "Detached HEAD — can't "@ + action@,
{
    let mut r = "Detached HEAD — can't ".to_owned();
    append_str(&mut r, action);
    r
}

/// What a pull does once the remote branch has been fetched and compared
/// with the local one.
pub enum PullPlan {
    /// Nothing to do; report this message.
    UpToDate { message: String },
    /// The branches have diverged; fail with this message.
    Diverged { message: String },
    /// Move `refname` to the fetched commit, check it out, and report
    /// `message`.
    FastForward { refname: String, message: String },
}

/// The decision a pull makes from the merge analysis of the fetched head:
/// up to date, fast-forward, or refuse because the branches diverged (no
/// merge or rebase is ever attempted).
pub open spec fn pull_plan_spec(branch: Seq<char>, remote: Seq<char>, up_to_date: bool, fast_forward: bool) -> (
    int,
    Seq<char>,
    Seq<char>,
) {
    if up_to_date {
        (0, Seq::empty(), "Already up to date."@)
    } else if !fast_forward {
        (
            1,
            Seq::empty(),
            "'"@ + branch + "' has diverged from "@ + remote + "/"@ + branch
                + " — can't fast-forward. Resolve manually."@,
        )
    } else {
        (2, "refs/heads/"@ + branch, "Fast-forwarded '"@ + branch + "' to "@ + remote + "/"@ + branch + "."@)
    }
}

/// The view of a plan: its kind (0 up to date, 1 diverged, 2 fast-forward),
/// the reference to move, and the message.
pub open spec fn pull_plan_view(p: PullPlan) -> (int, Seq<char>, Seq<char>) {
    match p {
        PullPlan::UpToDate { message } => (0, Seq::empty(), message@),
        PullPlan::Diverged { message } => (1, Seq::empty(), message@),
        PullPlan::FastForward { refname, message } => (2, refname@, message@),
    }
}

/// Decides a pull of `branch` from `remote` from the merge analysis flags.
pub fn plan_pull(branch: &str, remote: &str, up_to_date: bool, fast_forward: bool) -> (r: PullPlan)
    ensures
        pull_plan_view(r) == pull_plan_spec(branch@, remote@, up_to_date, fast_forward),
{
    if up_to_date {
        return PullPlan::UpToDate { message: "Already up to date.".to_owned() };
    }
    if !fast_forward {
        let mut m = "'".to_owned();
        append_str(&mut m, branch);
        append_str(&mut m, "' has diverged from ");
        append_str(&mut m, remote);
        append_str(&mut m, "/");
        append_str(&mut m, branch);
        append_str(&mut m, " — can't fast-forward. Resolve manually.");
        return PullPlan::Diverged { message: m };
    }
    let mut refname = "refs/heads/".to_owned();
    append_str(&mut refname, branch);
    let mut m = "Fast-forwarded '".to_owned();
    append_str(&mut m, branch);
    append_str(&mut m, "' to ");
    append_str(&mut m, remote);
    append_str(&mut m, "/");
    append_str(&mut m, branch);
    append_str(&mut m, ".");
    PullPlan::FastForward { refname, message: m }
}

/// The refspec a push of `branch` uses: the same branch name on both ends.
pub fn push_refspec(branch: &str) -> (r: String)
    ensures
        r@ == "refs/heads/"@ + branch@ + ":refs/heads/"@ + branch@,
{
    let mut r = "refs/heads/".to_owned();
    append_str(&mut r, branch);
    append_str(&mut r, ":refs/heads/");
    append_str(&mut r, branch);
    r
}

/// What a finished push reports.
pub fn push_summary(branch: &str, remote: &str) -> (r: String)
    ensures
        r@ == "Pushed '"@ + branch@ + "' to "@ + remote@ + "."@,
{
    let mut r = "Pushed '".to_owned();
    append_str(&mut r, branch);
    append_str(&mut r, "' to ");
    append_str(&mut r, remote);
    append_str(&mut r, ".");
    r
}

/// The commit message for what the user typed: trimmed, or `"Update"` when
/// nothing but whitespace was entered.
pub fn commit_message(text: &str) -> (r: String)
    ensures
        r@ == (if trim(text@).len() == 0 { "Update"@ } else { trim(text@) }),
{
    let t = trim_str(text);
    if t.as_str().is_empty() {
        "Update".to_owned()
    } else {
        proof {
            assert(t@.len() > 0);
        }
        t
    }
}

/// One line of the commit dialog's file list: `[M]  path`.
pub fn commit_line(status: GitFileStatus, rel: &str) -> (r: String)
    ensures
        r@ == "["@ + marker_of(status) + "]  "@ + rel@,
{
    let mut r = "[".to_owned();
    let m = status.marker();
    append_str(&mut r, m.as_str());
    append_str(&mut r, "]  ");
    append_str(&mut r, rel);
    r
}

/// The commit dialog's heading: how many files changed.
pub fn changed_count_label(count: u64) -> (r: String)
    ensures
        r@ == decimal(count as nat) + " changed file(s)"@,
{
    let mut r = decimal_string(count);
    append_str(&mut r, " changed file(s)");
    r
}

/// The question asked before pushing `branch` to `remote`.
pub fn push_prompt(branch: &str, remote: &str) -> (r: String)
    ensures
        r@ == "Push '"@ + branch@ + "' to "@ + remote@ + "?"@,
{
    let mut r = "Push '".to_owned();
    append_str(&mut r, branch);
    append_str(&mut r, "' to ");
    append_str(&mut r, remote);
    append_str(&mut r, "?");
    r
}

/// The question asked before pulling `branch` from `remote`.
pub fn pull_prompt(branch: &str, remote: &str) -> (r: String)
    ensures
        r@ == "Pull '"@ + branch@ + "' from "@ + remote@
            + "? This fast-forwards only — it won't merge or rebase if the branches have diverged."@,
{
    let mut r = "Pull '".to_owned();
    append_str(&mut r, branch);
    append_str(&mut r, "' from ");
    append_str(&mut r, remote);
    append_str(&mut r, "? This fast-forwards only — it won't merge or rebase if the branches have diverged.");
    r
}

/// What the git dialogs say when the project has no such remote.
pub fn no_remote_message(remote: &str) -> (r: String)
    ensures
        r@ == "No '"@ + remote@ + "' remote is configured for this project."@,
{
    let mut r = "No '".to_owned();
    append_str(&mut r, remote);
    append_str(&mut r, "' remote is configured for this project.");
    r
}

} // verus!
