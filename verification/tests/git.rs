use rhymr::git::{
    changed_count_label, commit_line, commit_message, detached_head_message, fetch_summary, no_remote_message, plan_pull,
    pull_prompt, push_prompt, push_refspec, push_summary, status_priority, GitController, GitFileStatus, PullPlan,
    STATUS_IGNORED, STATUS_INDEX_MODIFIED, STATUS_INDEX_NEW, STATUS_INDEX_RENAMED, STATUS_WT_DELETED, STATUS_WT_MODIFIED,
    STATUS_WT_NEW,
};
use rhymr::paths::FsPath;

fn path(parts: &[&str]) -> FsPath {
    FsPath::new(parts.iter().map(|p| p.to_string()).collect())
}

#[test]
fn status_bits_map_to_categories() {
    assert_eq!(GitFileStatus::from_status_bits(STATUS_WT_NEW), Some(GitFileStatus::New));
    assert_eq!(GitFileStatus::from_status_bits(STATUS_INDEX_NEW | STATUS_WT_MODIFIED), Some(GitFileStatus::New));
    assert_eq!(GitFileStatus::from_status_bits(STATUS_INDEX_RENAMED | STATUS_WT_MODIFIED), Some(GitFileStatus::Renamed));
    assert_eq!(GitFileStatus::from_status_bits(STATUS_WT_DELETED), Some(GitFileStatus::Modified));
    assert_eq!(GitFileStatus::from_status_bits(STATUS_INDEX_MODIFIED), Some(GitFileStatus::Modified));
    assert_eq!(GitFileStatus::from_status_bits(STATUS_IGNORED | STATUS_WT_NEW), None);
    assert_eq!(GitFileStatus::from_status_bits(0), None);
}

#[test]
fn new_outranks_renamed_outranks_modified() {
    assert_eq!(status_priority(GitFileStatus::New), 3);
    assert_eq!(status_priority(GitFileStatus::Renamed), 2);
    assert_eq!(status_priority(GitFileStatus::Modified), 1);
}

#[test]
fn markers_and_commit_lines() {
    assert_eq!(GitFileStatus::New.marker(), "A");
    assert_eq!(GitFileStatus::Renamed.marker(), "R");
    assert_eq!(GitFileStatus::Modified.marker(), "M");
    assert_eq!(commit_line(GitFileStatus::Modified, "songs/a.txt"), "[M]  songs/a.txt");
    assert_eq!(changed_count_label(3), "3 changed file(s)");
}

#[test]
fn empty_commit_message_defaults_to_update() {
    assert_eq!(commit_message("   \n"), "Update");
    assert_eq!(commit_message("  fix chorus \n"), "fix chorus");
}

#[test]
fn fetch_summaries() {
    assert_eq!(fetch_summary(0, "origin"), "Already up to date.");
    assert_eq!(fetch_summary(12, "origin"), "Fetched 12 object(s) from origin.");
}

#[test]
fn pull_plans_follow_the_merge_analysis() {
    match plan_pull("main", "origin", true, true) {
        PullPlan::UpToDate { message } => assert_eq!(message, "Already up to date."),
        _ => panic!("expected up to date"),
    }
    match plan_pull("main", "origin", false, false) {
        PullPlan::Diverged { message } => assert_eq!(
            message,
            "'main' has diverged from origin/main — can't fast-forward. Resolve manually."
        ),
        _ => panic!("expected diverged"),
    }
    match plan_pull("main", "origin", false, true) {
        PullPlan::FastForward { refname, message } => {
            assert_eq!(refname, "refs/heads/main");
            assert_eq!(message, "Fast-forwarded 'main' to origin/main.");
        }
        _ => panic!("expected fast-forward"),
    }
}

#[test]
fn push_texts() {
    assert_eq!(push_refspec("dev"), "refs/heads/dev:refs/heads/dev");
    assert_eq!(push_summary("dev", "origin"), "Pushed 'dev' to origin.");
    assert_eq!(push_prompt("dev", "origin"), "Push 'dev' to origin?");
    assert!(pull_prompt("dev", "origin").starts_with("Pull 'dev' from origin? This fast-forwards only"));
    assert_eq!(no_remote_message("origin"), "No 'origin' remote is configured for this project.");
    assert_eq!(detached_head_message("push"), "Detached HEAD — can't push");
}

#[test]
fn controller_joins_entry_paths_to_its_root() {
    let g = GitController::new(&path(&["/", "w"]));
    assert_eq!(g.repo_path().parts, vec!["/", "w"]);
    let e = g.entry_path(&path(&["songs", "a.txt"]));
    assert_eq!(e.parts, vec!["/", "w", "songs", "a.txt"]);
}

#[test]
fn tools_controller_keeps_its_root() {
    let g = rhymr::tools::GitController::new(&path(&["/", "w"]));
    assert_eq!(g.repo_path().parts, vec!["/", "w"]);
}
