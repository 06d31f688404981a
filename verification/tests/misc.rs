use rhymr::autosave::AutosaveClock;
use rhymr::paths::FsPath;
use rhymr::rhyme_spans::unsubsumed_spans;
use rhymr::style::{stylesheet_path, STYLESHEETS};
use rhymr::workspace::{default_gitignore, project_name, project_preview, WorkspaceManager};

#[test]
fn only_the_latest_edit_saves() {
    let mut clock = AutosaveClock::new();
    let first = clock.note_edit();
    let second = clock.note_edit();
    assert!(!clock.is_current(first));
    assert!(clock.is_current(second));
    assert!(clock.can_note_edit());
    assert_eq!(second, 2);
}

#[test]
fn covered_spans_are_dropped() {
    let spans = vec![(0, 4, 10, 14), (1, 3, 11, 13), (0, 2, 20, 22), (5, 6, 7, 8)];
    assert_eq!(unsubsumed_spans(&spans), vec![0, 2, 3]);
    assert!(unsubsumed_spans(&Vec::new()).is_empty());
}

#[test]
fn stylesheets_live_under_assets() {
    assert_eq!(STYLESHEETS.len(), 10);
    assert_eq!(stylesheet_path("base", "scss"), "assets/scss/base.scss");
    assert_eq!(stylesheet_path("welcome", "css"), "assets/css/welcome.css");
}

#[test]
fn new_project_naming() {
    assert_eq!(project_name("  Album  "), "Album");
    assert_eq!(project_name("   "), "untitled");
    assert_eq!(project_preview("/home/me", ""), "Project will be created in: /home/me/untitled");
    assert_eq!(default_gitignore(), ".rhymr/\n");
}

#[test]
fn workspace_paths() {
    let m = WorkspaceManager::new(FsPath::new(vec!["/".to_string(), "w".to_string()]));
    assert_eq!(m.state_dir().display(), "/w/.rhymr");
    assert_eq!(m.gitignore_path().display(), "/w/.gitignore");
    assert_eq!(m.note_path("Verse").display(), "/w/Verse.txt");
}

#[test]
fn accelerators_join_modifiers_and_key() {
    assert_eq!(rhymr::shortcuts::accel("<Control>", "<Shift>", "n"), "<Control><Shift>n");
    assert_eq!(rhymr::shortcuts::accel("<Meta>", "", "comma"), "<Meta>comma");
}
