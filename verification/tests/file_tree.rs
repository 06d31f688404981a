use rhymr::file_tree::{
    copy_destination, copy_name_candidate, is_hidden_entry, listed_folder_entries, move_destination, new_entry_candidate, path_less,
    new_entry_destination, paste_refused, rename_target, stem_and_extension, strip_txt_extension, StatusMap,
};
use rhymr::git::GitFileStatus;
use rhymr::paths::FsPath;

fn path(parts: &[&str]) -> FsPath {
    FsPath::new(parts.iter().map(|p| p.to_string()).collect())
}

fn parts(p: &FsPath) -> Vec<String> {
    p.parts.clone()
}

#[test]
fn txt_extension_is_hidden_case_insensitively() {
    assert_eq!(strip_txt_extension("verse.txt"), "verse");
    assert_eq!(strip_txt_extension("verse.TXT"), "verse");
    assert_eq!(strip_txt_extension("verse.md"), "verse.md");
    assert_eq!(strip_txt_extension(".txt"), ".txt");
    assert_eq!(strip_txt_extension("a.txt.txt"), "a.txt");
    assert_eq!(strip_txt_extension("日本"), "日本");
    assert_eq!(strip_txt_extension("日本.txt"), "日本");
}

#[test]
fn new_entries_get_numbered_names() {
    assert_eq!(new_entry_candidate(true, 1), "New Folder");
    assert_eq!(new_entry_candidate(true, 2), "New Folder 2");
    assert_eq!(new_entry_candidate(false, 1), "Untitled.txt");
    assert_eq!(new_entry_candidate(false, 12), "Untitled 12.txt");
}

#[test]
fn new_entry_lands_in_its_folder() {
    let d = new_entry_destination(&path(&["/", "songs"]), false, 3);
    assert_eq!(parts(&d), vec!["/", "songs", "Untitled 3.txt"]);
}

#[test]
fn copies_keep_their_extension() {
    assert_eq!(copy_name_candidate("hook.txt", 1), "hook.txt");
    assert_eq!(copy_name_candidate("hook.txt", 2), "hook 2.txt");
    assert_eq!(copy_name_candidate("drafts", 3), "drafts 3");
    assert_eq!(copy_name_candidate(".notes", 2), ".notes 2");
    assert_eq!(copy_name_candidate("a.b.c", 2), "a.b 2.c");
}

#[test]
fn stem_and_extension_follow_the_last_dot() {
    assert_eq!(stem_and_extension("a.b.c"), ("a.b".to_string(), Some("c".to_string())));
    assert_eq!(stem_and_extension("plain"), ("plain".to_string(), None));
    assert_eq!(stem_and_extension(".hidden"), (".hidden".to_string(), None));
    assert_eq!(stem_and_extension("trailing."), ("trailing".to_string(), Some(String::new())));
    assert_eq!(stem_and_extension(".."), ("..".to_string(), None));
}

#[test]
fn copy_destination_is_in_the_target_folder() {
    let d = copy_destination(&path(&["/", "w", "hook.txt"]), &path(&["/", "w", "b"]), 2).unwrap();
    assert_eq!(parts(&d), vec!["/", "w", "b", "hook 2.txt"]);
    assert!(copy_destination(&path(&["/"]), &path(&["/", "w"]), 1).is_none());
}

#[test]
fn moves_into_self_or_same_folder_are_refused() {
    let src = path(&["/", "w", "a"]);
    assert!(move_destination(&src, &path(&["/", "w"])).is_none());
    assert!(move_destination(&src, &path(&["/", "w", "a"])).is_none());
    assert!(move_destination(&src, &path(&["/", "w", "a", "inner"])).is_none());
    let d = move_destination(&src, &path(&["/", "w", "b"])).unwrap();
    assert_eq!(parts(&d), vec!["/", "w", "b", "a"]);
}

#[test]
fn paste_into_own_subtree_is_refused() {
    let src = path(&["/", "w", "a"]);
    assert!(paste_refused(&src, &path(&["/", "w", "a"])));
    assert!(paste_refused(&src, &path(&["/", "w", "a", "x"])));
    assert!(!paste_refused(&src, &path(&["/", "w", "ab"])));
}

#[test]
fn rename_adds_txt_to_bare_file_names() {
    let old = path(&["/", "w", "old.txt"]);
    let r = rename_target(&old, false, "  chorus ").unwrap();
    assert_eq!(parts(&r), vec!["/", "w", "chorus.txt"]);
    let r = rename_target(&old, false, "notes.md").unwrap();
    assert_eq!(parts(&r), vec!["/", "w", "notes.md"]);
    let dir = path(&["/", "w", "drafts"]);
    let r = rename_target(&dir, true, "verses").unwrap();
    assert_eq!(parts(&r), vec!["/", "w", "verses"]);
}

#[test]
fn rename_refuses_empty_separator_or_unchanged_names() {
    let old = path(&["/", "w", "old.txt"]);
    assert!(rename_target(&old, false, "   ").is_none());
    assert!(rename_target(&old, false, "a/b").is_none());
    assert!(rename_target(&old, false, "a\\b").is_none());
    assert!(rename_target(&old, false, "old").is_none());
    assert!(rename_target(&path(&["/"]), true, "x").is_none());
}

#[test]
fn hidden_entries_are_dot_files_and_build_folders() {
    assert!(is_hidden_entry(".git"));
    assert!(is_hidden_entry("target"));
    assert!(is_hidden_entry("node_modules"));
    assert!(!is_hidden_entry("songs"));
}

#[test]
fn folders_list_before_files_then_by_name() {
    let items = vec![
        ("zeta.txt".to_string(), false),
        ("Beta".to_string(), true),
        (".git".to_string(), true),
        ("alpha.txt".to_string(), false),
        ("alpha".to_string(), true),
        ("target".to_string(), true),
        ("Alpha.txt".to_string(), false),
    ];
    let listed = listed_folder_entries(items);
    assert_eq!(
        listed,
        vec![
            ("alpha".to_string(), true),
            ("Beta".to_string(), true),
            ("alpha.txt".to_string(), false),
            ("Alpha.txt".to_string(), false),
            ("zeta.txt".to_string(), false),
        ]
    );
}

#[test]
fn statuses_roll_up_to_folders_with_the_highest_priority() {
    let root = path(&["/", "w"]);
    let mut m = StatusMap::new();
    m.insert(path(&["/", "w", "a", "x.txt"]), GitFileStatus::Modified);
    m.insert(path(&["/", "w", "a", "y.txt"]), GitFileStatus::New);
    m.insert(path(&["/", "w", "b", "z.txt"]), GitFileStatus::Renamed);
    let r = m.rolled_up_to(&root);
    assert_eq!(r.get(&path(&["/", "w", "a"])), Some(GitFileStatus::New));
    assert_eq!(r.get(&path(&["/", "w", "b"])), Some(GitFileStatus::Renamed));
    assert_eq!(r.get(&root), Some(GitFileStatus::New));
    assert_eq!(r.get(&path(&["/"])), None);
    assert_eq!(r.get(&path(&["/", "w", "a", "x.txt"])), Some(GitFileStatus::Modified));
    assert_eq!(r.len(), 6);
}

#[test]
fn inserting_a_path_again_replaces_its_status() {
    let mut m = StatusMap::new();
    m.insert(path(&["/", "w", "f"]), GitFileStatus::Modified);
    m.insert(path(&["/", "w", "f"]), GitFileStatus::New);
    assert_eq!(m.len(), 1);
    assert_eq!(m.get(&path(&["/", "w", "f"])), Some(GitFileStatus::New));
    assert!(!m.is_empty());
    assert!(StatusMap::new().is_empty());
}

#[test]
fn changed_files_list_in_path_order() {
    let mut m = StatusMap::new();
    m.insert(path(&["/", "w", "b.txt"]), GitFileStatus::New);
    m.insert(path(&["/", "w", "a", "z.txt"]), GitFileStatus::Modified);
    m.insert(path(&["/", "w", "a-b.txt"]), GitFileStatus::Renamed);
    m.insert(path(&["/", "w", "a"]), GitFileStatus::New);
    let sorted: Vec<Vec<String>> = m.sorted_entries().iter().map(|(p, _)| parts(p)).collect();
    assert_eq!(
        sorted,
        vec![
            vec!["/", "w", "a"],
            vec!["/", "w", "a", "z.txt"],
            vec!["/", "w", "a-b.txt"],
            vec!["/", "w", "b.txt"],
        ]
    );
}

#[test]
fn path_order_puts_root_and_dots_first() {
    assert!(path_less(&path(&["/"]), &path(&["a"])));
    assert!(path_less(&path(&["."]), &path(&[".."])));
    assert!(path_less(&path(&["..", "x"]), &path(&["a"])));
    assert!(path_less(&path(&["a"]), &path(&["a", "b"])));
    assert!(!path_less(&path(&["b"]), &path(&["a", "b"])));
}
