use rhymr::paths::FsPath;
use rhymr::recent::{avatar_initial, record_recent, recent_display_name, recent_text, remove_recent, MAX_RECENT};

fn path(parts: &[&str]) -> FsPath {
    FsPath::new(parts.iter().map(|p| p.to_string()).collect())
}

fn names(list: &[FsPath]) -> Vec<String> {
    list.iter().map(|p| p.display()).collect()
}

#[test]
fn opening_moves_a_workspace_to_the_front() {
    let list = vec![path(&["/", "a"]), path(&["/", "b"]), path(&["/", "c"])];
    let r = record_recent(&list, &path(&["/", "b"]));
    assert_eq!(names(&r), vec!["/b", "/a", "/c"]);
    let r = record_recent(&list, &path(&["/", "d"]));
    assert_eq!(names(&r), vec!["/d", "/a", "/b", "/c"]);
}

#[test]
fn the_list_is_capped() {
    let list: Vec<FsPath> = (0..12).map(|i| path(&["/", &format!("w{i}")])).collect();
    let r = record_recent(&list, &path(&["/", "new"]));
    assert_eq!(r.len(), MAX_RECENT);
    assert_eq!(r[0].display(), "/new");
    assert_eq!(r[9].display(), "/w8");
}

#[test]
fn opening_twice_changes_nothing_more() {
    let list = vec![path(&["/", "a"]), path(&["/", "b"])];
    let once = record_recent(&list, &path(&["/", "b"]));
    let twice = record_recent(&once, &path(&["/", "b"]));
    assert_eq!(names(&once), names(&twice));
}

#[test]
fn removing_drops_every_copy() {
    let list = vec![path(&["/", "a"]), path(&["/", "b"]), path(&["/", "a"])];
    assert_eq!(names(&remove_recent(&list, &path(&["/", "a"]))), vec!["/b"]);
}

#[test]
fn file_text_is_one_path_per_line() {
    let list = vec![path(&["/", "a"]), path(&["/", "b", "c"])];
    assert_eq!(recent_text(&list), "/a\n/b/c");
    assert_eq!(recent_text(&Vec::new()), "");
}

#[test]
fn rows_show_folder_name_and_initial() {
    assert_eq!(recent_display_name(&path(&["/", "songs"])), "songs");
    assert_eq!(recent_display_name(&path(&["/"])), "Workspace");
    assert_eq!(avatar_initial("songs"), 's');
    assert_eq!(avatar_initial(""), 'W');
}
