use rhymr::paths::{paths_under, position_of, rename_open_paths, FsPath};

fn path(parts: &[&str]) -> FsPath {
    FsPath::new(parts.iter().map(|p| p.to_string()).collect())
}

fn parts(p: &FsPath) -> Vec<String> {
    p.parts.clone()
}

#[test]
fn components_compare_and_prefix() {
    let a = path(&["/", "w", "a"]);
    assert!(a.same(&path(&["/", "w", "a"])));
    assert!(!a.same(&path(&["/", "w", "ab"])));
    assert!(a.starts_with(&path(&["/", "w"])));
    assert!(a.starts_with(&a));
    assert!(!a.starts_with(&path(&["/", "x"])));
}

#[test]
fn parent_file_name_and_join() {
    let a = path(&["/", "w", "a.txt"]);
    assert_eq!(parts(&a.parent().unwrap()), vec!["/", "w"]);
    assert!(path(&["/"]).parent().is_none());
    assert!(path(&[]).parent().is_none());
    assert_eq!(a.file_name(), Some("a.txt".to_string()));
    assert_eq!(path(&["/"]).file_name(), None);
    assert_eq!(path(&["w", ".."]).file_name(), None);
    assert_eq!(parts(&path(&["/", "w"]).join("b")), vec!["/", "w", "b"]);
    assert_eq!(parts(&path(&["/", "w"]).join(".")), vec!["/", "w"]);
}

#[test]
fn display_joins_with_slashes() {
    assert_eq!(path(&["/", "w", "a.txt"]).display(), "/w/a.txt");
    assert_eq!(path(&["w", "a"]).display(), "w/a");
    assert_eq!(path(&["/"]).display(), "/");
}

#[test]
fn renaming_a_folder_moves_open_paths_under_it() {
    let mut open = vec![path(&["/", "w", "a", "x.txt"]), path(&["/", "w", "b.txt"]), path(&["/", "w", "a"])];
    let changed = rename_open_paths(&mut open, &path(&["/", "w", "a"]), &path(&["/", "w", "c"]));
    assert_eq!(changed, vec![0, 2]);
    assert_eq!(parts(&open[0]), vec!["/", "w", "c", "x.txt"]);
    assert_eq!(parts(&open[1]), vec!["/", "w", "b.txt"]);
    assert_eq!(parts(&open[2]), vec!["/", "w", "c"]);
}

#[test]
fn renaming_back_restores_the_open_paths() {
    let original = vec![path(&["/", "w", "a", "x.txt"]), path(&["/", "w", "b.txt"])];
    let mut open = vec![path(&["/", "w", "a", "x.txt"]), path(&["/", "w", "b.txt"])];
    rename_open_paths(&mut open, &path(&["/", "w", "a"]), &path(&["/", "w", "c"]));
    rename_open_paths(&mut open, &path(&["/", "w", "c"]), &path(&["/", "w", "a"]));
    for (x, y) in open.iter().zip(original.iter()) {
        assert!(x.same(y));
    }
}

#[test]
fn deleting_a_folder_closes_what_is_under_it() {
    let open = vec![path(&["/", "w", "a", "x.txt"]), path(&["/", "w", "ab.txt"]), path(&["/", "w", "a"])];
    assert_eq!(paths_under(&open, &path(&["/", "w", "a"])), vec![0, 2]);
    assert_eq!(position_of(&open, &path(&["/", "w", "ab.txt"])), Some(1));
    assert_eq!(position_of(&open, &path(&["/", "w", "zz"])), None);
}

#[test]
fn rebase_follows_a_move() {
    let p = path(&["/", "w", "a", "x.txt"]);
    let q = p.rebase(&path(&["/", "w", "a"]), &path(&["/", "v"])).unwrap();
    assert_eq!(parts(&q), vec!["/", "v", "x.txt"]);
    assert!(p.rebase(&path(&["/", "z"]), &path(&["/", "v"])).is_none());
}
