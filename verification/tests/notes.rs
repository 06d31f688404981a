use rhymr::notes::{fetch_apple_notes, parse_notes_output};

#[test]
fn notes_import_is_refused_off_macos() {
    assert_eq!(fetch_apple_notes(), Err("Apple Notes import is only available on macOS".to_string()));
}

#[test]
fn script_output_becomes_titled_notes() {
    let raw = " Shopping / list |||eggs\nmilk :::END:::Verse 2|||line one:::END::: |||no title:::END:::junk:::END:::\n";
    let notes = parse_notes_output(raw);
    assert_eq!(
        notes,
        vec![
            ("Shopping _ list".to_string(), "eggs\nmilk".to_string()),
            ("Verse 2".to_string(), "line one".to_string()),
        ]
    );
}

#[test]
fn empty_output_has_no_notes() {
    assert!(parse_notes_output("").is_empty());
}
