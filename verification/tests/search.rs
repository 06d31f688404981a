use rhymr::search::{group_by_syllables, merge_reports, syllable_header_markup, words_markup};

#[test]
fn reports_merge_with_the_latest_count_winning() {
    let reports = vec![
        ("light".to_string(), Some(1)),
        ("delight".to_string(), Some(2)),
        ("kite".to_string(), None),
        ("light".to_string(), Some(2)),
        ("bite".to_string(), Some(0)),
        ("night".to_string(), Some(1)),
    ];
    assert_eq!(
        merge_reports(&reports),
        vec![("light".to_string(), 2), ("delight".to_string(), 2), ("night".to_string(), 1)]
    );
}

#[test]
fn groups_ascend_by_syllable_count() {
    let rhymes = vec![("delight".to_string(), 2), ("night".to_string(), 1), ("ignite".to_string(), 2)];
    let groups = group_by_syllables(&rhymes);
    assert_eq!(
        groups,
        vec![
            (1, vec!["night".to_string()]),
            (2, vec!["delight".to_string(), "ignite".to_string()]),
        ]
    );
}

#[test]
fn headers_and_word_lists() {
    assert_eq!(syllable_header_markup(1), "<span font_weight='bold' color='#e1e1e1'>1 Syllable</span>");
    assert_eq!(syllable_header_markup(3), "<span font_weight='bold' color='#e1e1e1'>3 Syllables</span>");
    let ws = vec!["a".to_string(), "b".to_string()];
    assert_eq!(words_markup(&ws), "<span color='#ffffff'>a, b</span>");
}
