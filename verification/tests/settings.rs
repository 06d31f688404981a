use rhymr::settings::{split_lines, Settings};

#[test]
fn defaults_turn_completion_off() {
    let s = Settings::default();
    assert!(s.show_syllable_gutter);
    assert!(s.rhyme_highlighting);
    assert!(!s.word_completion);
    assert!(s.auto_indent);
    assert_eq!(s.tab_width, 4);
    assert!(s.git_autostage);
}

#[test]
fn settings_text_has_one_line_per_setting() {
    let s = Settings::default();
    assert_eq!(
        s.to_text(),
        "show_syllable_gutter=true\nrhyme_highlighting=true\nword_completion=false\nauto_indent=true\ntab_width=4\ngit_autostage=true\n"
    );
}

#[test]
fn reading_written_settings_gives_them_back() {
    let s = Settings {
        show_syllable_gutter: false,
        rhyme_highlighting: true,
        word_completion: true,
        auto_indent: false,
        tab_width: 8,
        git_autostage: false,
    };
    assert_eq!(Settings::from_text(&s.to_text()), s);
}

#[test]
fn unknown_and_malformed_lines_keep_defaults() {
    let s = Settings::from_text("tab_width=abc\nmystery=true\nno equals sign\nword_completion=true\r\n");
    assert_eq!(s.tab_width, 4);
    assert!(s.word_completion);
    let s = Settings::from_text("tab_width=+2\nauto_indent=yes");
    assert_eq!(s.tab_width, 2);
    assert!(!s.auto_indent);
    let s = Settings::from_text("tab_width=99999999999");
    assert_eq!(s.tab_width, 4);
    assert_eq!(Settings::from_text(""), Settings::default());
}

#[test]
fn lines_split_like_str_lines() {
    assert_eq!(split_lines("a\nb\r\nc"), vec!["a", "b", "c"]);
    assert_eq!(split_lines("a\n"), vec!["a"]);
    assert_eq!(split_lines(""), Vec::<String>::new());
    assert_eq!(split_lines("\n\n"), vec!["", ""]);
    assert_eq!(split_lines("x\r"), vec!["x\r"]);
}
