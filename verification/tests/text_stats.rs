use rhymr::text_stats::{
    convert_numbers_to_words, count_syllables, count_words, number_to_words, replace_first_str, SyllableRegexes,
};

#[test]
fn number_to_words_never_panics_or_indexes_out_of_bounds() {
    for n in 0..100_000 {
        number_to_words(n);
    }
}

#[test]
fn count_syllables_handles_three_digit_numbers_in_text() {
    assert!(count_syllables("100 Topics for BANNED IN AUSTRALIA").unwrap() > 0);
    assert!(count_syllables("973").unwrap() > 0);
}

#[test]
fn number_to_words_spells_out_each_place() {
    assert_eq!(number_to_words(0), "zero");
    assert_eq!(number_to_words(7), "seven ");
    assert_eq!(number_to_words(13), "thirteen ");
    assert_eq!(number_to_words(40), "forty  ");
    assert_eq!(number_to_words(973), "nine hundred seventy three ");
    assert_eq!(number_to_words(1_204), "one  thousand two hundred four ");
}

#[test]
fn numbers_in_text_become_words() {
    assert_eq!(convert_numbers_to_words("track 12 of 20"), "track twelve of twenty");
    assert_eq!(convert_numbers_to_words("no digits"), "no digits");
}

#[test]
fn words_are_runs_of_word_characters() {
    assert_eq!(count_words(""), 0);
    assert_eq!(count_words("one two  three"), 3);
    assert_eq!(count_words("don't stop"), 3);
    assert_eq!(count_words("  leading and trailing  "), 3);
    assert_eq!(count_words("snake_case counts once"), 3);
}

#[test]
fn syllables_are_counted_per_word() {
    assert_eq!(count_syllables("").unwrap(), 0);
    assert_eq!(count_syllables("cat").unwrap(), 1);
    assert_eq!(count_syllables("a an").unwrap(), 2);
    assert!(count_syllables("banana").unwrap() >= 2);
}

#[test]
fn gutter_label_is_blank_for_blank_lines() {
    let re = SyllableRegexes::new().unwrap();
    assert_eq!(re.gutter_label("   "), "");
    assert_eq!(re.gutter_label(""), "");
    assert_eq!(re.gutter_label("a an"), "2");
}

#[test]
fn replace_first_only_touches_the_first_match() {
    assert_eq!(replace_first_str("a-b-c", "-", "+"), "a+b-c");
    assert_eq!(replace_first_str("abc", "x", "+"), "abc");
}

#[test]
fn word_counts_add_over_a_space() {
    for (a, b) in [("verse one", "chorus"), ("", "x"), ("  ", "  "), ("it's", "done_now 42"), ("a", "")] {
        let joined = format!("{a} {b}");
        assert_eq!(count_words(&joined), count_words(a) + count_words(b));
    }
    assert_eq!(count_words(""), 0);
    assert_eq!(count_words("a"), 1);
}

#[test]
fn syllable_counts_add_over_a_space() {
    for (a, b) in [("hello", "world"), ("100 Topics", "973 nights"), ("", "candle"), ("  beautiful ", "  "), ("don't", "stop")] {
        let joined = format!("{a} {b}");
        let sum = count_syllables(a).unwrap() + count_syllables(b).unwrap();
        assert_eq!(count_syllables(&joined).unwrap(), sum);
    }
}
