use rhymr::completion::{completion_proposals, is_trigger, prefix_matches};

fn words(ws: &[&str]) -> Vec<String> {
    ws.iter().map(|w| w.to_string()).collect()
}

#[test]
fn prefix_range_covers_exactly_the_completions() {
    let ws = words(&["apple", "band", "bandage", "bandit", "banner", "cat"]);
    assert_eq!(prefix_matches(&ws, "band"), (1, 4));
    assert_eq!(prefix_matches(&ws, "zz"), (6, 6));
    assert_eq!(prefix_matches(&ws, ""), (0, 6));
}

#[test]
fn proposals_skip_the_typed_word_and_short_prefixes() {
    let ws = words(&["apple", "band", "bandage", "bandit", "banner", "cat"]);
    assert_eq!(completion_proposals(&ws, "band"), vec!["bandage", "bandit"]);
    assert!(completion_proposals(&ws, "b").is_empty());
    assert_eq!(completion_proposals(&ws, "ba"), vec!["band", "bandage", "bandit", "banner"]);
}

#[test]
fn at_most_a_hundred_proposals() {
    let ws: Vec<String> = (0..150).map(|i| format!("word{i:03}")).collect();
    assert_eq!(completion_proposals(&ws, "wo").len(), 100);
}

#[test]
fn alphanumerics_trigger_completion() {
    assert!(is_trigger('a'));
    assert!(is_trigger('7'));
    assert!(!is_trigger(' '));
    assert!(!is_trigger('-'));
}
