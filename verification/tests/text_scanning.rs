use yarn_lock::text::{chars_of, one_of, past_spaces, space, up_to, word_at};

#[test]
fn characters_of_a_text() {
    assert_eq!(chars_of("a@é"), vec!['a', '@', 'é']);
    assert!(chars_of("").is_empty());
}

#[test]
fn whitespace_is_blank_tab_and_line_ends() {
    assert!(space(' '));
    assert!(space('\t'));
    assert!(space('\r'));
    assert!(space('\n'));
    assert!(!space('a'));
    assert!(!space('\u{a0}'));
}

#[test]
fn membership_among_stops() {
    assert!(one_of(&[',', '"'], '"'));
    assert!(!one_of(&[',', '"'], ':'));
    assert!(!one_of(&[], ','));
}

#[test]
fn moving_past_whitespace() {
    let line = chars_of(" \t a b");
    assert_eq!(past_spaces(&line, 0), 3);
    assert_eq!(past_spaces(&line, 3), 3);
    assert_eq!(past_spaces(&line, 4), 5);
    assert_eq!(past_spaces(&line, 6), 6);
    assert_eq!(past_spaces(&chars_of("   "), 1), 3);
}

#[test]
fn moving_up_to_a_stop() {
    let line = chars_of("ab,cd\"e");
    assert_eq!(up_to(&line, 0, &[',', '"']), 2);
    assert_eq!(up_to(&line, 2, &[',', '"']), 2);
    assert_eq!(up_to(&line, 3, &[',', '"']), 5);
    assert_eq!(up_to(&line, 6, &[',', '"']), 7);
    assert_eq!(up_to(&line, 0, &[]), 7);
}

#[test]
fn word_at_an_index() {
    let line = chars_of("  version 1");
    let word = chars_of("version");
    assert!(word_at(&line, 2, &word));
    assert!(!word_at(&line, 0, &word));
    assert!(!word_at(&line, 5, &word));
    assert!(word_at(&line, 11, &[]));
    assert!(!word_at(&chars_of("vers"), 0, &word));
}
