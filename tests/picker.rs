use komando::selector::{bridge_payload, parse_payload, Key, Selector, Step, MARKER, SEPARATOR};

#[test]
fn up_at_top_stays_at_top() {
    let mut s = Selector::new(3);
    assert_eq!(s.handle(Key::Up), Step::Pending);
    assert_eq!(s.cursor(), 0);
}

#[test]
fn down_at_bottom_stays_at_bottom() {
    let mut s = Selector::new(3);
    s.handle(Key::Down);
    s.handle(Key::Down);
    assert_eq!(s.cursor(), 2);
    assert_eq!(s.handle(Key::Down), Step::Pending);
    assert_eq!(s.cursor(), 2);
}

#[test]
fn down_down_enter_selects_the_third_and_emits_it() {
    let candidates = vec![
        ("/a".to_string(), "ls".to_string()),
        ("/b".to_string(), "pwd".to_string()),
        ("/c".to_string(), "make".to_string()),
    ];
    let mut s = Selector::new(candidates.len());
    assert_eq!(s.handle(Key::Down), Step::Pending);
    assert_eq!(s.handle(Key::Down), Step::Pending);
    let step = s.handle(Key::Enter);
    assert_eq!(step, Step::Selected(2));
    let (dir, cmd) = &candidates[2];
    let line = bridge_payload(dir, cmd);
    assert_eq!(line, format!("{}{}{}{}", MARKER, "/c", SEPARATOR, "make"));
    assert_eq!(line, "__komando_run__:/c;make");
}

#[test]
fn escape_cancels_and_other_keys_are_ignored() {
    let mut s = Selector::new(2);
    assert_eq!(s.handle(Key::Other), Step::Pending);
    assert_eq!(s.cursor(), 0);
    s.handle(Key::Down);
    s.handle(Key::Up);
    assert_eq!(s.cursor(), 0);
    assert_eq!(s.handle(Key::Escape), Step::Cancelled);
}

#[test]
fn payload_parses_back_to_directory_and_command() {
    let line = bridge_payload("/home/me", "git commit -m 'a; b'");
    assert_eq!(
        parse_payload(&line),
        Some(("/home/me".to_string(), "git commit -m 'a; b'".to_string()))
    );
    assert_eq!(parse_payload("__komando_run__:.;ls"), Some((".".to_string(), "ls".to_string())));
}

#[test]
fn other_output_is_plain_text() {
    assert_eq!(parse_payload("No matches"), None);
    assert_eq!(parse_payload("/tmp;ls"), None);
    assert_eq!(parse_payload("__komando_run__:no separator"), None);
    assert_eq!(parse_payload(""), None);
}
