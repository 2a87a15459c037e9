use komando::history::{is_space_char, last_commands};
use komando::text::{contains_str, lex_less};

const DUMP: &str = "    1  ls -la\n    2  history\n\n    3  komando -s\n    4  git status  \n    5\n    6  cd /tmp\u{a0}\r\n";

#[test]
fn last_commands_keeps_real_commands_newest_first() {
    assert_eq!(last_commands(DUMP, 5), vec!["cd /tmp", "git status", "ls -la"]);
    assert_eq!(last_commands(DUMP, 2), vec!["cd /tmp", "git status"]);
    assert_eq!(last_commands(DUMP, 0), Vec::<String>::new());
}

#[test]
fn last_commands_of_empty_or_blank_dump_is_empty() {
    assert!(last_commands("", 5).is_empty());
    assert!(last_commands("\n  \n\t\n", 5).is_empty());
}

#[test]
fn last_commands_without_trailing_newline() {
    assert_eq!(last_commands("  10  echo hi", 3), vec!["echo hi"]);
    assert_eq!(last_commands("  11  history | grep x\n  12  komandox", 3), Vec::<String>::new());
}

#[test]
fn contains_is_literal() {
    assert!(contains_str("git commit", "commit"));
    assert!(contains_str("abc", ""));
    assert!(!contains_str("abc", "abcd"));
    assert!(!contains_str("Git", "git"));
    assert!(contains_str("héllo wörld", "ö"));
}

#[test]
fn whitespace_matches_std() {
    for c in ['\t', '\n', '\u{0B}', '\u{0C}', '\r', ' ', '\u{85}', '\u{A0}', '\u{1680}', '\u{2000}', '\u{200A}', '\u{2028}', '\u{2029}', '\u{202F}', '\u{205F}', '\u{3000}', 'a', '\u{200B}', '\u{1F}', '_'] {
        assert_eq!(is_space_char(c), c.is_whitespace(), "{:?}", c);
    }
}

#[test]
fn lex_less_matches_string_order() {
    let words = ["", "a", "ab", "b", "B", "é", "aé", "a b"];
    for x in words {
        for y in words {
            assert_eq!(lex_less(&x.to_string(), &y.to_string()), x < y, "{:?} {:?}", x, y);
        }
    }
}
