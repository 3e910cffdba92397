use filefinder::matcher::{create_matcher, Matcher, MatcherError};

#[test]
fn glob_matches_whole_name() {
    let m = Matcher::new_glob("*.txt").unwrap();
    assert!(m.is_match("notes.txt"));
    assert!(!m.is_match("notes.txt.bak"));
    assert!(!m.is_match("notes.md"));
    let m = Matcher::new_glob("main").unwrap();
    assert!(m.is_match("main"));
    assert!(!m.is_match("main.rs"));
}

#[test]
fn regex_matches_anywhere() {
    let m = Matcher::new_regex(r"file[0-9]+\.txt").unwrap();
    assert!(m.is_match("file12.txt"));
    assert!(m.is_match("old_file7.txt.bak"));
    assert!(!m.is_match("file.txt"));
}

#[test]
fn invalid_patterns_are_errors() {
    assert!(matches!(Matcher::new_glob("a[b"), Err(MatcherError::InvalidGlob(_))));
    assert!(matches!(Matcher::new_glob("***"), Err(MatcherError::InvalidGlob(_))));
    assert!(matches!(Matcher::new_regex("(unclosed"), Err(MatcherError::InvalidRegex(_))));
}

#[test]
fn create_matcher_picks_the_kind() {
    let g = create_matcher("*.rs", false).unwrap();
    assert!(g.is_match("lib.rs"));
    let r = create_matcher("*.rs", true);
    assert!(matches!(r, Err(MatcherError::InvalidRegex(_))));
    let r = create_matcher(r"\.rs$", true).unwrap();
    assert!(r.is_match("lib.rs"));
    assert!(matches!(create_matcher("[", false), Err(MatcherError::InvalidGlob(_))));
}
