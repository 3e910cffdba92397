use filefinder::config::{SearchConfig, SizeRange};
use filefinder::matcher::{Matcher, MatcherError};
use filefinder::scanner::{matches_ext, matches_name, EntryAction, Scanner};

fn config(root: &str) -> SearchConfig {
    SearchConfig {
        path: root.to_string(),
        pattern: None,
        ext: None,
        size_range: None,
        use_regex: false,
        ignore_git: true,
        ignore_node: true,
        max_depth: None,
        interactive: false,
    }
}

#[test]
fn walk_decisions_prune_ignored_directories() {
    let mut c = config("/tmp/root");
    c.ext = Some("rs".to_string());
    let scanner = Scanner::new(c).unwrap();
    assert_eq!(
        scanner.entry_action("/tmp/root/node_modules", Some("node_modules"), true, false),
        EntryAction::Prune
    );
    assert_eq!(
        scanner.entry_action("/tmp/root/node_modules/pkg/skip.rs", Some("skip.rs"), false, true),
        EntryAction::Prune
    );
    assert_eq!(scanner.entry_action("/tmp/root/src", Some("src"), true, false), EntryAction::Pass);
    assert_eq!(
        scanner.entry_action("/tmp/root/src/keep.rs", Some("keep.rs"), false, true),
        EntryAction::ReadMetadata
    );
    assert_eq!(
        scanner.entry_action("/tmp/root/src/notes.md", Some("notes.md"), false, true),
        EntryAction::Prune
    );
    assert_eq!(scanner.entry_action("/tmp/root/.git", Some(".git"), true, false), EntryAction::Prune);
}

#[test]
fn name_pattern_filters_files_only() {
    let mut c = config("/r");
    c.pattern = Some("*.log".to_string());
    let scanner = Scanner::new(c).unwrap();
    assert_eq!(scanner.entry_action("/r/logs", Some("logs"), true, false), EntryAction::Pass);
    assert_eq!(scanner.entry_action("/r/logs/a.log", Some("a.log"), false, true), EntryAction::ReadMetadata);
    assert_eq!(scanner.entry_action("/r/logs/a.txt", Some("a.txt"), false, true), EntryAction::Prune);
    assert_eq!(scanner.entry_action("/r/logs/x.log", None, false, true), EntryAction::Prune);
}

#[test]
fn size_range_decides_after_metadata() {
    let mut c = config("/r");
    c.size_range = Some(SizeRange::parse("1K..2K").unwrap());
    let scanner = Scanner::new(c).unwrap();
    assert!(!scanner.accepts_size(1023));
    assert!(scanner.accepts_size(1024));
    assert!(scanner.accepts_size(2048));
    assert!(!scanner.accepts_size(2049));
    let open = Scanner::new(config("/r")).unwrap();
    assert!(open.accepts_size(0));
    assert!(open.accepts_size(u64::MAX));
}

#[test]
fn gitignore_rules_prune_entries() {
    let mut c = config("/r");
    c.ignore_git = false;
    c.ignore_node = false;
    let mut scanner = Scanner::new(c).unwrap();
    assert_eq!(scanner.entry_action("/r/build", Some("build"), true, false), EntryAction::Pass);
    scanner.add_gitignore("/r", "build/\n");
    assert_eq!(scanner.entry_action("/r/build", Some("build"), true, false), EntryAction::Prune);
    assert_eq!(scanner.entry_action("/r/.git", Some(".git"), true, false), EntryAction::Pass);
    assert_eq!(scanner.config().path, "/r");
}

#[test]
fn bad_pattern_stops_the_search() {
    let mut c = config("/r");
    c.pattern = Some("a[".to_string());
    assert!(matches!(Scanner::new(c), Err(MatcherError::InvalidGlob(_))));
    let mut c = config("/r");
    c.pattern = Some("a(".to_string());
    c.use_regex = true;
    assert!(matches!(Scanner::new(c), Err(MatcherError::InvalidRegex(_))));
}

#[test]
fn extension_filter() {
    assert!(matches_ext("src/main.rs", Some("rs")));
    assert!(matches_ext("a.tar.gz", Some("gz")));
    assert!(!matches_ext("a.tar.gz", Some("tar.gz")));
    assert!(!matches_ext("Makefile", Some("rs")));
    assert!(!matches_ext("/home/u/.bashrc", Some("bashrc")));
    assert!(!matches_ext("main.RS", Some("rs")));
    assert!(matches_ext("Makefile", None));
}

#[test]
fn name_filter() {
    let m = Matcher::new_glob("*.rs").unwrap();
    assert!(matches_name(Some("lib.rs"), Some(&m)));
    assert!(!matches_name(Some("lib.c"), Some(&m)));
    assert!(!matches_name(None, Some(&m)));
    assert!(matches_name(None, None));
    assert!(matches_name(Some("anything"), None));
}
