use filefinder::ignore::{lines_of, GitignoreFile, GitignoreProblem, IgnoreRules};

#[test]
fn ignores_common_heavy_directories_by_component() {
    let rules = IgnoreRules::new(true, true);

    assert!(rules.should_ignore("/repo/.git/config", false));
    assert!(rules.should_ignore("/repo/packages/node_modules/lib/index.js", false));
    assert!(!rules.should_ignore("/repo/src/git_helpers.rs", false));
}

#[test]
fn rules_without_flags_ignore_nothing() {
    let rules = IgnoreRules::new(false, false);
    assert!(!rules.should_ignore("/repo/.git/config", false));
    assert!(!rules.should_ignore("/repo/node_modules", true));
}

#[test]
fn component_must_match_whole() {
    let rules = IgnoreRules::new(true, true);
    assert!(!rules.should_ignore("/repo/.github/workflows", true));
    assert!(!rules.should_ignore("/repo/my_node_modules/x", false));
    assert!(rules.should_ignore(".git", true));
    assert!(rules.should_ignore("a//.git/", true));
    assert!(rules.should_ignore("./node_modules", true));
}

#[test]
fn gitignore_rules_apply() {
    let mut rules = IgnoreRules::new(false, false);
    let problems = rules.add_gitignore("/repo", "target/\n*.log\n!keep.log\n");
    assert!(problems.is_empty());
    assert_eq!(rules.extra_ignores.len(), 1);
    assert_eq!(rules.extra_ignores[0].root(), "/repo");
    assert!(rules.should_ignore("/repo/target", true));
    assert!(!rules.should_ignore("/repo/target", false));
    assert!(rules.should_ignore("/repo/build/out.log", false));
    assert!(!rules.should_ignore("/repo/keep.log", false));
    assert!(!rules.should_ignore("/repo/src/main.rs", false));
}

#[test]
fn gitignore_byte_order_mark_is_dropped() {
    let mut rules = IgnoreRules::new(false, false);
    rules.add_gitignore("/repo", "\u{feff}secret.txt\n");
    assert_eq!(rules.extra_ignores[0].contents(), "secret.txt\n");
    assert!(rules.should_ignore("/repo/secret.txt", false));
}

#[test]
fn invalid_gitignore_lines_are_reported_and_skipped() {
    let mut rules = IgnoreRules::new(false, false);
    let problems = rules.add_gitignore("/repo", "# comment\n\n[z-a]\n*.tmp\r\n");
    assert_eq!(problems.len(), 1);
    assert!(matches!(problems[0], GitignoreProblem::InvalidLine(3, _)));
    assert!(rules.should_ignore("/repo/a.tmp", false));
    assert!(!rules.should_ignore("/repo/z", false));
}

#[test]
fn later_gitignore_files_add_rules() {
    let mut rules = IgnoreRules::new(true, false);
    rules.add_gitignore("/repo", "*.o\n");
    assert!(!rules.should_ignore("/repo/x.a", false));
    rules.add_gitignore("/repo", "*.a\n");
    assert!(rules.should_ignore("/repo/x.a", false));
    assert!(rules.should_ignore("/repo/x.o", false));
    assert!(rules.should_ignore("/repo/.git", true));
}

#[test]
fn gitignore_file_on_its_own() {
    let (file, problems) = GitignoreFile::new("/w", "build/\n");
    assert!(problems.is_empty());
    assert_eq!(file.root(), "/w");
    assert_eq!(file.contents(), "build/\n");
    assert!(file.ignores("/w/build", true));
    assert!(file.ignores("/w/src/build", true));
    assert!(!file.ignores("/w/build", false));
}

#[test]
fn lines_as_std_reads_them() {
    for text in ["", "a", "a\n", "a\nb", "a\r\nb\r\n", "\n\n", "a\r", "a\r\r\n", "\r\n", "x\ny\n\nz"] {
        let std: Vec<String> = text.lines().map(|l| l.to_string()).collect();
        assert_eq!(lines_of(text), std, "text {:?}", text);
    }
}
