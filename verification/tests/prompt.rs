use filefinder::commands::{
    command_line, handle_builtin_command, parse_search_args, search_args, shell_split, tokenize, ArgsError,
    BuiltinCommand,
};
use filefinder::config::SizeRange;
use filefinder::interactive::{interpret_selection, Selection};
use filefinder::text::IntErrorKind;

fn strings(v: &[&str]) -> Vec<String> {
    v.iter().map(|s| s.to_string()).collect()
}

fn parse(args: &[&str], on_disk: &[bool]) -> Result<filefinder::config::SearchConfig, ArgsError> {
    parse_search_args(&strings(args), &on_disk.to_vec())
}

#[test]
fn builtin_words() {
    assert_eq!(handle_builtin_command("quit"), Some(BuiltinCommand::Quit));
    assert_eq!(handle_builtin_command("exit"), Some(BuiltinCommand::Quit));
    assert_eq!(handle_builtin_command("  q  now"), Some(BuiltinCommand::Quit));
    assert_eq!(handle_builtin_command("help"), Some(BuiltinCommand::Help));
    assert_eq!(handle_builtin_command("h"), Some(BuiltinCommand::Help));
    assert_eq!(handle_builtin_command("?"), Some(BuiltinCommand::Help));
    assert_eq!(handle_builtin_command("Quit"), None);
    assert_eq!(handle_builtin_command("find . -e rs"), None);
    assert_eq!(handle_builtin_command("quitting"), None);
    assert_eq!(handle_builtin_command(""), None);
}

#[test]
fn shell_split_quotes() {
    assert_eq!(shell_split("abc"), strings(&["abc"]));
    assert_eq!(shell_split("'a b'"), strings(&["a b"]));
    assert_eq!(shell_split("\"x\""), strings(&["x"]));
    assert_eq!(shell_split("a'b c'd"), strings(&["ab cd"]));
    assert_eq!(shell_split("'it\"s'"), strings(&["it\"s"]));
    assert_eq!(shell_split("a b  c"), strings(&["a", "b", "c"]));
    assert_eq!(shell_split("''"), Vec::<String>::new());
    assert_eq!(shell_split(""), Vec::<String>::new());
    assert_eq!(shell_split("'open"), strings(&["open"]));
}

#[test]
fn tokenize_splits_on_white_space_first() {
    assert_eq!(
        tokenize("find . -n 'my file'"),
        strings(&["find", ".", "-n", "my", "file"])
    );
    assert_eq!(tokenize("  find\t/tmp  -e \"rs\" "), strings(&["find", "/tmp", "-e", "rs"]));
    assert_eq!(tokenize("''  \"\""), Vec::<String>::new());
}

#[test]
fn arguments_after_find() {
    assert_eq!(search_args(&strings(&["find", ".", "-e", "rs"])), strings(&[".", "-e", "rs"]));
    assert_eq!(search_args(&strings(&["x", "find", "a", "find"])), strings(&["a", "find"]));
    assert_eq!(search_args(&strings(&[".", "-e", "rs"])), strings(&[".", "-e", "rs"]));
    assert_eq!(search_args(&strings(&["find"])), Vec::<String>::new());
}

#[test]
fn search_defaults() {
    let c = parse(&[], &[]).unwrap();
    assert_eq!(c.path, "/");
    assert_eq!(c.pattern, None);
    assert_eq!(c.ext, None);
    assert_eq!(c.size_range, None);
    assert!(!c.use_regex && c.ignore_git && c.ignore_node && !c.interactive);
    assert_eq!(c.max_depth, None);
}

#[test]
fn search_options() {
    let c = parse(
        &[".", "-n", "main", "-e", "rs", "-s", "10K..1M", "-r", "--max-depth", "3", "-i", "--ignore-git", "--ignore-node"],
        &[true, false, false, false, false, false, false, false, false, false, false, false, false],
    )
    .unwrap();
    assert_eq!(c.path, ".");
    assert_eq!(c.pattern.as_deref(), Some("main"));
    assert_eq!(c.ext.as_deref(), Some("rs"));
    assert_eq!(c.size_range, Some(SizeRange { min: Some(10240), max: Some(1048576) }));
    assert!(c.use_regex && c.interactive && c.ignore_git && c.ignore_node);
    assert_eq!(c.max_depth, Some(3));
}

#[test]
fn lone_arguments_become_path_then_name() {
    let c = parse(&["src/lib", "main"], &[false, false]).unwrap();
    assert_eq!(c.path, "src/lib");
    assert_eq!(c.pattern.as_deref(), Some("main"));
    let c = parse(&["main", "/tmp"], &[false, false]).unwrap();
    assert_eq!(c.path, "/tmp");
    assert_eq!(c.pattern.as_deref(), Some("main"));
    let c = parse(&["/a", "/b", "c"], &[false, false, false]).unwrap();
    assert_eq!(c.path, "/a");
    assert_eq!(c.pattern.as_deref(), Some("/b"));
    let c = parse(&["docs"], &[true]).unwrap();
    assert_eq!(c.path, "docs");
    let c = parse(&["docs"], &[false]).unwrap();
    assert_eq!(c.path, "/");
    assert_eq!(c.pattern.as_deref(), Some("docs"));
    let c = parse(&["~/x"], &[false]).unwrap();
    assert_eq!(c.path, "~/x");
    let c = parse(&[".."], &[false]).unwrap();
    assert_eq!(c.path, "..");
    let c = parse(&["//", "x/y"], &[false, false]).unwrap();
    assert_eq!(c.path, "x/y");
}

#[test]
fn unknown_flags_and_missing_values_are_skipped() {
    let c = parse(&["--verbose", "-e"], &[false, false]).unwrap();
    assert_eq!(c.ext, None);
    assert_eq!(c.path, "/");
    let c = parse(&["-e", "rs", "-e", "md"], &[false, false, false, false]).unwrap();
    assert_eq!(c.ext.as_deref(), Some("md"));
    let c = parse(&["-s", "huge"], &[false, false]).unwrap();
    assert_eq!(c.size_range, None);
}

#[test]
fn help_is_an_error() {
    assert_eq!(parse(&["-h"], &[false]).unwrap_err(), ArgsError::HelpRequested);
    assert_eq!(parse(&[".", "--help", "--max-depth", "x"], &[true, false, false, false]).unwrap_err(), ArgsError::HelpRequested);
}

fn std_kind(s: &str) -> IntErrorKind {
    match s.parse::<usize>().unwrap_err().kind() {
        std::num::IntErrorKind::Empty => IntErrorKind::Empty,
        std::num::IntErrorKind::InvalidDigit => IntErrorKind::InvalidDigit,
        std::num::IntErrorKind::PosOverflow => IntErrorKind::PosOverflow,
        other => panic!("unexpected {:?}", other),
    }
}

#[test]
fn bad_max_depth() {
    for bad in ["x", "", "-1", "+", "3.5", "99999999999999999999", "1 "] {
        assert_eq!(
            parse(&["--max-depth", bad], &[false, false]).unwrap_err(),
            ArgsError::InvalidMaxDepth(std_kind(bad)),
            "value {:?}",
            bad
        );
    }
    assert_eq!(parse(&["--max-depth", "+7"], &[false, false]).unwrap().max_depth, Some(7));
    assert_eq!(parse(&["--max-depth"], &[false]).unwrap().max_depth, None);
}

#[test]
fn selections() {
    assert_eq!(interpret_selection("q", 3), Selection::Quit);
    assert_eq!(interpret_selection(" Q \n", 3), Selection::Quit);
    assert_eq!(interpret_selection("1\n", 3), Selection::Open(0));
    assert_eq!(interpret_selection("3", 3), Selection::Open(2));
    assert_eq!(interpret_selection("+2", 3), Selection::Open(1));
    assert_eq!(interpret_selection("4", 3), Selection::Invalid);
    assert_eq!(interpret_selection("0", 3), Selection::Invalid);
    assert_eq!(interpret_selection("abc", 3), Selection::Invalid);
    assert_eq!(interpret_selection("", 3), Selection::Invalid);
    assert_eq!(interpret_selection("quit", 3), Selection::Invalid);
    assert_eq!(interpret_selection("1", 0), Selection::Invalid);
}

#[test]
fn words_before_find_are_dropped() {
    let line = tokenize("show me find . -e rs");
    assert_eq!(search_args(&line), search_args(&tokenize(". -e rs")));
    assert_eq!(search_args(&line), strings(&[".", "-e", "rs"]));
}

#[test]
fn unquoted_text_splits_at_spaces_only() {
    assert_eq!(shell_split("a\tb  c "), strings(&["a\tb", "c"]));
    assert_eq!(shell_split("   "), Vec::<String>::new());
}

#[test]
fn flags_without_values_never_fail() {
    let c = parse(&["-r", "src/x", "--bogus", "-i", "name", "extra"], &[false; 6]).unwrap();
    assert!(c.use_regex && c.interactive);
    assert_eq!(c.ext, None);
    assert_eq!(c.size_range, None);
    assert_eq!(c.max_depth, None);
    let c = parse(&["--regex", "--interactive"], &[false, false]).unwrap();
    assert!(c.use_regex && c.interactive);
    let c = parse(&["x"], &[false]).unwrap();
    assert!(!c.use_regex && !c.interactive);
}

#[test]
fn blank_lines_are_skipped() {
    assert_eq!(command_line(""), None);
    assert_eq!(command_line("  \t\n"), None);
    assert_eq!(command_line("  find . -e rs \n").as_deref(), Some("find . -e rs"));
}
