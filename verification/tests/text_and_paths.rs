use filefinder::paths::{extension, file_name, has_component, is_root, parent, relative_to, strip_prefix};
use filefinder::text::{
    decimal_chars, padded_decimal_chars, parse_usize, split_whitespace_chars, trim_chars, IntErrorKind,
};
use std::path::Path;

fn chars(s: &str) -> Vec<char> {
    s.chars().collect()
}

fn text(v: Vec<char>) -> String {
    v.into_iter().collect()
}

const PATHS: [&str; 24] = [
    "", "/", "//", ".", "..", "a", "a/", "a/b", "a/b/", "/a/b/c.rs", "a/.", "a/./", "./a", "a/..",
    "a/../", ".bashrc", "dir/.bashrc", "a.tar.gz", "a.", "..a", ".a.b", "x/y.z/w", "/tmp//f.txt", "a/b/.",
];

#[test]
fn file_names_as_std_reads_them() {
    for p in PATHS {
        let ours = file_name(&chars(p)).map(text);
        let std = Path::new(p).file_name().map(|s| s.to_str().unwrap().to_string());
        assert_eq!(ours, std, "path {:?}", p);
    }
}

#[test]
fn extensions_as_std_reads_them() {
    for p in PATHS {
        let ours = extension(&chars(p)).map(text);
        let std = Path::new(p).extension().map(|s| s.to_str().unwrap().to_string());
        assert_eq!(ours, std, "path {:?}", p);
    }
}

#[test]
fn parents_as_std_reads_them() {
    let more = ["./", "./.", "/.", "//a", "x//y/z", "a/./b", "./a", "/a", "a/b/.", "../x", "a/..", ".a/b", "src/keep.rs", "keep.rs"];
    for p in PATHS.iter().chain(more.iter()) {
        let ours = parent(&chars(p)).map(text);
        let std = Path::new(p).parent().map(|s| s.to_str().unwrap().to_string());
        assert_eq!(ours, std, "path {:?}", p);
    }
}

#[test]
fn components() {
    assert!(has_component(&chars("/repo/.git/config"), &chars(".git")));
    assert!(has_component(&chars(".git"), &chars(".git")));
    assert!(!has_component(&chars("/repo/.github"), &chars(".git")));
    assert!(!has_component(&chars("/repo/./x"), &chars(".")));
    assert!(!has_component(&chars("/a/../b"), &chars("..")));
    assert!(!has_component(&chars("/a//b"), &chars("")));
}

#[test]
fn root_paths() {
    assert!(is_root(&chars("/")));
    assert!(is_root(&chars("//")));
    assert!(is_root(&chars("/./")));
    assert!(!is_root(&chars("/a")));
    assert!(!is_root(&chars("")));
    assert!(!is_root(&chars(".")));
    for p in ["/", "//", "/./", "/a", "."] {
        assert_eq!(is_root(&chars(p)), Path::new(p) == Path::new("/"), "path {:?}", p);
    }
}

#[test]
fn trimming_as_std() {
    for s in ["", "  ", " a ", "\t\na b\r\n", "\u{a0}x\u{3000}", "\u{85}y\u{2028}", "z\u{200b}"] {
        assert_eq!(text(trim_chars(&chars(s))), s.trim(), "text {:?}", s);
    }
}

#[test]
fn words_as_std() {
    for s in ["", "  ", "a", " a  b\tc\n", "\u{2003}x\u{2003}y"] {
        let ours: Vec<String> = split_whitespace_chars(&chars(s)).into_iter().map(text).collect();
        let std: Vec<String> = s.split_whitespace().map(|w| w.to_string()).collect();
        assert_eq!(ours, std, "text {:?}", s);
    }
}

#[test]
fn decimals() {
    assert_eq!(text(decimal_chars(0)), "0");
    assert_eq!(text(decimal_chars(u64::MAX)), u64::MAX.to_string());
    assert_eq!(text(padded_decimal_chars(7, 2)), "07");
    assert_eq!(text(padded_decimal_chars(1970, 4)), "1970");
    assert_eq!(text(padded_decimal_chars(12345, 4)), "12345");
}

#[test]
fn usize_as_std() {
    for s in ["0", "42", "+5", "007", "", "+", "-", "-5", "12a", "1 ", " 1", "18446744073709551615",
              "18446744073709551616", "99999999999999999999x", "٣"] {
        let std = s.parse::<usize>().map_err(|e| match e.kind() {
            std::num::IntErrorKind::Empty => IntErrorKind::Empty,
            std::num::IntErrorKind::InvalidDigit => IntErrorKind::InvalidDigit,
            std::num::IntErrorKind::PosOverflow => IntErrorKind::PosOverflow,
            other => panic!("unexpected {:?}", other),
        });
        assert_eq!(parse_usize(&chars(s)), std, "text {:?}", s);
    }
}

#[test]
fn strip_prefix_as_std_reads_it() {
    let paths = [
        "", "/", ".", "./", "a", "a/", "/tmp/root", "/tmp/root/", "/tmp/root/src/a.rs", "/tmp//root/./src/",
        "/tmp/rootx/a", "./a/b", "a/b/c", "a/./b/../c/", "/tmp/root/.", "tmp/root/x", "//tmp/root/x/y//",
        "./", "../a/b", "a/b", "x/./",
    ];
    let bases = [
        "", "/", ".", "./", "/tmp", "/tmp/", "/tmp/root", "/tmp/root/", "/tmp/./root", "tmp", "a", "a/b",
        "./a", "a/./", "..", "/tmp/root/src/a.rs", "x",
    ];
    for p in paths {
        for b in bases {
            let ours = strip_prefix(&chars(p), &chars(b)).map(text);
            let std = Path::new(p).strip_prefix(b).ok().map(|r| r.to_str().unwrap().to_string());
            assert_eq!(ours, std, "path {:?} base {:?}", p, b);
            let rel = text(relative_to(&chars(p), &chars(b)));
            let expected = if Path::new(p).starts_with(b) {
                Path::new(p).strip_prefix(b).unwrap().to_str().unwrap().to_string()
            } else {
                p.to_string()
            };
            assert_eq!(rel, expected, "path {:?} base {:?}", p, b);
        }
    }
}
