use filefinder::config::{parse_size, Args, SearchConfig, SizeError, SizeRange};

fn range(min: Option<u64>, max: Option<u64>) -> SizeRange {
    SizeRange { min, max }
}

fn size_of(s: &str) -> Result<u64, SizeError> {
    let v: Vec<char> = s.chars().collect();
    parse_size(&v)
}

#[test]
fn readme_ranges() {
    assert_eq!(SizeRange::parse("10K..100M"), Ok(range(Some(10 * 1024), Some(100 * 1024 * 1024))));
    assert_eq!(SizeRange::parse("1G.."), Ok(range(Some(1024 * 1024 * 1024), None)));
    assert_eq!(SizeRange::parse("..1M"), Ok(range(None, Some(1024 * 1024))));
    assert_eq!(SizeRange::parse("1M.."), Ok(range(Some(1024 * 1024), None)));
    assert_eq!(SizeRange::parse("..1G"), Ok(range(None, Some(1024 * 1024 * 1024))));
}

#[test]
fn single_size_is_exact() {
    let r = SizeRange::parse("5K").unwrap();
    assert_eq!(r, range(Some(5120), Some(5120)));
    assert!(r.contains(5120));
    assert!(!r.contains(5119));
    assert!(!r.contains(5121));
}

#[test]
fn units_in_either_case() {
    assert_eq!(size_of("7"), Ok(7));
    assert_eq!(size_of("7B"), Ok(7));
    assert_eq!(size_of("7b"), Ok(7));
    assert_eq!(size_of("10k"), Ok(10240));
    assert_eq!(size_of("10KB"), Ok(10240));
    assert_eq!(size_of("10kb"), Ok(10240));
    assert_eq!(size_of("2MB"), Ok(2 * 1048576));
    assert_eq!(size_of("3g"), Ok(3 * 1073741824));
    assert_eq!(size_of("1TB"), Ok(1099511627776));
    assert_eq!(size_of("1t"), Ok(1099511627776));
}

#[test]
fn fractions_round_down() {
    assert_eq!(size_of("1.5K"), Ok(1536));
    assert_eq!(size_of(".5K"), Ok(512));
    assert_eq!(size_of("0.001K"), Ok(1));
    assert_eq!(size_of("0.0009K"), Ok(0));
    assert_eq!(size_of("2.75M"), Ok(2883584));
    assert_eq!(size_of("5."), Ok(5));
    assert_eq!(size_of("+3K"), Ok(3072));
}

#[test]
fn negative_sizes_are_zero() {
    assert_eq!(size_of("-5"), Ok(0));
    assert_eq!(size_of("-1.5K"), Ok(0));
}

#[test]
fn huge_sizes_saturate() {
    assert_eq!(size_of("99999999999999999999T"), Ok(u64::MAX));
    assert_eq!(size_of("16777216T"), Ok(u64::MAX));
    assert_eq!(size_of("16777215T"), Ok(16777215 * 1099511627776));
    assert_eq!(size_of("18446744073709551615"), Ok(u64::MAX));
}

#[test]
fn size_errors() {
    assert_eq!(size_of("abc"), Err(SizeError::InvalidNumber));
    assert_eq!(size_of("K"), Err(SizeError::InvalidNumber));
    assert_eq!(size_of("."), Err(SizeError::InvalidNumber));
    assert_eq!(size_of("1.2.3"), Err(SizeError::InvalidNumber));
    assert_eq!(size_of("10X"), Err(SizeError::UnknownUnit));
    assert_eq!(size_of("10KBB"), Err(SizeError::UnknownUnit));
    assert_eq!(size_of("10BK"), Err(SizeError::UnknownUnit));
    assert_eq!(SizeRange::parse("10Q..1M"), Err(SizeError::UnknownUnit));
    assert_eq!(SizeRange::parse("1K..x"), Err(SizeError::InvalidNumber));
}

#[test]
fn surrounding_space_is_ignored() {
    assert_eq!(SizeRange::parse("  10K .. 100M \n"), SizeRange::parse("10K..100M"));
    assert_eq!(size_of(" 4K "), Ok(4096));
}

#[test]
fn empty_range_holds_everything() {
    let r = SizeRange::parse("").unwrap();
    assert_eq!(r, range(None, None));
    assert!(r.contains(0));
    assert!(r.contains(u64::MAX));
    assert_eq!(SizeRange::parse(".."), Ok(range(None, None)));
}

#[test]
fn contains_is_inclusive() {
    let r = range(Some(10), Some(20));
    assert!(r.contains(10));
    assert!(r.contains(15));
    assert!(r.contains(20));
    assert!(!r.contains(9));
    assert!(!r.contains(21));
    assert!(range(Some(10), None).contains(u64::MAX));
    assert!(!range(None, Some(10)).contains(11));
}

fn args() -> Args {
    Args {
        path: None,
        name: None,
        ext: None,
        size: None,
        regex: false,
        ignore_git: false,
        ignore_node: false,
        max_depth: None,
        interactive: false,
    }
}

#[test]
fn config_defaults_to_current_directory() {
    let c = SearchConfig::from(args());
    assert_eq!(c.path, ".");
    assert_eq!(c.pattern, None);
    assert_eq!(c.size_range, None);
    assert!(!c.use_regex);
}

#[test]
fn config_keeps_arguments() {
    let mut a = args();
    a.path = Some("/tmp".to_string());
    a.name = Some("*.rs".to_string());
    a.ext = Some("rs".to_string());
    a.size = Some("1K..".to_string());
    a.regex = true;
    a.ignore_git = true;
    a.max_depth = Some(3);
    a.interactive = true;
    let c = SearchConfig::from(a);
    assert_eq!(c.path, "/tmp");
    assert_eq!(c.pattern.as_deref(), Some("*.rs"));
    assert_eq!(c.ext.as_deref(), Some("rs"));
    assert_eq!(c.size_range, Some(range(Some(1024), None)));
    assert!(c.use_regex && c.ignore_git && !c.ignore_node && c.interactive);
    assert_eq!(c.max_depth, Some(3));
}

#[test]
fn config_drops_unreadable_size() {
    let mut a = args();
    a.size = Some("lots".to_string());
    assert_eq!(SearchConfig::from(a).size_range, None);
}

#[test]
fn exponents_as_a_float_reads_them() {
    assert_eq!(size_of("1e3"), Ok(1000));
    assert_eq!(size_of("1E3"), Ok(1000));
    assert_eq!(size_of("2.5e2"), Ok(250));
    assert_eq!(size_of("1.5e3K"), Ok(1536000));
    assert_eq!(size_of("2e-1K"), Ok(204));
    assert_eq!(size_of("5e+2B"), Ok(500));
    assert_eq!(size_of("1e-2"), Ok(0));
    assert_eq!(size_of("-1e3"), Ok(0));
    assert_eq!(size_of("1e19"), Ok(10_000_000_000_000_000_000));
    assert_eq!(size_of("1e20"), Ok(u64::MAX));
    assert_eq!(size_of("1e400"), Ok(u64::MAX));
    assert_eq!(size_of("1e-400"), Ok(0));
    assert_eq!(size_of("0e99999999999999999999999999999999999999"), Ok(0));
    assert_eq!(size_of("3e99999999999999999999999999999999999999"), Ok(u64::MAX));
    assert_eq!(size_of("3e-99999999999999999999999999999999999999"), Ok(0));
    assert_eq!(size_of("123456e-3K"), Ok(126418));
    assert_eq!(size_of("0.000001e6M"), Ok(1048576));
    for (text, unit) in [("1e3", 1u64), ("2.5e2", 1), ("7e1", 1024), ("4e-1", 1024), ("12e4", 1048576)] {
        let value: f64 = text.parse().unwrap();
        let with_unit = match unit {
            1 => text.to_string(),
            1024 => format!("{}K", text),
            _ => format!("{}M", text),
        };
        assert_eq!(size_of(&with_unit), Ok((value * unit as f64) as u64), "size {:?}", with_unit);
    }
}

#[test]
fn size_words_as_a_float_reads_them() {
    assert_eq!(size_of("inf"), Ok(u64::MAX));
    assert_eq!(size_of("Infinity"), Ok(u64::MAX));
    assert_eq!(size_of("+INF"), Ok(u64::MAX));
    assert_eq!(size_of("infB"), Ok(u64::MAX));
    assert_eq!(size_of("-inf"), Ok(0));
    assert_eq!(size_of("nan"), Ok(0));
    assert_eq!(size_of("NaNb"), Ok(0));
    assert_eq!(size_of("infK"), Err(SizeError::InvalidNumber));
    assert_eq!(size_of("infi"), Err(SizeError::InvalidNumber));
    assert_eq!(SizeRange::parse("1M..inf"), Ok(range(Some(1048576), Some(u64::MAX))));
}

#[test]
fn malformed_exponents() {
    assert_eq!(size_of("e3"), Err(SizeError::InvalidNumber));
    assert_eq!(size_of("1e"), Err(SizeError::UnknownUnit));
    assert_eq!(size_of("1e+"), Err(SizeError::InvalidNumber));
    assert_eq!(size_of("1e3.5"), Err(SizeError::InvalidNumber));
    assert_eq!(size_of("1e3e4"), Err(SizeError::InvalidNumber));
}
