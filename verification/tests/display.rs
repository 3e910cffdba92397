use filefinder::output::{format_size, is_leap_year, timestamp, Output, CYAN, RED, RESET};

// Sizes written through a double with `{:.1}`, the reference for `format_size`.
fn reference_size(size: u64) -> String {
    const KB: u64 = 1024;
    const MB: u64 = KB * 1024;
    const GB: u64 = MB * 1024;
    if size >= GB {
        format!("{:.1}G", size as f64 / GB as f64)
    } else if size >= MB {
        format!("{:.1}M", size as f64 / MB as f64)
    } else if size >= KB {
        format!("{:.1}K", size as f64 / KB as f64)
    } else {
        format!("{}B", size)
    }
}

#[test]
fn format_size_examples() {
    assert_eq!(format_size(0), "0B");
    assert_eq!(format_size(1023), "1023B");
    assert_eq!(format_size(1024), "1.0K");
    assert_eq!(format_size(1536), "1.5K");
    assert_eq!(format_size(10 * 1024 * 1024), "10.0M");
    assert_eq!(format_size(3 * 1024 * 1024 * 1024), "3.0G");
    assert_eq!(format_size(1024 * 1024 - 1), "1024.0K");
}

#[test]
fn format_size_agrees_with_float_formatting() {
    let mut sizes: Vec<u64> = vec![
        1, 999, 1024, 1075, 1076, 1280, 1331, 2304, 3328, 1048575, 1048576, 1153433, 1310720,
        5 * 1048576 / 4, 1073741823, 1073741824, 1181116006, 1342177280, 4294967296,
        (1 << 53) - 1, 1 << 53, (1 << 53) + 1, (1 << 53) + 3, (1 << 54) + 5, u64::MAX - 1, u64::MAX,
    ];
    let mut x: u64 = 12345;
    for _ in 0..2000 {
        x = x.wrapping_mul(6364136223846793005).wrapping_add(1442695040888963407);
        sizes.push(x >> (x % 64));
    }
    for k in 1..4000u64 {
        sizes.push(k * 1024 / 20);
        sizes.push(k * 1048576 / 20);
        sizes.push(k * 1073741824 / 20);
    }
    for s in sizes {
        assert_eq!(format_size(s), reference_size(s), "size {}", s);
    }
}

// Dates counted day by day from 1970, the reference for `timestamp`.
fn reference_timestamp(mtime: u64) -> String {
    let days = mtime / 86400;
    let seconds = mtime % 86400;
    let hours = seconds / 3600;
    let minutes = (seconds % 3600) / 60;
    let mut year = 1970i64;
    let mut remaining = days as i64;
    loop {
        let len = if is_leap_year(year) { 366 } else { 365 };
        if remaining < len {
            break;
        }
        remaining -= len;
        year += 1;
    }
    let months: [i64; 12] = if is_leap_year(year) {
        [31, 29, 31, 30, 31, 30, 31, 31, 30, 31, 30, 31]
    } else {
        [31, 28, 31, 30, 31, 30, 31, 31, 30, 31, 30, 31]
    };
    let mut month = 1;
    for m in months.iter() {
        if remaining < *m {
            break;
        }
        remaining -= *m;
        month += 1;
    }
    format!("{:04}-{:02}-{:02} {:02}:{:02}", year, month, remaining + 1, hours, minutes)
}

#[test]
fn timestamp_examples() {
    assert_eq!(timestamp(0).as_deref(), Some("1970-01-01 00:00"));
    assert_eq!(timestamp(86399).as_deref(), Some("1970-01-01 23:59"));
    assert_eq!(timestamp(951782400).as_deref(), Some("2000-02-29 00:00"));
    assert_eq!(timestamp(1700000000).as_deref(), Some("2023-11-14 22:13"));
    assert_eq!(timestamp(253402300799).as_deref(), Some("9999-12-31 23:59"));
    assert_eq!(timestamp(253402300800).as_deref(), Some("10000-01-01 00:00"));
}

#[test]
fn timestamp_beyond_system_time_is_absent() {
    assert_eq!(timestamp(i64::MAX as u64 + 1), None);
    assert_eq!(timestamp(u64::MAX), None);
}

#[test]
fn timestamp_agrees_with_day_counting() {
    let mut t: u64 = 0;
    while t < 4_200_000_000 {
        assert_eq!(timestamp(t).unwrap(), reference_timestamp(t), "time {}", t);
        t += 7_919_993;
    }
    for t in [68169600u64, 68255999, 946684799, 946684800, 4107542400, 4107628800] {
        assert_eq!(timestamp(t).unwrap(), reference_timestamp(t), "time {}", t);
    }
}

#[test]
fn leap_years() {
    assert!(is_leap_year(2000));
    assert!(is_leap_year(2024));
    assert!(!is_leap_year(1900));
    assert!(!is_leap_year(2023));
    assert!(is_leap_year(-4));
}

#[test]
fn colours_only_on_a_terminal() {
    let on = Output::with_tty(true);
    let off = Output::with_tty(false);
    assert_eq!(on.color(CYAN, "x"), format!("{}x{}", CYAN, RESET));
    assert_eq!(on.color(CYAN, "x"), "\x1b[36mx\x1b[0m");
    assert_eq!(off.color(CYAN, "x"), "x");
}

#[test]
fn entry_lines() {
    let off = Output::with_tty(false);
    assert_eq!(
        off.format_entry(3, Some("main.rs"), Some("src"), 1536, 0),
        "[3] main.rs (src) 1.5K 1970-01-01 00:00"
    );
    assert_eq!(off.format_entry(1, Some("a.txt"), Some("."), 5, 60), "[1] a.txt 5B 1970-01-01 00:01");
    assert_eq!(off.format_entry(2, Some("b"), None, 0, u64::MAX), "[2] b 0B");
    assert_eq!(off.format_entry(12, None, Some(""), 2048, 0), "[12]  () 2.0K 1970-01-01 00:00");
    let on = Output::with_tty(true);
    assert_eq!(
        on.format_entry(1, Some("a"), Some("d"), 1, 0),
        "\x1b[36m[1]\x1b[0m \x1b[32ma\x1b[0m \x1b[2m(d)\x1b[0m \x1b[33m1B\x1b[0m \x1b[2m1970-01-01 00:00\x1b[0m"
    );
}

#[test]
fn prompt_and_error_lines() {
    let off = Output::with_tty(false);
    assert_eq!(off.prompt_text(4), "\nFound 4 file(s). Enter number to open (q to quit):");
    assert_eq!(off.error_text("boom"), "Error: boom");
    let on = Output::with_tty(true);
    assert_eq!(
        on.prompt_text(4),
        format!("\nFound {}4{} file(s). Enter number to open (q to quit):", CYAN, RESET)
    );
    assert_eq!(on.error_text("boom"), format!("{}Error: boom{}", RED, RESET));
}

#[test]
fn colors_only_decorate() {
    let on = Output::with_tty(true);
    let off = Output::with_tty(false);
    for (idx, name, parent, size, mtime) in [
        (1usize, Some("a.txt"), Some("src"), 1536u64, 0u64),
        (7, Some("b"), Some("."), 5, 1700000000),
        (12, None, None, 3 << 30, u64::MAX),
        (3, Some("odd\x1bname"), Some("dir\x1b[1m"), 0, 60),
    ] {
        let mut shown = on.format_entry(idx, name, parent, size, mtime);
        for code in ["\x1b[36m", "\x1b[32m", "\x1b[33m", "\x1b[2m", "\x1b[0m"] {
            shown = shown.replace(code, "");
        }
        assert_eq!(shown, off.format_entry(idx, name, parent, size, mtime));
    }
}
