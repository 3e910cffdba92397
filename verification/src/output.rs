//! How found files are shown: colours when writing to a terminal, sizes
//! such as `1.5K`, and modification times as `YYYY-MM-DD HH:MM` (UTC).

use vstd::prelude::*;
use crate::text::{
    chars_of, decimal, decimal_chars, digit_char, digit_to_char, extend_chars, padded_decimal_chars,
    string_of, zero_pad,
};

verus! {

/// Resets the colour.
pub const RESET: &'static str = "\x1b[0m";

/// Cyan text.
pub const CYAN: &'static str = "\x1b[36m";

/// Green text.
pub const GREEN: &'static str = "\x1b[32m";

/// Yellow text.
pub const YELLOW: &'static str = "\x1b[33m";

/// Dim text.
pub const DIM: &'static str = "\x1b[2m";

/// Red text.
pub const RED: &'static str = "\x1b[31m";

/// Asks `atty::is` whether standard output is a terminal; nothing is
/// claimed of the answer, which depends on how the program was started.
#[verifier::external_body]
fn stdout_is_terminal() -> bool {
    atty::is(atty::Stream::Stdout)
}

/// `text` in the colour `code`, when colours are on.
pub open spec fn color_spec(is_tty: bool, code: Seq<char>, text: Seq<char>) -> Seq<char> {
    if is_tty {
        code + text + RESET@
    } else {
        text
    }
}

/// Two to the power `e`.
pub open spec fn pow2(e: nat) -> nat
    decreases e,
{
    if e == 0 {
        1
    } else {
        2 * pow2((e - 1) as nat)
    }
}

/// 2^53: below it every whole number is exactly a double.
pub open spec fn exact_limit() -> nat {
    0x20_0000_0000_0000
}

/// How many low bits of `n` do not fit in a double's 53-bit mantissa.
pub open spec fn excess(n: nat) -> nat
    decreases n,
{
    if n < exact_limit() {
        0
    } else {
        1 + excess(n / 2)
    }
}

/// Whether `r` out of `p` rounds `q` up, ties going to the even neighbour.
pub open spec fn rounds_up(q: nat, r: nat, p: nat) -> bool {
    2 * r > p || (2 * r == p && q % 2 == 1)
}

/// The double nearest to `n` (ties to even), as `n as f64` gives it.
pub open spec fn f64_value(n: nat) -> nat {
    let p = pow2(excess(n));
    let q = n / p;
    let r = n % p;
    if rounds_up(q, r, p) {
        (q + 1) * p
    } else {
        q * p
    }
}

/// `v / unit` in tenths, rounded to the nearest, ties to even.
pub open spec fn tenths(v: nat, unit: nat) -> nat {
    let q = (10 * v) / unit;
    let r = (10 * v) % unit;
    if rounds_up(q, r, unit) {
        q + 1
    } else {
        q
    }
}

/// `v / unit` with one decimal, as `{:.1}` writes it.
pub open spec fn one_decimal(v: nat, unit: nat) -> Seq<char> {
    let t = tenths(v, unit);
    decimal(t / 10) + seq!['.', digit_char(t % 10)]
}

/// A size in bytes in the largest of B, K, M, G that it reaches.
pub open spec fn format_size_spec(size: u64) -> Seq<char> {
    let v = f64_value(size as nat);
    if size >= 1073741824 {
        one_decimal(v, 1073741824) + seq!['G']
    } else if size >= 1048576 {
        one_decimal(v, 1048576) + seq!['M']
    } else if size >= 1024 {
        one_decimal(v, 1024) + seq!['K']
    } else {
        decimal(size as nat) + seq!['B']
    }
}

/// Whether `year` is a leap year of the Gregorian calendar.
pub open spec fn is_leap(year: int) -> bool {
    (year % 4 == 0 && year % 100 != 0) || year % 400 == 0
}

/// The number of days of `year`.
pub open spec fn days_in_year(year: int) -> nat {
    if is_leap(year) {
        366
    } else {
        365
    }
}

/// The year that lies `days` days after the start of `year`, and the day
/// within it (from 0).
pub open spec fn year_and_day(days: nat, year: int) -> (int, nat)
    decreases days,
{
    if days < days_in_year(year) {
        (year, days)
    } else {
        year_and_day((days - days_in_year(year)) as nat, year + 1)
    }
}

/// The lengths of the months of a year.
pub open spec fn month_lengths(leap: bool) -> Seq<nat> {
    seq![31, if leap { 29 } else { 28 }, 31, 30, 31, 30, 31, 31, 30, 31, 30, 31]
}

/// The month (from 0) in which day `day` of the year lies, and the day
/// within it (from 0).
pub open spec fn month_and_day(day: nat, lengths: Seq<nat>) -> (nat, nat)
    decreases lengths.len(),
{
    if lengths.len() == 0 || day < lengths[0] {
        (0, day)
    } else {
        let (m, d) = month_and_day((day - lengths[0]) as nat, lengths.drop_first());
        (m + 1, d)
    }
}

/// A time `mtime` seconds after 1970-01-01 00:00 UTC as `YYYY-MM-DD HH:MM`,
/// when the system can hold it.
pub open spec fn timestamp_spec(mtime: u64) -> Option<Seq<char>> {
    if mtime > i64::MAX {
        None
    } else {
        let days = mtime / 86400;
        let secs = mtime % 86400;
        let (year, day) = year_and_day(days as nat, 1970);
        let (month, mday) = month_and_day(day, month_lengths(is_leap(year)));
        Some(
            zero_pad(decimal(year as nat), 4) + seq!['-'] + zero_pad(decimal(month + 1), 2) + seq![
                '-',
            ] + zero_pad(decimal(mday + 1), 2) + seq![' '] + zero_pad(decimal((secs / 3600) as nat), 2)
                + seq![':'] + zero_pad(decimal(((secs % 3600) / 60) as nat), 2),
        )
    }
}

/// The number of a found file, such as `[3] `.
pub open spec fn number_part(is_tty: bool, idx: usize) -> Seq<char> {
    color_spec(is_tty, CYAN@, seq!['['] + decimal(idx as nat) + seq![']']) + seq![' ']
}

/// The name of a found file.
pub open spec fn name_part(is_tty: bool, name: Option<Seq<char>>) -> Seq<char> {
    match name {
        Some(n) => color_spec(is_tty, GREEN@, n),
        None => Seq::empty(),
    }
}

/// The directory of a found file, such as ` (src)`; nothing for `.`.
pub open spec fn parent_part(is_tty: bool, parent: Option<Seq<char>>) -> Seq<char> {
    match parent {
        Some(p) => if p == seq!['.'] {
            Seq::empty()
        } else {
            seq![' '] + color_spec(is_tty, DIM@, seq!['('] + p + seq![')'])
        },
        None => Seq::empty(),
    }
}

/// The size of a found file, such as ` 1.5K`.
pub open spec fn size_part(is_tty: bool, size: u64) -> Seq<char> {
    seq![' '] + color_spec(is_tty, YELLOW@, format_size_spec(size))
}

/// The modification time of a found file, such as ` 2024-05-01 12:30`.
pub open spec fn time_part(is_tty: bool, mtime: u64) -> Seq<char> {
    match timestamp_spec(mtime) {
        Some(t) => seq![' '] + color_spec(is_tty, DIM@, t),
        None => Seq::empty(),
    }
}

/// The line that shows a found file: its number, its name, its directory
/// (unless it is `.`), its size and its modification time.
pub open spec fn entry_line(
    is_tty: bool,
    idx: usize,
    name: Option<Seq<char>>,
    parent: Option<Seq<char>>,
    size: u64,
    mtime: u64,
) -> Seq<char> {
    number_part(is_tty, idx) + name_part(is_tty, name) + parent_part(is_tty, parent) + size_part(
        is_tty,
        size,
    ) + time_part(is_tty, mtime)
}

/// Writes found files, in colour when standard output is a terminal.
#[derive(Debug, Clone, Copy)]
pub struct Output {
    is_tty: bool,
}

impl Output {
    /// Whether colours are on.
    pub closed spec fn spec_is_tty(self) -> bool {
        self.is_tty
    }

    /// Colours are on when standard output is a terminal.
    pub fn new() -> (r: Output) {
        Output::with_tty(stdout_is_terminal())
    }

    /// Colours are on exactly when `is_tty`.
    pub fn with_tty(is_tty: bool) -> (r: Output)
        ensures
            r.spec_is_tty() == is_tty,
    {
        Output { is_tty }
    }

    /// `text` in the colour `code`, when colours are on.
    pub fn color(&self, code: &str, text: &str) -> (r: String)
        ensures
            r@ == color_spec(self.spec_is_tty(), code@, text@),
    {
        string_of(&self.color_chars(code, &chars_of(text)))
    }

    fn color_chars(&self, code: &str, text: &Vec<char>) -> (r: Vec<char>)
        ensures
            r@ == color_spec(self.spec_is_tty(), code@, text@),
    {
        if self.is_tty {
            let mut r = chars_of(code);
            extend_chars(&mut r, text);
            extend_chars(&mut r, &chars_of(RESET));
            r
        } else {
            crate::text::slice_chars(text, 0, text.len())
        }
    }

    /// The line that shows a found file: its number, its name, its
    /// directory (unless it is `.`), its size and its modification time.
    pub fn format_entry(
        &self,
        idx: usize,
        name: Option<&str>,
        parent: Option<&str>,
        size: u64,
        mtime: u64,
    ) -> (r: String)
        ensures
            r@ == entry_line(
                self.spec_is_tty(),
                idx,
                match name {
                    Some(n) => Some(n@),
                    None => None,
                },
                match parent {
                    Some(p) => Some(p@),
                    None => None,
                },
                size,
                mtime,
            ),
    {
        let mut line = self.number_chars(idx);
        let opt_name = match name {
            Some(n) => Some(chars_of(n)),
            None => None,
        };
        extend_chars(&mut line, &self.name_chars(&opt_name));
        let opt_parent = match parent {
            Some(p) => Some(chars_of(p)),
            None => None,
        };
        extend_chars(&mut line, &self.parent_chars(&opt_parent));
        extend_chars(&mut line, &self.size_chars(size));
        extend_chars(&mut line, &self.time_chars(mtime));
        string_of(&line)
    }

    fn number_chars(&self, idx: usize) -> (r: Vec<char>)
        ensures
            r@ == number_part(self.spec_is_tty(), idx),
    {
        let mut num: Vec<char> = Vec::new();
        num.push('[');
        extend_chars(&mut num, &decimal_chars(idx as u64));
        num.push(']');
        assert(num@ == seq!['['] + decimal(idx as nat) + seq![']']);
        let mut r = self.color_chars(CYAN, &num);
        r.push(' ');
        r
    }

    fn name_chars(&self, name: &Option<Vec<char>>) -> (r: Vec<char>)
        ensures
            r@ == name_part(
                self.spec_is_tty(),
                match name {
                    Some(n) => Some(n@),
                    None => None,
                },
            ),
    {
        match name {
            Some(n) => self.color_chars(GREEN, n),
            None => Vec::new(),
        }
    }

    fn parent_chars(&self, parent: &Option<Vec<char>>) -> (r: Vec<char>)
        ensures
            r@ == parent_part(
                self.spec_is_tty(),
                match parent {
                    Some(p) => Some(p@),
                    None => None,
                },
            ),
    {
        match parent {
            Some(pv) => {
                if pv.len() == 1 && pv[0] == '.' {
                    assert(pv@ == seq!['.']);
                    Vec::new()
                } else {
                    assert(pv@ != seq!['.']);
                    let mut inner: Vec<char> = Vec::new();
                    inner.push('(');
                    extend_chars(&mut inner, pv);
                    inner.push(')');
                    assert(inner@ == seq!['('] + pv@ + seq![')']);
                    let mut r: Vec<char> = Vec::new();
                    r.push(' ');
                    extend_chars(&mut r, &self.color_chars(DIM, &inner));
                    r
                }
            },
            None => Vec::new(),
        }
    }

    fn size_chars(&self, size: u64) -> (r: Vec<char>)
        ensures
            r@ == size_part(self.spec_is_tty(), size),
    {
        let mut r: Vec<char> = Vec::new();
        r.push(' ');
        extend_chars(&mut r, &self.color_chars(YELLOW, &format_size_chars(size)));
        r
    }

    fn time_chars(&self, mtime: u64) -> (r: Vec<char>)
        ensures
            r@ == time_part(self.spec_is_tty(), mtime),
    {
        match timestamp_chars(mtime) {
            Some(t) => {
                let mut r: Vec<char> = Vec::new();
                r.push(' ');
                extend_chars(&mut r, &self.color_chars(DIM, &t));
                r
            },
            None => Vec::new(),
        }
    }

    /// The question asked before a file is chosen.
    pub fn prompt_text(&self, count: usize) -> (r: String)
        ensures
            r@ == "\nFound "@ + color_spec(self.spec_is_tty(), CYAN@, decimal(count as nat))
                + " file(s). Enter number to open (q to quit):"@,
    {
        let mut line = chars_of("\nFound ");
        extend_chars(&mut line, &self.color_chars(CYAN, &decimal_chars(count as u64)));
        extend_chars(&mut line, &chars_of(" file(s). Enter number to open (q to quit):"));
        string_of(&line)
    }

    /// The line that reports an error.
    pub fn error_text(&self, msg: &str) -> (r: String)
        ensures
            r@ == color_spec(self.spec_is_tty(), RED@, "Error: "@ + msg@),
    {
        let mut text = chars_of("Error: ");
        extend_chars(&mut text, &chars_of(msg));
        string_of(&self.color_chars(RED, &text))
    }
}

/// Whether `year` is a leap year of the Gregorian calendar.
pub fn is_leap_year(year: i64) -> (r: bool)
    ensures
        r == is_leap(year as int),
{
    (year % 4 == 0 && year % 100 != 0) || (year % 400 == 0)
}

/// A size in bytes in the largest of B, K, M, G that it reaches, with one
/// decimal for K, M and G.
pub fn format_size(size: u64) -> (r: String)
    ensures
        r@ == format_size_spec(size),
{
    string_of(&format_size_chars(size))
}

proof fn lemma_pow2_pos(e: nat)
    ensures
        pow2(e) >= 1,
    decreases e,
{
    if e > 0 {
        lemma_pow2_pos((e - 1) as nat);
    }
}

/// The double nearest to `n`, as `n as f64` gives it.
fn f64_round(n: u64) -> (r: u128)
    ensures
        r == f64_value(n as nat),
        r <= 0x2_0000_0000_0000_0000u128,
{
    let mut m: u64 = n;
    let mut p: u128 = 1;
    let ghost mut e: nat = 0;
    while m >= 0x20_0000_0000_0000
        invariant
            m == n as nat / p as nat,
            p == pow2(e),
            excess(n as nat) == e + excess(m as nat),
            1 <= p <= 0x1_0000_0000_0000_0000u128,
            m as nat * p as nat <= n as nat,
        decreases m,
    {
        proof {
            vstd::arithmetic::div_mod::lemma_div_denominator(n as int, p as int, 2);
            lemma_pow2_pos(e);
        }
        assert(p * 2 <= 0x1_0000_0000_0000_0000u128) by (nonlinear_arith)
            requires
                m as nat * p as nat <= n as nat,
                m >= 0x20_0000_0000_0000,
                n <= u64::MAX,
        ;
        assert((m / 2) as nat * (p * 2) as nat <= n as nat) by (nonlinear_arith)
            requires
                m as nat * p as nat <= n as nat,
        ;
        m = m / 2;
        p = p * 2;
        proof {
            e = e + 1;
        }
    }
    assert(excess(m as nat) == 0);
    let q = m as u128;
    let r = n as u128 % p;
    if 2 * r > p || (2 * r == p && q % 2 == 1) {
        assert((q + 1) * p <= 0x2_0000_0000_0000_0000u128) by (nonlinear_arith)
            requires
                q * p <= n as nat,
                p <= 0x1_0000_0000_0000_0000u128,
                n <= u64::MAX,
        ;
        (q + 1) * p
    } else {
        assert(q * p <= n) by (nonlinear_arith)
            requires
                q * p <= n as nat,
        ;
        q * p
    }
}

/// `v / unit` with one decimal, as `{:.1}` writes it.
fn one_decimal_chars(v: u128, unit: u128) -> (r: Vec<char>)
    requires
        1024 <= unit <= 1073741824,
        v <= 0x2_0000_0000_0000_0000u128,
    ensures
        r@ == one_decimal(v as nat, unit as nat),
{
    let q = (10 * v) / unit;
    let rem = (10 * v) % unit;
    let t: u128 = if 2 * rem > unit || (2 * rem == unit && q % 2 == 1) {
        q + 1
    } else {
        q
    };
    assert(q <= 10 * v / 1024) by {
        vstd::arithmetic::div_mod::lemma_div_is_ordered_by_denominator(
            (10 * v) as int,
            1024,
            unit as int,
        );
    }
    assert(10 * v / 1024 <= 0x14_0000_0000_0000_0000u128 / 1024);
    let whole = (t / 10) as u64;
    let mut r = decimal_chars(whole);
    r.push('.');
    r.push(digit_to_char((t % 10) as u64));
    r
}

/// A size in bytes in the largest of B, K, M, G that it reaches.
fn format_size_chars(size: u64) -> (r: Vec<char>)
    ensures
        r@ == format_size_spec(size),
{
    if size >= 1073741824 {
        let mut r = one_decimal_chars(f64_round(size), 1073741824);
        r.push('G');
        r
    } else {
        proof {
            assert(excess(size as nat) == 0);
            assert(pow2(0) == 1);
            assert(f64_value(size as nat) == size);
        }
        if size >= 1048576 {
            let mut r = one_decimal_chars(size as u128, 1048576);
            r.push('M');
            r
        } else if size >= 1024 {
            let mut r = one_decimal_chars(size as u128, 1024);
            r.push('K');
            r
        } else {
            let mut r = decimal_chars(size);
            r.push('B');
            r
        }
    }
}

/// The number of days of `year`.
fn year_length(year: i64) -> (r: u64)
    ensures
        r == days_in_year(year as int),
{
    if is_leap_year(year) {
        366
    } else {
        365
    }
}

/// The year that lies `days` days after the start of 1970, and the day
/// within it.
fn year_of(days: u64) -> (r: (i64, u64))
    requires
        days <= i64::MAX / 86400,
    ensures
        year_and_day(days as nat, 1970) == (r.0 as int, r.1 as nat),
        r.0 >= 1970,
        r.1 <= days,
{
    let mut year: i64 = 1970;
    let mut rest: u64 = days;
    while rest >= year_length(year)
        invariant
            year >= 1970,
            rest <= days <= i64::MAX / 86400,
            365 * (year - 1970) <= days - rest,
            year_and_day(days as nat, 1970) == year_and_day(rest as nat, year as int),
        decreases rest,
    {
        rest = rest - year_length(year);
        year = year + 1;
    }
    (year, rest)
}

/// The month in which day `day` of a year lies, and the day within it.
fn month_of(day: u64, leap: bool) -> (r: (u64, u64))
    ensures
        month_and_day(day as nat, month_lengths(leap)) == (r.0 as nat, r.1 as nat),
        r.0 <= 12,
        r.1 <= day,
{
    let feb: u64 = if leap {
        29
    } else {
        28
    };
    let lengths: Vec<u64> = vec![31, feb, 31, 30, 31, 30, 31, 31, 30, 31, 30, 31];
    assert(lengths@.map_values(|x: u64| x as nat) == month_lengths(leap));
    let ghost all = month_lengths(leap);
    assert(all.skip(0) == all);
    let mut i: usize = 0;
    let mut rest: u64 = day;
    while i < 12 && rest >= lengths[i]
        invariant
            i <= 12,
            lengths@.len() == 12,
            all == lengths@.map_values(|x: u64| x as nat),
            rest <= day,
            month_and_day(day as nat, all) == ({
                let (m, d) = month_and_day(rest as nat, all.skip(i as int));
                ((m + i) as nat, d)
            }),
        decreases 12 - i,
    {
        assert(all.skip(i as int)[0] == lengths@[i as int]);
        assert(all.skip(i as int).drop_first() == all.skip(i + 1));
        rest = rest - lengths[i];
        i = i + 1;
    }
    if i < 12 {
        assert(all.skip(i as int)[0] == lengths@[i as int]);
    } else {
        assert(all.skip(12).len() == 0);
    }
    (i as u64, rest)
}

/// A time `mtime` seconds after 1970-01-01 00:00 UTC as `YYYY-MM-DD HH:MM`,
/// when the system can hold it.
pub fn timestamp(mtime: u64) -> (r: Option<String>)
    ensures
        match r {
            Some(s) => timestamp_spec(mtime) == Some(s@),
            None => timestamp_spec(mtime) is None,
        },
{
    match timestamp_chars(mtime) {
        Some(t) => Some(string_of(&t)),
        None => None,
    }
}

fn timestamp_chars(mtime: u64) -> (r: Option<Vec<char>>)
    ensures
        match r {
            Some(t) => timestamp_spec(mtime) == Some(t@),
            None => timestamp_spec(mtime) is None,
        },
{
    if mtime > i64::MAX as u64 {
        return None;
    }
    let days = mtime / 86400;
    let secs = mtime % 86400;
    let (year, day) = year_of(days);
    let (month, mday) = month_of(day, is_leap_year(year));
    let mut t = padded_decimal_chars(year as u64, 4);
    t.push('-');
    extend_chars(&mut t, &padded_decimal_chars(month + 1, 2));
    t.push('-');
    extend_chars(&mut t, &padded_decimal_chars(mday + 1, 2));
    t.push(' ');
    extend_chars(&mut t, &padded_decimal_chars(secs / 3600, 2));
    t.push(':');
    extend_chars(&mut t, &padded_decimal_chars((secs % 3600) / 60, 2));
    Some(t)
}

/// The number of days in months of the given lengths.
pub open spec fn total_days(lengths: Seq<nat>) -> nat
    decreases lengths.len(),
{
    if lengths.len() == 0 {
        0
    } else {
        lengths[0] + total_days(lengths.drop_first())
    }
}

/// The year found for a day count is never before the year counted from,
/// and the day left over lies within that year.
proof fn lemma_year_and_day_bounds(days: nat, year: int)
    ensures
        year_and_day(days, year).0 >= year,
        year_and_day(days, year).1 < days_in_year(year_and_day(days, year).0),
    decreases days,
{
    if days >= days_in_year(year) {
        lemma_year_and_day_bounds((days - days_in_year(year)) as nat, year + 1);
    }
}

/// A day within the months' total lies in one of the months, within its
/// length.
proof fn lemma_month_and_day_bounds(day: nat, lengths: Seq<nat>)
    requires
        day < total_days(lengths),
    ensures
        month_and_day(day, lengths).0 < lengths.len(),
        month_and_day(day, lengths).1 < lengths[month_and_day(day, lengths).0 as int],
    decreases lengths.len(),
{
    if day >= lengths[0] {
        let rest = lengths.drop_first();
        lemma_month_and_day_bounds((day - lengths[0]) as nat, rest);
        let m = month_and_day((day - lengths[0]) as nat, rest).0;
        assert(lengths[(m + 1) as int] == rest[m as int]);
    }
}

/// The months of a year add up to the year.
proof fn lemma_months_fill_year(year: int)
    ensures
        total_days(month_lengths(is_leap(year))) == days_in_year(year),
{
    reveal_with_fuel(total_days, 13);
    let l = month_lengths(is_leap(year));
    assert(l.drop_first() =~= seq![l[1], 31, 30, 31, 30, 31, 31, 30, 31, 30, 31]);
}

/// Every modification time is shown as a real calendar date and time: a
/// year from 1970 on, a month from 1 to 12, a day within that month's
/// length, an hour below 24 and a minute below 60.
pub proof fn lemma_timestamp_fields(mtime: u64)
    ensures
        ({
            let secs = mtime % 86400;
            let (year, day) = year_and_day((mtime / 86400) as nat, 1970);
            let (month, mday) = month_and_day(day, month_lengths(is_leap(year)));
            &&& year >= 1970
            &&& month < 12
            &&& mday < month_lengths(is_leap(year))[month as int]
            &&& secs / 3600 < 24
            &&& (secs % 3600) / 60 < 60
        }),
{
    let (year, day) = year_and_day((mtime / 86400) as nat, 1970);
    lemma_year_and_day_bounds((mtime / 86400) as nat, 1970);
    lemma_months_fill_year(year);
    lemma_month_and_day_bounds(day, month_lengths(is_leap(year)));
}

/// The number of days from the start of year `from` to the start of year
/// `to` in the Gregorian calendar.
pub open spec fn days_between(from: int, to: int) -> nat
    decreases to - from,
{
    if to <= from {
        0
    } else {
        days_in_year(from) + days_between(from + 1, to)
    }
}

proof fn lemma_year_and_day_count(days: nat, year: int)
    ensures
        days == days_between(year, year_and_day(days, year).0) + year_and_day(days, year).1,
    decreases days,
{
    if days >= days_in_year(year) {
        let rest = (days - days_in_year(year)) as nat;
        lemma_year_and_day_count(rest, year + 1);
        lemma_year_and_day_bounds(rest, year + 1);
    }
}

proof fn lemma_month_and_day_count(day: nat, lengths: Seq<nat>)
    ensures
        month_and_day(day, lengths).0 <= lengths.len(),
        day == total_days(lengths.take(month_and_day(day, lengths).0 as int)) + month_and_day(
            day,
            lengths,
        ).1,
    decreases lengths.len(),
{
    if lengths.len() == 0 || day < lengths[0] {
        assert(lengths.take(0).len() == 0);
    } else {
        let rest = lengths.drop_first();
        let d0 = (day - lengths[0]) as nat;
        lemma_month_and_day_count(d0, rest);
        let m = month_and_day(d0, rest).0;
        assert(lengths.take(m + 1int).drop_first() == rest.take(m as int));
        assert(lengths.take(m + 1int)[0] == lengths[0]);
    }
}

/// The date and time shown for a modification time count the time from
/// 1970-01-01 00:00 in the Gregorian calendar: the whole years before the
/// year shown, the whole months before the month shown and the days before
/// the day shown make up the days since then, and the hours and minutes
/// shown with the seconds left make up the rest of the day.
pub proof fn lemma_timestamp_counts_time(mtime: u64)
    ensures
        ({
            let secs = mtime % 86400;
            let (year, day) = year_and_day((mtime / 86400) as nat, 1970);
            let lengths = month_lengths(is_leap(year));
            let (month, mday) = month_and_day(day, lengths);
            &&& mtime / 86400 == days_between(1970, year) + total_days(lengths.take(month as int))
                + mday
            &&& secs == 3600 * (secs / 3600) + 60 * ((secs % 3600) / 60) + secs % 60
        }),
{
    let (year, day) = year_and_day((mtime / 86400) as nat, 1970);
    lemma_year_and_day_count((mtime / 86400) as nat, 1970);
    lemma_month_and_day_count(day, month_lengths(is_leap(year)));
}

/// Sizes below 2^53 bytes, all that a file system holds in practice, are
/// shown from their exact value.
pub proof fn lemma_sizes_below_limit_are_exact(size: u64)
    requires
        size < exact_limit(),
    ensures
        f64_value(size as nat) == size,
{
    assert(excess(size as nat) == 0);
    assert(pow2(0) == 1);
}

/// The escape character that begins a colour code.
pub open spec fn is_esc(c: char) -> bool {
    c == '\x1b'
}

/// Whether `s` holds no escape character.
pub open spec fn no_esc(s: Seq<char>) -> bool {
    forall|j: int| 0 <= j < s.len() ==> !is_esc(#[trigger] s[j])
}

/// Whether `s` begins with one of the colour codes that lines are written
/// with: cyan `ESC[36m`, green `ESC[32m`, yellow `ESC[33m`, dim `ESC[2m`
/// or reset `ESC[0m`.
pub open spec fn starts_with_code(s: Seq<char>) -> bool {
    &&& s.len() >= 4
    &&& is_esc(s[0])
    &&& s[1] == '['
    &&& {
        ||| (s[2] == '2' || s[2] == '0') && s[3] == 'm'
        ||| s.len() >= 5 && s[2] == '3' && (s[3] == '6' || s[3] == '2' || s[3] == '3') && s[4]
            == 'm'
    }
}

/// The length of the colour code that `s` begins with.
pub open spec fn code_len(s: Seq<char>) -> nat {
    if s[2] == '3' {
        5
    } else {
        4
    }
}

/// `s` with every colour code removed, read from the left.
pub open spec fn strip_codes(s: Seq<char>) -> Seq<char>
    decreases s.len(),
{
    if s.len() == 0 {
        s
    } else if starts_with_code(s) {
        strip_codes(s.skip(code_len(s) as int))
    } else {
        seq![s[0]] + strip_codes(s.drop_first())
    }
}

/// Whether no colour code begins anywhere in `t`.
pub open spec fn has_no_code(t: Seq<char>) -> bool {
    forall|i: int| 0 <= i < t.len() ==> !starts_with_code(#[trigger] t.skip(i))
}

/// Whether no colour code begins within the first `n` characters of `s`.
pub open spec fn no_code_before(s: Seq<char>, n: nat) -> bool {
    forall|i: int| 0 <= i < n ==> !starts_with_code(#[trigger] s.skip(i))
}

/// A colour code at the start is removed.
proof fn lemma_strip_code(c: Seq<char>, rest: Seq<char>)
    requires
        c == CYAN@ || c == GREEN@ || c == YELLOW@ || c == DIM@ || c == RESET@,
    ensures
        strip_codes(c + rest) == strip_codes(rest),
{
    reveal_strlit("\x1b[0m");
    reveal_strlit("\x1b[36m");
    reveal_strlit("\x1b[32m");
    reveal_strlit("\x1b[33m");
    reveal_strlit("\x1b[2m");
    let s = c + rest;
    assert(s[0] == c[0] && s[1] == c[1] && s[2] == c[2] && s[3] == c[3]);
    if c.len() == 5 {
        assert(s[4] == c[4]);
    }
    assert(starts_with_code(s));
    assert(code_len(s) == c.len());
    assert(s.skip(c.len() as int) == rest);
}

/// Text in which no colour code begins is kept as it is.
proof fn lemma_strip_plain(x: Seq<char>, rest: Seq<char>)
    requires
        no_code_before(x + rest, x.len()),
    ensures
        strip_codes(x + rest) == x + strip_codes(rest),
    decreases x.len(),
{
    if x.len() == 0 {
        assert(x + rest == rest);
    } else {
        let s = x + rest;
        assert(s.skip(0) == s);
        assert(!starts_with_code(s));
        let x0 = x.drop_first();
        assert(s.drop_first() == x0 + rest);
        assert forall|i: int| 0 <= i < x0.len() implies !starts_with_code(
            #[trigger] (x0 + rest).skip(i),
        ) by {
            assert((x0 + rest).skip(i) == s.skip(i + 1));
        }
        lemma_strip_plain(x0, rest);
        assert(seq![x[0]] + (x0 + strip_codes(rest)) == x + strip_codes(rest));
    }
}

/// No colour code begins within text that has no escape character.
proof fn lemma_no_esc_no_code(x: Seq<char>, rest: Seq<char>)
    requires
        no_esc(x),
    ensures
        no_code_before(x + rest, x.len()),
{
    assert forall|i: int| 0 <= i < x.len() implies !starts_with_code(#[trigger] (x + rest).skip(i))
        by {
        assert((x + rest).skip(i)[0] == x[i]);
    }
}

/// No colour code begins within text that holds none, when what follows it
/// begins with an escape character or with `)`: a code could only end in
/// the text that follows, and a code holds neither past its first character.
proof fn lemma_no_code_carries(x: Seq<char>, rest: Seq<char>)
    requires
        has_no_code(x),
        rest.len() > 0,
        is_esc(rest[0]) || rest[0] == ')',
    ensures
        no_code_before(x + rest, x.len()),
{
    let s = x + rest;
    assert forall|i: int| 0 <= i < x.len() implies !starts_with_code(#[trigger] s.skip(i)) by {
        let t = s.skip(i);
        let u = x.skip(i);
        if starts_with_code(t) {
            let j = x.len() - i;
            if j >= code_len(t) {
                assert(u[0] == t[0] && u[1] == t[1] && u[2] == t[2] && u[3] == t[3]);
                if code_len(t) == 5 {
                    assert(u[4] == t[4]);
                }
                assert(starts_with_code(u));
                assert(!starts_with_code(x.skip(i)));
            } else {
                assert(t[j] == rest[0]);
                assert(1 <= j < code_len(t));
            }
        }
    }
}

/// A coloured text shows as the text, when no colour code begins in it.
proof fn lemma_strip_colored(code: Seq<char>, x: Seq<char>, rest: Seq<char>)
    requires
        code == CYAN@ || code == GREEN@ || code == YELLOW@ || code == DIM@,
        has_no_code(x),
    ensures
        strip_codes(color_spec(true, code, x) + rest) == color_spec(false, code, x) + strip_codes(
            rest,
        ),
{
    reveal_strlit("\x1b[0m");
    assert(color_spec(true, code, x) + rest == code + (x + (RESET@ + rest)));
    lemma_strip_code(code, x + (RESET@ + rest));
    assert((RESET@ + rest)[0] == '\x1b');
    lemma_no_code_carries(x, RESET@ + rest);
    lemma_strip_plain(x, RESET@ + rest);
    lemma_strip_code(RESET@, rest);
}

proof fn lemma_has_no_code_of_no_esc(x: Seq<char>)
    requires
        no_esc(x),
    ensures
        has_no_code(x),
{
    assert forall|i: int| 0 <= i < x.len() implies !starts_with_code(#[trigger] x.skip(i)) by {
        assert(x.skip(i)[0] == x[i]);
    }
}

proof fn lemma_no_esc_concat(a: Seq<char>, b: Seq<char>)
    requires
        no_esc(a),
        no_esc(b),
    ensures
        no_esc(a + b),
{
    assert forall|j: int| 0 <= j < (a + b).len() implies !is_esc(#[trigger] (a + b)[j]) by {
        if j < a.len() {
            assert((a + b)[j] == a[j]);
        } else {
            assert((a + b)[j] == b[j - a.len()]);
        }
    }
}

proof fn lemma_no_esc_decimal(n: nat)
    ensures
        no_esc(decimal(n)),
    decreases n,
{
    if n >= 10 {
        lemma_no_esc_decimal(n / 10);
        let d = decimal(n / 10);
        assert forall|j: int| 0 <= j < d.push(digit_char(n % 10)).len() implies !is_esc(
            #[trigger] d.push(digit_char(n % 10))[j],
        ) by {
            if j < d.len() {
                assert(d.push(digit_char(n % 10))[j] == d[j]);
            }
        }
    }
}

proof fn lemma_no_esc_zero_pad(s: Seq<char>, w: nat)
    requires
        no_esc(s),
    ensures
        no_esc(zero_pad(s, w)),
{
    if s.len() < w {
        let z = Seq::new((w - s.len()) as nat, |i: int| '0');
        assert(no_esc(z));
        lemma_no_esc_concat(z, s);
    }
}

proof fn lemma_no_esc_size(size: u64)
    ensures
        no_esc(format_size_spec(size)),
{
    let v = f64_value(size as nat);
    if size >= 1024 {
        let unit: nat = if size >= 1073741824 {
            1073741824
        } else if size >= 1048576 {
            1048576
        } else {
            1024
        };
        let t = tenths(v, unit);
        lemma_no_esc_decimal(t / 10);
        lemma_no_esc_concat(decimal(t / 10), seq!['.', digit_char(t % 10)]);
        let letter = if size >= 1073741824 {
            'G'
        } else if size >= 1048576 {
            'M'
        } else {
            'K'
        };
        lemma_no_esc_concat(one_decimal(v, unit), seq![letter]);
    } else {
        lemma_no_esc_decimal(size as nat);
        lemma_no_esc_concat(decimal(size as nat), seq!['B']);
    }
}

proof fn lemma_no_esc_time(mtime: u64)
    ensures
        timestamp_spec(mtime) matches Some(t) ==> no_esc(t),
{
    if mtime <= i64::MAX {
        let days = mtime / 86400;
        let secs = mtime % 86400;
        let (year, day) = year_and_day(days as nat, 1970);
        let (month, mday) = month_and_day(day, month_lengths(is_leap(year)));
        let a = zero_pad(decimal(year as nat), 4);
        let b = zero_pad(decimal(month + 1), 2);
        let c = zero_pad(decimal(mday + 1), 2);
        let d = zero_pad(decimal((secs / 3600) as nat), 2);
        let e = zero_pad(decimal(((secs % 3600) / 60) as nat), 2);
        lemma_no_esc_decimal(year as nat);
        lemma_no_esc_decimal(month + 1);
        lemma_no_esc_decimal(mday + 1);
        lemma_no_esc_decimal((secs / 3600) as nat);
        lemma_no_esc_decimal(((secs % 3600) / 60) as nat);
        lemma_no_esc_zero_pad(decimal(year as nat), 4);
        lemma_no_esc_zero_pad(decimal(month + 1), 2);
        lemma_no_esc_zero_pad(decimal(mday + 1), 2);
        lemma_no_esc_zero_pad(decimal((secs / 3600) as nat), 2);
        lemma_no_esc_zero_pad(decimal(((secs % 3600) / 60) as nat), 2);
        lemma_no_esc_concat(a, seq!['-']);
        lemma_no_esc_concat(a + seq!['-'], b);
        lemma_no_esc_concat(a + seq!['-'] + b, seq!['-']);
        lemma_no_esc_concat(a + seq!['-'] + b + seq!['-'], c);
        lemma_no_esc_concat(a + seq!['-'] + b + seq!['-'] + c, seq![' ']);
        lemma_no_esc_concat(a + seq!['-'] + b + seq!['-'] + c + seq![' '], d);
        lemma_no_esc_concat(a + seq!['-'] + b + seq!['-'] + c + seq![' '] + d, seq![':']);
        lemma_no_esc_concat(a + seq!['-'] + b + seq!['-'] + c + seq![' '] + d + seq![':'], e);
    }
}

proof fn lemma_strip_number(idx: usize, rest: Seq<char>)
    ensures
        strip_codes(number_part(true, idx) + rest) == number_part(false, idx) + strip_codes(rest),
{
    let num = seq!['['] + decimal(idx as nat) + seq![']'];
    lemma_no_esc_decimal(idx as nat);
    lemma_no_esc_concat(seq!['['], decimal(idx as nat));
    lemma_no_esc_concat(seq!['['] + decimal(idx as nat), seq![']']);
    lemma_has_no_code_of_no_esc(num);
    lemma_strip_colored(CYAN@, num, seq![' '] + rest);
    lemma_no_esc_no_code(seq![' '], rest);
    lemma_strip_plain(seq![' '], rest);
    assert(number_part(true, idx) + rest == color_spec(true, CYAN@, num) + (seq![' '] + rest));
    assert(number_part(false, idx) == num + seq![' ']);
}

proof fn lemma_strip_name(name: Option<Seq<char>>, rest: Seq<char>)
    requires
        name matches Some(n) ==> has_no_code(n),
    ensures
        strip_codes(name_part(true, name) + rest) == name_part(false, name) + strip_codes(rest),
{
    match name {
        Some(n) => {
            lemma_strip_colored(GREEN@, n, rest);
        },
        None => {
            assert(name_part(true, name) + rest == rest);
            assert(name_part(false, name) + strip_codes(rest) == strip_codes(rest));
        },
    }
}

/// A directory without colour codes, in brackets, holds none.
proof fn lemma_bracketed_no_code(p: Seq<char>)
    requires
        has_no_code(p),
    ensures
        has_no_code(seq!['('] + p + seq![')']),
{
    let inner = seq!['('] + p + seq![')'];
    lemma_no_code_carries(p, seq![')']);
    assert forall|i: int| 0 <= i < inner.len() implies !starts_with_code(#[trigger] inner.skip(i))
        by {
        if i == 0 {
            assert(inner.skip(0)[0] == '(');
        } else if i < p.len() + 1 {
            assert(inner.skip(i) == (p + seq![')']).skip(i - 1));
        } else {
            assert(inner.skip(i)[0] == ')');
        }
    }
}

proof fn lemma_strip_parent(parent: Option<Seq<char>>, rest: Seq<char>)
    requires
        parent matches Some(p) ==> has_no_code(p),
    ensures
        strip_codes(parent_part(true, parent) + rest) == parent_part(false, parent) + strip_codes(
            rest,
        ),
{
    match parent {
        Some(p) => {
            if p == seq!['.'] {
                assert(parent_part(true, parent) + rest == rest);
                assert(parent_part(false, parent) + strip_codes(rest) == strip_codes(rest));
            } else {
                let inner = seq!['('] + p + seq![')'];
                lemma_bracketed_no_code(p);
                lemma_strip_colored(DIM@, inner, rest);
                lemma_no_esc_no_code(seq![' '], color_spec(true, DIM@, inner) + rest);
                lemma_strip_plain(seq![' '], color_spec(true, DIM@, inner) + rest);
                assert(parent_part(true, parent) + rest == seq![' '] + (color_spec(true, DIM@, inner)
                    + rest));
            }
        },
        None => {
            assert(parent_part(true, parent) + rest == rest);
            assert(parent_part(false, parent) + strip_codes(rest) == strip_codes(rest));
        },
    }
}

proof fn lemma_strip_size(size: u64, rest: Seq<char>)
    ensures
        strip_codes(size_part(true, size) + rest) == size_part(false, size) + strip_codes(rest),
{
    let f = format_size_spec(size);
    lemma_no_esc_size(size);
    lemma_has_no_code_of_no_esc(f);
    lemma_strip_colored(YELLOW@, f, rest);
    lemma_no_esc_no_code(seq![' '], color_spec(true, YELLOW@, f) + rest);
    lemma_strip_plain(seq![' '], color_spec(true, YELLOW@, f) + rest);
    assert(size_part(true, size) + rest == seq![' '] + (color_spec(true, YELLOW@, f) + rest));
}

proof fn lemma_strip_time(mtime: u64, rest: Seq<char>)
    ensures
        strip_codes(time_part(true, mtime) + rest) == time_part(false, mtime) + strip_codes(rest),
{
    lemma_no_esc_time(mtime);
    match timestamp_spec(mtime) {
        Some(t) => {
            lemma_has_no_code_of_no_esc(t);
            lemma_strip_colored(DIM@, t, rest);
            lemma_no_esc_no_code(seq![' '], color_spec(true, DIM@, t) + rest);
            lemma_strip_plain(seq![' '], color_spec(true, DIM@, t) + rest);
            assert(time_part(true, mtime) + rest == seq![' '] + (color_spec(true, DIM@, t) + rest));
        },
        None => {
            assert(time_part(true, mtime) + rest == rest);
            assert(time_part(false, mtime) + strip_codes(rest) == strip_codes(rest));
        },
    }
}

/// Stripping a line part by part.
proof fn lemma_strip_chain(
    n_t: Seq<char>,
    n_f: Seq<char>,
    m_t: Seq<char>,
    m_f: Seq<char>,
    p_t: Seq<char>,
    p_f: Seq<char>,
    s_t: Seq<char>,
    s_f: Seq<char>,
    t_t: Seq<char>,
    t_f: Seq<char>,
)
    requires
        strip_codes(t_t) == t_f,
        strip_codes(s_t + t_t) == s_f + strip_codes(t_t),
        strip_codes(p_t + (s_t + t_t)) == p_f + strip_codes(s_t + t_t),
        strip_codes(m_t + (p_t + (s_t + t_t))) == m_f + strip_codes(p_t + (s_t + t_t)),
        strip_codes(n_t + (m_t + (p_t + (s_t + t_t)))) == n_f + strip_codes(
            m_t + (p_t + (s_t + t_t)),
        ),
    ensures
        strip_codes(n_t + m_t + p_t + s_t + t_t) == n_f + m_f + p_f + s_f + t_f,
{
    assert(n_t + m_t + p_t + s_t + t_t == n_t + (m_t + (p_t + (s_t + t_t))));
    assert(n_f + (m_f + (p_f + (s_f + t_f))) == n_f + m_f + p_f + s_f + t_f);
}

/// Removing the colour codes from a coloured line gives the line written
/// without colours, as long as no colour code stands in the file's name or
/// directory: colours only decorate the text.
pub proof fn lemma_colors_only_decorate(
    idx: usize,
    name: Option<Seq<char>>,
    parent: Option<Seq<char>>,
    size: u64,
    mtime: u64,
)
    requires
        name matches Some(n) ==> has_no_code(n),
        parent matches Some(p) ==> has_no_code(p),
    ensures
        strip_codes(entry_line(true, idx, name, parent, size, mtime)) == entry_line(
            false,
            idx,
            name,
            parent,
            size,
            mtime,
        ),
{
    let e = Seq::<char>::empty();
    let t_t = time_part(true, mtime);
    let s_t = size_part(true, size);
    let p_t = parent_part(true, parent);
    let m_t = name_part(true, name);
    lemma_strip_time(mtime, e);
    assert(t_t + e == t_t);
    assert(strip_codes(e) == e);
    assert(time_part(false, mtime) + e == time_part(false, mtime));
    lemma_strip_size(size, t_t);
    lemma_strip_parent(parent, s_t + t_t);
    lemma_strip_name(name, p_t + (s_t + t_t));
    lemma_strip_number(idx, m_t + (p_t + (s_t + t_t)));
    lemma_strip_chain(
        number_part(true, idx),
        number_part(false, idx),
        m_t,
        name_part(false, name),
        p_t,
        parent_part(false, parent),
        s_t,
        size_part(false, size),
        t_t,
        time_part(false, mtime),
    );
}

} // verus!
