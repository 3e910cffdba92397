//! Search configuration: size ranges written as `10K..100M`, the command
//! line arguments and the configuration a search runs with.

use vstd::prelude::*;
use crate::text::{
    chars_of, digit_value, is_digit, slice_chars, trim, trim_chars, trim_end, trim_start,
};

verus! {

/// Why a size could not be read.
#[derive(Debug, Clone, Copy, PartialEq, Eq)]
pub enum SizeError {
    /// The part before the unit is not a decimal number.
    InvalidNumber,
    /// The letters after the number are not one of the units.
    UnknownUnit,
}

/// An inclusive range of file sizes in bytes; a missing bound is open.
#[derive(Debug, Clone, Copy, PartialEq, Eq)]
pub struct SizeRange {
    pub min: Option<u64>,
    pub max: Option<u64>,
}

/// Whether `c` is an ASCII letter.
pub open spec fn is_ascii_alpha(c: char) -> bool {
    ('a' <= c <= 'z') || ('A' <= c <= 'Z')
}

/// Where the letters at the end of `s` begin.
pub open spec fn unit_start(s: Seq<char>) -> nat
    decreases s.len(),
{
    if s.len() > 0 && is_ascii_alpha(s.last()) {
        unit_start(s.drop_last())
    } else {
        s.len()
    }
}

/// Whether `c` is the letter `b`, in either case.
pub open spec fn is_byte_letter(c: char) -> bool {
    c == 'b' || c == 'B'
}

/// The factor of a unit letter: K, M, G, T in either case.
pub open spec fn scale_of(c: char) -> Option<u64> {
    if c == 'k' || c == 'K' {
        Some(1024)
    } else if c == 'm' || c == 'M' {
        Some(1048576)
    } else if c == 'g' || c == 'G' {
        Some(1073741824)
    } else if c == 't' || c == 'T' {
        Some(1099511627776)
    } else {
        None
    }
}

/// The factor of a unit: none or `B` is 1; `K`/`KB` 1024, `M`/`MB` 1024^2,
/// `G`/`GB` 1024^3, `T`/`TB` 1024^4, in either case.
pub open spec fn unit_multiplier(u: Seq<char>) -> Option<u64> {
    if u.len() == 0 {
        Some(1)
    } else if u.len() == 1 && is_byte_letter(u[0]) {
        Some(1)
    } else if u.len() == 1 || (u.len() == 2 && is_byte_letter(u[1])) {
        scale_of(u[0])
    } else {
        None
    }
}

/// Whether every character of `s` is a decimal digit.
pub open spec fn all_digits(s: Seq<char>) -> bool {
    forall|i: int| 0 <= i < s.len() ==> is_digit(#[trigger] s[i])
}

/// The value of a string of decimal digits.
pub open spec fn digits_value(s: Seq<char>) -> nat
    decreases s.len(),
{
    if s.len() == 0 {
        0
    } else {
        digits_value(s.drop_last()) * 10 + digit_value(s.last())
    }
}

/// Ten to the power `n`.
pub open spec fn pow10(n: nat) -> nat
    decreases n,
{
    if n == 0 {
        1
    } else {
        10 * pow10((n - 1) as nat)
    }
}

/// The index of the first `c` in `s`, or the length of `s`.
pub open spec fn first_index_of(s: Seq<char>, c: char) -> nat
    decreases s.len(),
{
    if s.len() == 0 {
        0
    } else if s[0] == c {
        0
    } else {
        1 + first_index_of(s.drop_first(), c)
    }
}

/// Whether a number begins with `-`.
pub open spec fn is_negative(s: Seq<char>) -> bool {
    s.len() > 0 && s[0] == '-'
}

/// A number without its sign.
pub open spec fn unsigned_part(s: Seq<char>) -> Seq<char> {
    if s.len() > 0 && (s[0] == '-' || s[0] == '+') {
        s.drop_first()
    } else {
        s
    }
}

/// The digits before the decimal point.
pub open spec fn int_digits(s: Seq<char>) -> Seq<char> {
    let b = unsigned_part(s);
    b.take(first_index_of(b, '.') as int)
}

/// The digits after the decimal point.
pub open spec fn frac_digits(s: Seq<char>) -> Seq<char> {
    let b = unsigned_part(s);
    let d = first_index_of(b, '.');
    if d < b.len() {
        b.skip((d + 1) as int)
    } else {
        Seq::empty()
    }
}

/// Whether `s` is a decimal number: an optional sign, digits, and an
/// optional point followed by digits, with at least one digit.
pub open spec fn is_decimal(s: Seq<char>) -> bool {
    &&& all_digits(int_digits(s))
    &&& all_digits(frac_digits(s))
    &&& int_digits(s).len() + frac_digits(s).len() > 0
}

/// The index of the first `e` or `E` in `s`, or the length of `s`.
pub open spec fn first_exp(s: Seq<char>) -> nat
    decreases s.len(),
{
    if s.len() == 0 {
        0
    } else if s[0] == 'e' || s[0] == 'E' {
        0
    } else {
        1 + first_exp(s.drop_first())
    }
}

/// The part of a number before its exponent.
pub open spec fn mantissa(s: Seq<char>) -> Seq<char> {
    s.take(first_exp(s) as int)
}

/// The exponent of a number, after its `e` or `E`, if it has one.
pub open spec fn exponent_text(s: Seq<char>) -> Option<Seq<char>> {
    if first_exp(s) < s.len() {
        Some(s.skip(first_exp(s) + 1int))
    } else {
        None
    }
}

/// Whether `x` is an exponent: an optional sign, then at least one digit.
pub open spec fn is_exponent(x: Seq<char>) -> bool {
    all_digits(unsigned_part(x)) && unsigned_part(x).len() > 0
}

/// Whether `s` is a number: a decimal number, then optionally `e` or `E`
/// and an exponent.
pub open spec fn is_number(s: Seq<char>) -> bool {
    &&& is_decimal(mantissa(s))
    &&& exponent_text(s) matches Some(x) ==> is_exponent(x)
}

/// The power of ten that the exponent of `s` gives; 0 without one.
pub open spec fn exponent_of(s: Seq<char>) -> int {
    match exponent_text(s) {
        Some(x) => if is_negative(x) {
            -digits_value(unsigned_part(x))
        } else {
            digits_value(unsigned_part(x)) as int
        },
        None => 0,
    }
}

/// All the digits of the mantissa of `s`, those before and after its point.
pub open spec fn mantissa_digits(s: Seq<char>) -> Seq<char> {
    int_digits(mantissa(s)) + frac_digits(mantissa(s))
}

/// The whole number of bytes in `v * 10^d` units of `m` bytes, rounded
/// down.
pub open spec fn shifted_value(v: nat, d: int, m: nat) -> nat {
    if d >= 0 {
        v * m * pow10(d as nat)
    } else {
        (v * m) / pow10((-d) as nat)
    }
}

/// The whole number of bytes in `s` units of `m` bytes, rounded down;
/// negative numbers give 0.
pub open spec fn scaled_value(s: Seq<char>, m: nat) -> nat {
    if is_negative(mantissa(s)) {
        0
    } else {
        shifted_value(
            digits_value(mantissa_digits(s)),
            exponent_of(s) - frac_digits(mantissa(s)).len(),
            m,
        )
    }
}

/// Whether `w` spells the lower case word `lower`, in any case (`upper`
/// being the word in upper case).
pub open spec fn word_ci(w: Seq<char>, lower: Seq<char>, upper: Seq<char>) -> bool {
    &&& w.len() == lower.len()
    &&& lower.len() == upper.len()
    &&& forall|i: int| 0 <= i < w.len() ==> #[trigger] w[i] == lower[i] || w[i] == upper[i]
}

/// The sizes written as a word, as a float reads them: `inf` or `infinity`
/// is the largest size (0 with a `-`), `nan` is 0, in any case, with an
/// optional sign and an optional final `B`.
pub open spec fn special_size(t: Seq<char>) -> Option<u64> {
    let b = if t.len() > 0 && is_byte_letter(t.last()) {
        t.drop_last()
    } else {
        t
    };
    let w = unsigned_part(b);
    if word_ci(w, seq!['i', 'n', 'f'], seq!['I', 'N', 'F']) || word_ci(
        w,
        seq!['i', 'n', 'f', 'i', 'n', 'i', 't', 'y'],
        seq!['I', 'N', 'F', 'I', 'N', 'I', 'T', 'Y'],
    ) {
        Some(
            if is_negative(b) {
                0
            } else {
                u64::MAX
            },
        )
    } else if word_ci(w, seq!['n', 'a', 'n'], seq!['N', 'A', 'N']) {
        Some(0)
    } else {
        None
    }
}

/// `n`, or the largest `u64` when `n` does not fit.
pub open spec fn saturate(n: nat) -> u64 {
    if n > u64::MAX {
        u64::MAX
    } else {
        n as u64
    }
}

/// The number of bytes that a size such as `1.5K`, `10MB` or `2e3` stands
/// for.
pub open spec fn parse_size_spec(s: Seq<char>) -> Result<u64, SizeError> {
    let t = trim(s);
    let k = unit_start(t);
    let num = t.take(k as int);
    let unit = t.skip(k as int);
    match special_size(t) {
        Some(v) => Ok(v),
        None => number_with_unit_spec(num, unit),
    }
}

/// The index of the first `..` in `s`.
pub open spec fn first_dotdot(s: Seq<char>) -> Option<nat>
    decreases s.len(),
{
    if s.len() < 2 {
        None
    } else if s[0] == '.' && s[1] == '.' {
        Some(0)
    } else {
        match first_dotdot(s.drop_first()) {
            Some(k) => Some(k + 1),
            None => None,
        }
    }
}

/// A bound of a size range: nothing for an empty text.
pub open spec fn parse_bound_spec(s: Seq<char>) -> Result<Option<u64>, SizeError> {
    if s.len() == 0 {
        Ok(None)
    } else {
        match parse_size_spec(s) {
            Ok(v) => Ok(Some(v)),
            Err(e) => Err(e),
        }
    }
}

/// The size range that `s` describes: `A..B`, `A..`, `..B`, or a single
/// size `A` for exactly that size.
pub open spec fn parse_range_spec(s: Seq<char>) -> Result<SizeRange, SizeError> {
    let t = trim(s);
    let lo = match first_dotdot(t) {
        Some(i) => t.take(i as int),
        None => t,
    };
    let hi = match first_dotdot(t) {
        Some(i) => t.skip((i + 2) as int),
        None => t,
    };
    match parse_bound_spec(lo) {
        Err(e) => Err(e),
        Ok(min) => match parse_bound_spec(hi) {
            Err(e) => Err(e),
            Ok(max) => Ok(SizeRange { min, max }),
        },
    }
}

impl SizeRange {
    /// Whether `size` lies within the range.
    pub open spec fn spec_contains(self, size: u64) -> bool {
        &&& (self.min matches Some(lo) ==> lo <= size)
        &&& (self.max matches Some(hi) ==> size <= hi)
    }

    /// Reads a size range such as `10K..100M`, `1G..`, `..1M` or `5K`.
    pub fn parse(s: &str) -> (r: Result<SizeRange, SizeError>)
        ensures
            r == parse_range_spec(s@),
    {
        let v = chars_of(s);
        let t = trim_chars(&v);
        let (lo, hi) = match find_dotdot(&t) {
            Some(i) => (slice_chars(&t, 0, i), slice_chars(&t, i + 2, t.len())),
            None => (slice_chars(&t, 0, t.len()), slice_chars(&t, 0, t.len())),
        };
        assert(t@.subrange(0, t@.len() as int) == t@);
        let min = match parse_bound(&lo) {
            Ok(m) => m,
            Err(e) => return Err(e),
        };
        let max = match parse_bound(&hi) {
            Ok(m) => m,
            Err(e) => return Err(e),
        };
        Ok(SizeRange { min, max })
    }

    /// Whether `size` lies within the range.
    pub fn contains(&self, size: u64) -> (r: bool)
        ensures
            r == self.spec_contains(size),
    {
        if let Some(min) = self.min {
            if size < min {
                return false;
            }
        }
        if let Some(max) = self.max {
            if size > max {
                return false;
            }
        }
        true
    }
}

/// The index of the first `..` in `t`.
fn find_dotdot(t: &Vec<char>) -> (r: Option<usize>)
    ensures
        match r {
            Some(i) => first_dotdot(t@) == Some(i as nat) && i + 2 <= t.len(),
            None => first_dotdot(t@) is None,
        },
{
    let mut i: usize = 0;
    assert(t@.skip(0) == t@);
    while t.len() - i >= 2
        invariant
            i <= t.len(),
            first_dotdot(t@) == (match first_dotdot(t@.skip(i as int)) {
                Some(k) => Some((k + i) as nat),
                None => None,
            }),
        decreases t.len() - i,
    {
        if t[i] == '.' && t[i + 1] == '.' {
            return Some(i);
        }
        assert(t@.skip(i as int).drop_first() == t@.skip(i + 1));
        i = i + 1;
    }
    None
}

/// A bound of a size range: nothing for an empty text.
fn parse_bound(s: &Vec<char>) -> (r: Result<Option<u64>, SizeError>)
    ensures
        r == parse_bound_spec(s@),
{
    if s.len() == 0 {
        Ok(None)
    } else {
        match parse_size(s) {
            Ok(v) => Ok(Some(v)),
            Err(e) => Err(e),
        }
    }
}

/// The number of bytes that a size such as `1.5K`, `10MB` or `2e3` stands
/// for. The number is read as a float reads it (an optional sign, a
/// decimal, an optional exponent; or `inf`, `infinity`, `nan`), but exactly,
/// and the bytes are rounded down: negative sizes and `nan` give 0, sizes
/// too large for a `u64` give the largest `u64`.
pub fn parse_size(s: &Vec<char>) -> (r: Result<u64, SizeError>)
    ensures
        r == parse_size_spec(s@),
{
    let t = trim_chars(s);
    let mut k: usize = t.len();
    assert(t@.take(k as int) == t@);
    while k > 0 && is_alpha(t[k - 1])
        invariant
            k <= t.len(),
            unit_start(t@) == unit_start(t@.take(k as int)),
        decreases k,
    {
        assert(t@.take(k as int).drop_last() == t@.take(k - 1));
        k = k - 1;
    }
    let num = slice_chars(&t, 0, k);
    let unit = slice_chars(&t, k, t.len());
    if let Some(v) = special_size_exec(&t) {
        return Ok(v);
    }
    number_with_unit(&num, &unit)
}

/// The number of bytes in the number `num` of units `unit`.
pub open spec fn number_with_unit_spec(num: Seq<char>, unit: Seq<char>) -> Result<u64, SizeError> {
    if !is_number(num) {
        Err(SizeError::InvalidNumber)
    } else {
        match unit_multiplier(unit) {
            None => Err(SizeError::UnknownUnit),
            Some(m) => Ok(saturate(scaled_value(num, m as nat))),
        }
    }
}

/// The number of bytes in the number `num` of units `unit`.
fn number_with_unit(num: &Vec<char>, unit: &Vec<char>) -> (r: Result<u64, SizeError>)
    ensures
        r == number_with_unit_spec(num@, unit@),
{
    match read_number(num) {
        None => Err(SizeError::InvalidNumber),
        Some((negative, ds, frac_len, ec)) => match multiplier(unit) {
            None => Err(SizeError::UnknownUnit),
            Some(m) => {
                if negative {
                    Ok(0)
                } else {
                    Ok(scale_exp(&ds, frac_len, ec, m, Ghost(exponent_of(num@))))
                }
            },
        },
    }
}

/// Whether `c` is an ASCII letter.
fn is_alpha(c: char) -> (r: bool)
    ensures
        r == is_ascii_alpha(c),
{
    ('a' <= c && c <= 'z') || ('A' <= c && c <= 'Z')
}

/// The factor of a unit.
fn multiplier(u: &Vec<char>) -> (r: Option<u64>)
    ensures
        r == unit_multiplier(u@),
{
    if u.len() == 0 {
        return Some(1);
    }
    if u.len() == 1 && (u[0] == 'b' || u[0] == 'B') {
        return Some(1);
    }
    if u.len() == 1 || (u.len() == 2 && (u[1] == 'b' || u[1] == 'B')) {
        let c = u[0];
        if c == 'k' || c == 'K' {
            Some(1024)
        } else if c == 'm' || c == 'M' {
            Some(1048576)
        } else if c == 'g' || c == 'G' {
            Some(1073741824)
        } else if c == 't' || c == 'T' {
            Some(1099511627776)
        } else {
            None
        }
    } else {
        None
    }
}

proof fn lemma_first_index_of(s: Seq<char>, c: char, i: int)
    requires
        0 <= i <= s.len(),
        forall|k: int| 0 <= k < i ==> s[k] != c,
        i == s.len() || s[i] == c,
    ensures
        first_index_of(s, c) == i,
    decreases i,
{
    if i > 0 {
        lemma_first_index_of(s.drop_first(), c, i - 1);
    }
}

/// Whether every character of `v` from `lo` up to `hi` is a digit.
fn digits_only(v: &Vec<char>, lo: usize, hi: usize) -> (r: bool)
    requires
        lo <= hi <= v.len(),
    ensures
        r == all_digits(v@.subrange(lo as int, hi as int)),
{
    let mut i = lo;
    while i < hi
        invariant
            lo <= i <= hi <= v.len(),
            forall|k: int| lo <= k < i ==> is_digit(v@[k]),
        decreases hi - i,
    {
        if !('0' <= v[i] && v[i] <= '9') {
            assert(!is_digit(v@.subrange(lo as int, hi as int)[i - lo]));
            return false;
        }
        i = i + 1;
    }
    assert forall|k: int| 0 <= k < hi - lo implies is_digit(
        #[trigger] v@.subrange(lo as int, hi as int)[k],
    ) by {
        assert(v@.subrange(lo as int, hi as int)[k] == v@[lo + k]);
    }
    true
}

/// Reads a decimal number: whether it is negative, its digits before and
/// after the point.
fn read_decimal(s: &Vec<char>) -> (r: Option<(bool, Vec<char>, Vec<char>)>)
    ensures
        match r {
            Some((neg, ip, fp)) => {
                &&& is_decimal(s@)
                &&& neg == is_negative(s@)
                &&& ip@ == int_digits(s@)
                &&& fp@ == frac_digits(s@)
            },
            None => !is_decimal(s@),
        },
{
    let start: usize = if s.len() > 0 && (s[0] == '-' || s[0] == '+') {
        1
    } else {
        0
    };
    let negative = s.len() > 0 && s[0] == '-';
    let ghost b = unsigned_part(s@);
    assert(b == s@.skip(start as int));
    let mut d = start;
    while d < s.len() && s[d] != '.'
        invariant
            start <= d <= s.len(),
            b == s@.skip(start as int),
            forall|k: int| 0 <= k < d - start ==> b[k] != '.',
        decreases s.len() - d,
    {
        d = d + 1;
    }
    proof {
        lemma_first_index_of(b, '.', d - start);
    }
    let int_ok = digits_only(s, start, d);
    assert(s@.subrange(start as int, d as int) == int_digits(s@));
    let frac_lo: usize = if d < s.len() {
        d + 1
    } else {
        s.len()
    };
    let frac_ok = digits_only(s, frac_lo, s.len());
    assert(s@.subrange(frac_lo as int, s.len() as int) == frac_digits(s@));
    if int_ok && frac_ok && (d - start) + (s.len() - frac_lo) > 0 {
        Some((negative, slice_chars(s, start, d), slice_chars(s, frac_lo, s.len())))
    } else {
        None
    }
}

/// The digits' value, left part first, as a step.
#[verifier::spinoff_prover]
proof fn lemma_digits_value_first(ds: Seq<char>)
    requires
        ds.len() >= 1,
    ensures
        digits_value(ds) == digit_value(ds[0]) * pow10((ds.len() - 1) as nat) + digits_value(
            ds.drop_first(),
        ),
    decreases ds.len(),
{
    if ds.len() == 1 {
        assert(ds.drop_last().len() == 0);
        assert(ds.drop_first().len() == 0);
        assert(ds.last() == ds[0]);
        assert(digits_value(ds.drop_last()) == 0);
        assert(digits_value(ds.drop_first()) == 0);
        assert(digits_value(ds) == digits_value(ds.drop_last()) * 10 + digit_value(ds.last()));
        assert(digits_value(ds) == digit_value(ds[0]));
        assert(pow10(0) == 1);
        assert(digit_value(ds[0]) * pow10(0) == digit_value(ds[0]));
    } else {
        let a = ds.drop_last();
        lemma_digits_value_first(a);
        let f = ds.drop_first();
        assert(a.drop_first() == f.drop_last());
        assert(f.last() == ds.last());
        assert(a[0] == ds[0]);
        let d0 = digit_value(ds[0]);
        let p = pow10((ds.len() - 2) as nat);
        let x = digits_value(f.drop_last());
        let l = digit_value(ds.last());
        assert(digits_value(a) == d0 * p + x);
        assert(digits_value(f) == x * 10 + l);
        assert(digits_value(ds) == digits_value(a) * 10 + l);
        assert(pow10((ds.len() - 1) as nat) == 10 * p);
        assert((d0 * p + x) * 10 + l == d0 * (10 * p) + (x * 10 + l)) by (nonlinear_arith);
        assert(digits_value(ds) == d0 * pow10((ds.len() - 1) as nat) + digits_value(f));
    }
}

proof fn lemma_pow10_pos(n: nat)
    ensures
        pow10(n) > 0,
    decreases n,
{
    if n > 0 {
        lemma_pow10_pos((n - 1) as nat);
    }
}

/// The fractional digits times `m`, rounded down, computed from the last
/// digit to the first.
pub open spec fn frac_floor(ds: Seq<char>, m: nat) -> nat
    decreases ds.len(),
{
    if ds.len() == 0 {
        0
    } else {
        (digit_value(ds[0]) * m + frac_floor(ds.drop_first(), m)) / 10
    }
}

proof fn lemma_frac_floor(ds: Seq<char>, m: nat)
    ensures
        frac_floor(ds, m) == (digits_value(ds) * m) / pow10(ds.len()),
    decreases ds.len(),
{
    if ds.len() > 0 {
        let rest = ds.drop_first();
        lemma_frac_floor(rest, m);
        lemma_digits_value_first(ds);
        lemma_pow10_pos(rest.len());
        let p = pow10(rest.len()) as int;
        let d0 = digit_value(ds[0]) as int;
        let x = digits_value(rest) as int * m as int;
        let big = digits_value(ds) as int * m as int;
        assert(digits_value(ds) == d0 * p + digits_value(rest));
        assert(big == x + (d0 * m) * p) by (nonlinear_arith)
            requires
                digits_value(ds) == d0 * p + digits_value(rest),
                x == digits_value(rest) * m,
                big == digits_value(ds) * m,
        ;
        vstd::arithmetic::div_mod::lemma_hoist_over_denominator(x, d0 * m, p as nat);
        assert(x / p + d0 * m == big / p);
        vstd::arithmetic::div_mod::lemma_div_denominator(big, p, 10);
        assert((big / p) / 10 == big / (p * 10));
        assert(pow10(ds.len()) == p * 10);
        assert(frac_floor(rest, m) == x / p);
        assert(frac_floor(ds, m) == (d0 * m + frac_floor(rest, m)) / 10);
        assert(frac_floor(ds, m) == big / (p * 10));
    } else {
        assert(digits_value(ds) == 0);
        assert(pow10(0) == 1);
        assert((0 * m) / 1 == 0) by (nonlinear_arith);
    }
}

proof fn lemma_split_value(iv: nat, fv: nat, p: nat, m: nat)
    requires
        p > 0,
    ensures
        ((iv * p + fv) * m) / p == iv * m + (fv * m) / p,
{
    let a = (fv * m) as int;
    let j = (iv * m) as int;
    assert((iv * p + fv) * m == a + j * p) by (nonlinear_arith)
        requires
            a == fv * m,
            j == iv * m,
    ;
    vstd::arithmetic::div_mod::lemma_hoist_over_denominator(a, j, p);
}

/// The whole number of bytes in `ip.fp` units of `m` bytes, rounded down
/// and saturated.
fn scale(ip: &Vec<char>, fp: &Vec<char>, m: u64) -> (r: u64)
    requires
        all_digits(ip@),
        all_digits(fp@),
        1 <= m <= 1099511627776,
    ensures
        r == saturate(
            (((digits_value(ip@) * pow10(fp@.len()) + digits_value(fp@)) * m as nat) / pow10(
                fp@.len(),
            )) as nat,
        ),
{
    // the whole part, or a note that it is beyond any u64
    let mut acc: u64 = 0;
    let mut over = false;
    let mut i: usize = 0;
    assert(ip@.take(0) == Seq::<char>::empty());
    while i < ip.len()
        invariant
            i <= ip.len(),
            all_digits(ip@),
            over ==> digits_value(ip@.take(i as int)) > u64::MAX,
            !over ==> acc == digits_value(ip@.take(i as int)),
        decreases ip.len() - i,
    {
        assert(is_digit(ip@[i as int]));
        let d = (ip[i] as u32 - '0' as u32) as u64;
        assert(ip@.take(i + 1).drop_last() == ip@.take(i as int));
        if !over {
            let next: u128 = acc as u128 * 10 + d as u128;
            if next > u64::MAX as u128 {
                over = true;
            } else {
                acc = next as u64;
            }
        }
        i = i + 1;
    }
    assert(ip@.take(ip.len() as int) == ip@);
    // the fractional part times m, from the last digit to the first
    let mut r: u64 = 0;
    let mut j: usize = fp.len();
    assert(fp@.skip(fp.len() as int) == Seq::<char>::empty());
    while j > 0
        invariant
            j <= fp.len(),
            all_digits(fp@),
            1 <= m <= 1099511627776,
            r == frac_floor(fp@.skip(j as int), m as nat),
            r < m,
        decreases j,
    {
        assert(is_digit(fp@[j - 1]));
        let d = (fp[j - 1] as u32 - '0' as u32) as u64;
        assert(fp@.skip(j - 1).drop_first() == fp@.skip(j as int));
        assert(fp@.skip(j - 1)[0] == fp@[j - 1]);
        assert(d * m + r < 10 * m) by (nonlinear_arith)
            requires
                d <= 9,
                r < m,
        ;
        let next = (d * m + r) / 10;
        assert(next < m) by (nonlinear_arith)
            requires
                next == (d * m + r) / 10,
                d * m + r < 10 * m,
        ;
        r = next;
        j = j - 1;
    }
    assert(fp@.skip(0) == fp@);
    let ghost p = pow10(fp@.len());
    let ghost iv = digits_value(ip@);
    let ghost fv = digits_value(fp@);
    proof {
        lemma_pow10_pos(fp@.len());
        lemma_frac_floor(fp@, m as nat);
        lemma_split_value(iv, fv, p, m as nat);
    }
    if over {
        assert(iv * m >= iv) by (nonlinear_arith)
            requires
                m >= 1,
        ;
        u64::MAX
    } else {
        assert(acc as u128 * m as u128 <= 0xffff_ffff_ffff_ffffu128 * 1099511627776u128)
            by (nonlinear_arith)
            requires
                acc <= 0xffff_ffff_ffff_ffffu64,
                m <= 1099511627776u64,
        ;
        let total: u128 = acc as u128 * m as u128 + r as u128;
        if total > u64::MAX as u128 {
            u64::MAX
        } else {
            total as u64
        }
    }
}

/// The digits of `a` then `b`: those of `a` shifted past those of `b`.
proof fn lemma_digits_concat(a: Seq<char>, b: Seq<char>)
    ensures
        digits_value(a + b) == digits_value(a) * pow10(b.len()) + digits_value(b),
    decreases b.len(),
{
    if b.len() == 0 {
        assert(a + b == a);
        assert(pow10(0) == 1);
        assert(digits_value(b) == 0);
        assert(digits_value(a) * 1 == digits_value(a)) by (nonlinear_arith);
    } else {
        let b0 = b.drop_last();
        lemma_digits_concat(a, b0);
        assert((a + b).drop_last() == a + b0);
        assert((a + b).last() == b.last());
        let va = digits_value(a);
        let p0 = pow10(b0.len());
        let v0 = digits_value(b0);
        let l = digit_value(b.last());
        assert(pow10(b.len()) == 10 * p0);
        assert((va * p0 + v0) * 10 + l == va * (10 * p0) + (v0 * 10 + l)) by (nonlinear_arith);
    }
}

/// A run of zeros is worth nothing.
proof fn lemma_zeros_value(z: Seq<char>)
    requires
        forall|i: int| 0 <= i < z.len() ==> #[trigger] z[i] == '0',
    ensures
        digits_value(z) == 0,
    decreases z.len(),
{
    if z.len() > 0 {
        let z0 = z.drop_last();
        assert forall|i: int| 0 <= i < z0.len() implies #[trigger] z0[i] == '0' by {
            assert(z0[i] == z[i]);
        }
        lemma_zeros_value(z0);
        assert(z[z.len() - 1] == '0');
    }
}

/// `n` digits are worth less than `10^n`.
proof fn lemma_digits_bound(x: Seq<char>)
    requires
        all_digits(x),
    ensures
        digits_value(x) < pow10(x.len()),
    decreases x.len(),
{
    if x.len() > 0 {
        let x0 = x.drop_last();
        assert(all_digits(x0)) by {
            assert forall|i: int| 0 <= i < x0.len() implies is_digit(#[trigger] x0[i]) by {
                assert(x0[i] == x[i]);
            }
        }
        lemma_digits_bound(x0);
        assert(is_digit(x[x.len() - 1]));
        assert(digit_value(x.last()) <= 9);
        let v0 = digits_value(x0);
        let p0 = pow10(x0.len());
        assert(v0 * 10 + digit_value(x.last()) < 10 * p0) by (nonlinear_arith)
            requires
                v0 < p0,
                digit_value(x.last()) <= 9,
        ;
    } else {
        assert(pow10(0) == 1);
    }
}

/// Digits with one that is not zero are worth at least 1.
proof fn lemma_digits_positive(x: Seq<char>, j: int)
    requires
        all_digits(x),
        0 <= j < x.len(),
        x[j] != '0',
    ensures
        digits_value(x) >= 1,
{
    let a = x.take(j + 1);
    let b = x.skip(j + 1);
    assert(x == a + b);
    lemma_digits_concat(a, b);
    lemma_pow10_pos(b.len());
    assert(a.drop_last() == x.take(j));
    assert(a.last() == x[j]);
    assert(is_digit(x[j]));
    assert(digit_value(x[j]) >= 1);
    assert(digits_value(a) >= 1);
    assert(digits_value(a) * pow10(b.len()) >= 1) by (nonlinear_arith)
        requires
            digits_value(a) >= 1,
            pow10(b.len()) >= 1,
    ;
}

proof fn lemma_pow10_add(a: nat, b: nat)
    ensures
        pow10(a + b) == pow10(a) * pow10(b),
    decreases b,
{
    if b == 0 {
        assert(pow10(0) == 1);
    } else {
        lemma_pow10_add(a, (b - 1) as nat);
        assert(pow10(a + b) == 10 * pow10((a + b - 1) as nat));
        assert(pow10(b) == 10 * pow10((b - 1) as nat));
        assert(10 * (pow10(a) * pow10((b - 1) as nat)) == pow10(a) * (10 * pow10((b - 1) as nat)))
            by (nonlinear_arith);
    }
}

proof fn lemma_pow10_mono(a: nat, b: nat)
    requires
        a <= b,
    ensures
        pow10(a) <= pow10(b),
{
    lemma_pow10_add(a, (b - a) as nat);
    lemma_pow10_pos(a);
    lemma_pow10_pos((b - a) as nat);
    assert(pow10(a) * pow10((b - a) as nat) >= pow10(a)) by (nonlinear_arith)
        requires
            pow10((b - a) as nat) >= 1,
            pow10(a) >= 1,
    ;
}

proof fn lemma_pow10_landmarks()
    ensures
        pow10(13) > 1099511627776,
        pow10(20) > u64::MAX,
{
    reveal_with_fuel(pow10, 21);
}

/// The bound beyond which an exponent is no longer read exactly.
pub open spec fn exp_cap() -> int {
    1000000000000000000000000000000
}

/// `e`, kept between `-exp_cap()` and `exp_cap()`.
pub open spec fn clamp_exp(e: int) -> int {
    if e > exp_cap() {
        exp_cap()
    } else if e < -exp_cap() {
        -exp_cap()
    } else {
        e
    }
}

/// A nonzero value times at least `10^20` bytes does not fit a `u64`.
proof fn lemma_shift_huge(v: nat, d: int, m: nat)
    requires
        v >= 1,
        m >= 1,
        d >= 20,
    ensures
        shifted_value(v, d, m) > u64::MAX,
{
    lemma_pow10_mono(20, d as nat);
    lemma_pow10_landmarks();
    assert(v * m * pow10(d as nat) >= pow10(d as nat)) by (nonlinear_arith)
        requires
            v >= 1,
            m >= 1,
    ;
}

/// `n` digits times at most 2^40, over at least `10^(n + 13)`, round down
/// to 0.
proof fn lemma_shift_tiny(v: nat, n: nat, s: int, m: nat)
    requires
        v < pow10(n),
        m <= 1099511627776,
        s >= n + 13,
    ensures
        shifted_value(v, -s, m) == 0,
{
    lemma_pow10_landmarks();
    lemma_pow10_add(n, 13);
    lemma_pow10_mono(n + 13, s as nat);
    assert(v * m < pow10(n) * pow10(13)) by (nonlinear_arith)
        requires
            v < pow10(n),
            m <= 1099511627776,
            pow10(13) > 1099511627776,
    ;
    assert((v * m) / pow10(s as nat) == 0) by (nonlinear_arith)
        requires
            v * m < pow10(s as nat),
    ;
}

/// The whole number of bytes in `ds * 10^(e - k)` units of `m` bytes,
/// rounded down and saturated, where `ec` is `e` kept within the cap.
fn scale_exp(ds: &Vec<char>, k: usize, ec: i128, m: u64, Ghost(e): Ghost<int>) -> (r: u64)
    requires
        all_digits(ds@),
        1 <= m <= 1099511627776,
        ec == clamp_exp(e),
    ensures
        r == saturate(shifted_value(digits_value(ds@), e - k, m as nat)),
{
    let n = ds.len();
    let ghost v = digits_value(ds@);
    proof {
        lemma_digits_bound(ds@);
    }
    let mut j: usize = 0;
    while j < n && ds[j] == '0'
        invariant
            j <= n == ds.len(),
            forall|i: int| 0 <= i < j ==> #[trigger] ds@[i] == '0',
        decreases n - j,
    {
        j = j + 1;
    }
    if j == n {
        proof {
            lemma_zeros_value(ds@);
            if e - k >= 0 {
                assert(0 * (m as nat) * pow10((e - k) as nat) == 0) by (nonlinear_arith);
            } else {
                lemma_pow10_pos((k - e) as nat);
                assert((0 * (m as nat)) / pow10((k - e) as nat) == 0) by (nonlinear_arith)
                    requires
                        pow10((k - e) as nat) > 0,
                ;
            }
        }
        return 0;
    }
    proof {
        lemma_digits_positive(ds@, j as int);
    }
    let d: i128 = ec - k as i128;
    if d >= 20 {
        proof {
            lemma_shift_huge(v, e - k, m as nat);
        }
        u64::MAX
    } else if d >= 0 {
        assert(ec == e);
        let mut ip = slice_chars(ds, 0, n);
        let mut i: i128 = 0;
        let ghost base = ip@;
        assert(base == ds@);
        while i < d
            invariant
                0 <= i <= d < 20,
                ip@ == base + Seq::new(i as nat, |x: int| '0'),
            decreases d - i,
        {
            ip.push('0');
            i = i + 1;
            assert(ip@ == base + Seq::new(i as nat, |x: int| '0'));
        }
        let ghost z = Seq::new(d as nat, |x: int| '0');
        proof {
            lemma_zeros_value(z);
            lemma_digits_concat(base, z);
            assert(all_digits(ip@)) by {
                assert forall|x: int| 0 <= x < ip@.len() implies is_digit(#[trigger] ip@[x]) by {
                    if x < base.len() {
                        assert(ip@[x] == base[x]);
                    } else {
                        assert(ip@[x] == '0');
                    }
                }
            }
        }
        let empty: Vec<char> = Vec::new();
        let r = scale(&ip, &empty, m);
        proof {
            assert(pow10(0) == 1);
            assert(digits_value(empty@) == 0);
            let p = pow10(d as nat);
            assert(((v * p * 1 + 0) * (m as nat)) / 1 == v * (m as nat) * p) by (nonlinear_arith);
        }
        r
    } else {
        let s: i128 = 0 - d;
        if s >= n as i128 + 13 {
            proof {
                lemma_shift_tiny(v, n as nat, k - e, m as nat);
            }
            0
        } else if s <= n as i128 {
            assert(ec == e);
            let cut: usize = n - s as usize;
            let ip = slice_chars(ds, 0, cut);
            let fp = slice_chars(ds, cut, n);
            proof {
                assert(ds@ == ip@ + fp@);
                lemma_digits_concat(ip@, fp@);
                assert(all_digits(ip@)) by {
                    assert forall|x: int| 0 <= x < ip@.len() implies is_digit(#[trigger] ip@[x])
                        by {
                        assert(ip@[x] == ds@[x]);
                    }
                }
                assert(all_digits(fp@)) by {
                    assert forall|x: int| 0 <= x < fp@.len() implies is_digit(#[trigger] fp@[x])
                        by {
                        assert(fp@[x] == ds@[cut + x]);
                    }
                }
            }
            scale(&ip, &fp, m)
        } else {
            assert(ec == e);
            let mut fp: Vec<char> = Vec::new();
            let pad: usize = (s - n as i128) as usize;
            let mut i: usize = 0;
            while i < pad
                invariant
                    i <= pad < 13,
                    fp@ == Seq::new(i as nat, |x: int| '0'),
                decreases pad - i,
            {
                fp.push('0');
                i = i + 1;
                assert(fp@ == Seq::new(i as nat, |x: int| '0'));
            }
            let ghost z = fp@;
            crate::text::extend_chars(&mut fp, ds);
            proof {
                lemma_zeros_value(z);
                lemma_digits_concat(z, ds@);
                assert(all_digits(fp@)) by {
                    assert forall|x: int| 0 <= x < fp@.len() implies is_digit(#[trigger] fp@[x])
                        by {
                        if x < z.len() {
                            assert(fp@[x] == '0');
                        } else {
                            assert(fp@[x] == ds@[x - z.len()]);
                        }
                    }
                }
            }
            let empty: Vec<char> = Vec::new();
            let r = scale(&empty, &fp, m);
            proof {
                assert(digits_value(empty@) == 0);
                let p = pow10(fp@.len());
                assert(((0 * p + v) * (m as nat)) / p == (v * (m as nat)) / p) by (nonlinear_arith);
            }
            r
        }
    }
}

proof fn lemma_first_exp(s: Seq<char>, i: int)
    requires
        0 <= i <= s.len(),
        forall|k: int| 0 <= k < i ==> #[trigger] s[k] != 'e' && s[k] != 'E',
        i == s.len() || s[i] == 'e' || s[i] == 'E',
    ensures
        first_exp(s) == i,
    decreases i,
{
    if i > 0 {
        assert forall|k: int| 0 <= k < i - 1 implies #[trigger] s.drop_first()[k] != 'e'
            && s.drop_first()[k] != 'E' by {
            assert(s.drop_first()[k] == s[k + 1]);
        }
        lemma_first_exp(s.drop_first(), i - 1);
    }
}

/// Whether `w` spells a word in any case, `lo` and `up` being the word in
/// lower and upper case.
fn word_ci_exec(w: &Vec<char>, lo: &Vec<char>, up: &Vec<char>) -> (r: bool)
    ensures
        r == word_ci(w@, lo@, up@),
{
    if w.len() != lo.len() || lo.len() != up.len() {
        return false;
    }
    let mut i: usize = 0;
    while i < w.len()
        invariant
            i <= w.len() == lo.len() == up.len(),
            forall|j: int| 0 <= j < i ==> #[trigger] w@[j] == lo@[j] || w@[j] == up@[j],
        decreases w.len() - i,
    {
        if w[i] != lo[i] && w[i] != up[i] {
            return false;
        }
        i = i + 1;
    }
    true
}

/// The sizes written as a word: `inf`, `infinity` or `nan`.
fn special_size_exec(t: &Vec<char>) -> (r: Option<u64>)
    ensures
        r == special_size(t@),
{
    let end: usize = if t.len() > 0 && (t[t.len() - 1] == 'b' || t[t.len() - 1] == 'B') {
        t.len() - 1
    } else {
        t.len()
    };
    let b = slice_chars(t, 0, end);
    assert(b@ == (if t@.len() > 0 && is_byte_letter(t@.last()) {
        t@.drop_last()
    } else {
        t@
    }));
    let start: usize = if b.len() > 0 && (b[0] == '-' || b[0] == '+') {
        1
    } else {
        0
    };
    let w = slice_chars(&b, start, b.len());
    assert(w@ == unsigned_part(b@));
    let negative = b.len() > 0 && b[0] == '-';
    let inf_lo = vec!['i', 'n', 'f'];
    let inf_up = vec!['I', 'N', 'F'];
    let infinity_lo = vec!['i', 'n', 'f', 'i', 'n', 'i', 't', 'y'];
    let infinity_up = vec!['I', 'N', 'F', 'I', 'N', 'I', 'T', 'Y'];
    let nan_lo = vec!['n', 'a', 'n'];
    let nan_up = vec!['N', 'A', 'N'];
    assert(inf_lo@ == seq!['i', 'n', 'f']);
    assert(inf_up@ == seq!['I', 'N', 'F']);
    assert(infinity_lo@ == seq!['i', 'n', 'f', 'i', 'n', 'i', 't', 'y']);
    assert(infinity_up@ == seq!['I', 'N', 'F', 'I', 'N', 'I', 'T', 'Y']);
    assert(nan_lo@ == seq!['n', 'a', 'n']);
    assert(nan_up@ == seq!['N', 'A', 'N']);
    if word_ci_exec(&w, &inf_lo, &inf_up) || word_ci_exec(&w, &infinity_lo, &infinity_up) {
        if negative {
            Some(0)
        } else {
            Some(u64::MAX)
        }
    } else if word_ci_exec(&w, &nan_lo, &nan_up) {
        Some(0)
    } else {
        None
    }
}

/// The value of an exponent, with an optional sign, kept within the cap.
fn read_exponent(x: &Vec<char>) -> (r: Option<i128>)
    ensures
        r is Some <==> is_exponent(x@),
        r matches Some(ec) ==> ec == clamp_exp(
            if is_negative(x@) {
                -digits_value(unsigned_part(x@))
            } else {
                digits_value(unsigned_part(x@)) as int
            },
        ),
{
    let start: usize = if x.len() > 0 && (x[0] == '-' || x[0] == '+') {
        1
    } else {
        0
    };
    let u = slice_chars(x, start, x.len());
    assert(u@ == unsigned_part(x@));
    if u.len() == 0 {
        return None;
    }
    let cap: i128 = 1000000000000000000000000000000;
    let mut acc: i128 = 0;
    let mut i: usize = 0;
    assert(u@.take(0) == Seq::<char>::empty());
    while i < u.len()
        invariant
            i <= u.len(),
            u@ == unsigned_part(x@),
            cap == exp_cap(),
            0 <= acc <= cap,
            forall|j: int| 0 <= j < i ==> is_digit(#[trigger] u@[j]),
            acc == (if digits_value(u@.take(i as int)) > cap {
                cap as int
            } else {
                digits_value(u@.take(i as int)) as int
            }),
        decreases u.len() - i,
    {
        let c = u[i];
        if !('0' <= c && c <= '9') {
            assert(!is_digit(u@[i as int]));
            assert(!all_digits(u@));
            return None;
        }
        assert(u@.take(i + 1).drop_last() == u@.take(i as int));
        assert(u@.take(i + 1).last() == c);
        let d = (c as u32 - '0' as u32) as i128;
        assert(d == digit_value(c));
        if acc < cap {
            let next = acc * 10 + d;
            if next > cap {
                acc = cap;
            } else {
                acc = next;
            }
        }
        i = i + 1;
    }
    assert(u@.take(u.len() as int) == u@);
    assert(all_digits(u@));
    let negative = x.len() > 0 && x[0] == '-';
    if negative {
        Some(0 - acc)
    } else {
        Some(acc)
    }
}

/// Reads a number: whether its mantissa is negative, all its mantissa's
/// digits, how many follow the point, and its exponent within the cap.
fn read_number(s: &Vec<char>) -> (r: Option<(bool, Vec<char>, usize, i128)>)
    ensures
        r is Some <==> is_number(s@),
        r matches Some((neg, ds, k, ec)) ==> {
            &&& neg == is_negative(mantissa(s@))
            &&& ds@ == mantissa_digits(s@)
            &&& all_digits(ds@)
            &&& k == frac_digits(mantissa(s@)).len()
            &&& ec == clamp_exp(exponent_of(s@))
        },
{
    let mut p: usize = 0;
    while p < s.len() && s[p] != 'e' && s[p] != 'E'
        invariant
            p <= s.len(),
            forall|k: int| 0 <= k < p ==> #[trigger] s@[k] != 'e' && s@[k] != 'E',
        decreases s.len() - p,
    {
        p = p + 1;
    }
    proof {
        lemma_first_exp(s@, p as int);
    }
    let mant = slice_chars(s, 0, p);
    assert(mant@ == mantissa(s@));
    let ec: i128 = if p < s.len() {
        let x = slice_chars(s, p + 1, s.len());
        assert(x@ == s@.skip(p + 1));
        match read_exponent(&x) {
            Some(v) => v,
            None => {
                return None;
            },
        }
    } else {
        0
    };
    match read_decimal(&mant) {
        None => None,
        Some((negative, ip, fp)) => {
            let k = fp.len();
            let mut ds = ip;
            crate::text::extend_chars(&mut ds, &fp);
            proof {
                let a = int_digits(mant@);
                let b = frac_digits(mant@);
                assert(all_digits(ds@)) by {
                    assert forall|x: int| 0 <= x < ds@.len() implies is_digit(#[trigger] ds@[x]) by {
                        if x < a.len() {
                            assert(ds@[x] == a[x]);
                        } else {
                            assert(ds@[x] == b[x - a.len()]);
                        }
                    }
                }
            }
            Some((negative, ds, k, ec))
        },
    }
}

/// A `..` found in `s` leaves room for both dots.
proof fn lemma_first_dotdot_bound(s: Seq<char>)
    ensures
        first_dotdot(s) matches Some(k) ==> k + 2 <= s.len(),
    decreases s.len(),
{
    if s.len() >= 2 && !(s[0] == '.' && s[1] == '.') {
        lemma_first_dotdot_bound(s.drop_first());
    }
}

/// Surrounding white space does not change a size range.
pub proof fn lemma_range_ignores_surrounding_space(s: Seq<char>)
    ensures
        parse_range_spec(trim(s)) == parse_range_spec(s),
{
    crate::text::lemma_trim_idempotent(s);
}

/// A single size, without `..`, stands for exactly that size: both bounds
/// are that size, and the range holds it and no other size.
pub proof fn lemma_single_size_is_exact(s: Seq<char>, size: u64)
    requires
        first_dotdot(trim(s)) is None,
    ensures
        parse_range_spec(s) matches Ok(r) ==> {
            &&& r.min == r.max
            &&& trim(s).len() > 0 ==> (r.spec_contains(size) <==> r.min == Some(size))
        },
{
}

/// `A..` has no upper bound, and `..B` no lower bound.
pub proof fn lemma_open_ended_ranges(s: Seq<char>)
    ensures
        first_dotdot(trim(s)) == Some((trim(s).len() - 2) as nat) ==> (parse_range_spec(
            s,
        ) matches Ok(r) ==> r.max is None),
        first_dotdot(trim(s)) == Some(0nat) ==> (parse_range_spec(s) matches Ok(r)
            ==> r.min is None),
{
    lemma_first_dotdot_bound(trim(s));
    let t = trim(s);
    if first_dotdot(t) == Some((t.len() - 2) as nat) {
        assert(t.skip(t.len() as int).len() == 0);
    }
    if first_dotdot(t) == Some(0nat) {
        assert(t.take(0).len() == 0);
    }
}

/// Where the letters at the end of `d + u` begin, when `d` does not end
/// with a letter and `u` is all letters.
proof fn lemma_unit_start_split(d: Seq<char>, u: Seq<char>)
    requires
        d.len() > 0,
        !is_ascii_alpha(d.last()),
        forall|i: int| 0 <= i < u.len() ==> is_ascii_alpha(#[trigger] u[i]),
    ensures
        unit_start(d + u) == d.len(),
    decreases u.len(),
{
    if u.len() == 0 {
        assert(d + u == d);
    } else {
        assert((d + u).drop_last() == d + u.drop_last());
        assert((d + u).last() == u.last());
        lemma_unit_start_split(d, u.drop_last());
    }
}

/// A whole number followed by a unit stands for that many units: `10K` is
/// 10 times 1024 bytes, `3MB` 3 times 1024 squared, `7` and `7B` are 7
/// bytes; a number too large for a `u64` gives the largest `u64`.
pub proof fn lemma_whole_number_with_unit(digits: Seq<char>, unit: Seq<char>)
    requires
        digits.len() > 0,
        all_digits(digits),
        unit_multiplier(unit) is Some,
    ensures
        parse_size_spec(digits + unit) == Ok::<u64, SizeError>(
            saturate(digits_value(digits) * unit_multiplier(unit).unwrap() as nat),
        ),
{
    let s = digits + unit;
    let m = unit_multiplier(unit).unwrap();
    assert forall|i: int| 0 <= i < unit.len() implies is_ascii_alpha(#[trigger] unit[i]) by {
        if unit.len() == 2 {
            assert(is_byte_letter(unit[1]));
        }
    }
    assert(is_digit(digits[0]));
    assert(is_digit(digits.last()));
    // the text has no white space at its ends
    assert(s[0] == digits[0]);
    assert(trim_start(s) == s);
    if unit.len() > 0 {
        assert(s.last() == unit.last());
        assert(is_ascii_alpha(unit[unit.len() - 1]));
    } else {
        assert(s.last() == digits.last());
    }
    assert(trim_end(s) == s);
    assert(trim(s) == s);
    lemma_unit_start_split(digits, unit);
    assert(s.take(digits.len() as int) == digits);
    assert(s.skip(digits.len() as int) == unit);
    // the digits are a decimal number without point or sign
    assert(unsigned_part(digits) == digits);
    lemma_first_index_of(digits, '.', digits.len() as int);
    assert(digits.take(digits.len() as int) == digits);
    assert(int_digits(digits) == digits);
    assert(frac_digits(digits) == Seq::<char>::empty());
    assert(is_decimal(digits));
    assert(!is_negative(digits));
    // no exponent
    assert forall|k: int| 0 <= k < digits.len() implies #[trigger] digits[k] != 'e' && digits[k]
        != 'E' by {
        assert(is_digit(digits[k]));
    }
    lemma_first_exp(digits, digits.len() as int);
    assert(mantissa(digits) == digits);
    assert(exponent_text(digits) is None);
    assert(is_number(digits));
    assert(mantissa_digits(digits) == digits);
    assert(pow10(0) == 1);
    let v = digits_value(digits);
    assert(v * (m as nat) * 1 == v * m as nat) by (nonlinear_arith);
    assert(scaled_value(digits, m as nat) == v * m as nat);
    // not a word such as `inf`
    let t = s;
    let b = if t.len() > 0 && is_byte_letter(t.last()) {
        t.drop_last()
    } else {
        t
    };
    assert(b[0] == digits[0]);
    assert(unsigned_part(b) == b);
    if word_ci(b, seq!['i', 'n', 'f'], seq!['I', 'N', 'F']) {
        assert(b[0] == 'i' || b[0] == 'I');
    }
    if word_ci(
        b,
        seq!['i', 'n', 'f', 'i', 'n', 'i', 't', 'y'],
        seq!['I', 'N', 'F', 'I', 'N', 'I', 'T', 'Y'],
    ) {
        assert(b[0] == 'i' || b[0] == 'I');
    }
    if word_ci(b, seq!['n', 'a', 'n'], seq!['N', 'A', 'N']) {
        assert(b[0] == 'n' || b[0] == 'N');
    }
    assert(special_size(t) is None);
}

/// A size lies in a range exactly when it is not below the lower bound, if
/// there is one, and not above the upper bound, if there is one: a range
/// without a lower bound holds every size up to its upper bound, one
/// without bounds holds every size.
pub proof fn lemma_range_membership(r: SizeRange, size: u64)
    ensures
        r.spec_contains(size) <==> (match r.min {
            Some(lo) => lo <= size,
            None => true,
        } && match r.max {
            Some(hi) => size <= hi,
            None => true,
        }),
        r.min is None && r.max is None ==> r.spec_contains(size),
{
}

/// A range has no gaps: a size between two sizes of the range lies in it.
pub proof fn lemma_range_has_no_gaps(r: SizeRange, a: u64, b: u64, c: u64)
    requires
        r.spec_contains(a),
        r.spec_contains(c),
        a <= b <= c,
    ensures
        r.spec_contains(b),
{
}

/// The options of a search, as given on the command line.
#[derive(Debug, Clone)]
pub struct Args {
    /// Directory to search.
    pub path: Option<String>,
    /// Search pattern (glob or regex).
    pub name: Option<String>,
    /// Filter by file extension (e.g. rs, txt, md).
    pub ext: Option<String>,
    /// Filter by size range (e.g. 10K..100M, 1M.., ..1G).
    pub size: Option<String>,
    /// Use regex matching instead of glob.
    pub regex: bool,
    /// Ignore .git directories.
    pub ignore_git: bool,
    /// Ignore node_modules directories.
    pub ignore_node: bool,
    /// Maximum directory recursion depth.
    pub max_depth: Option<usize>,
    /// Interactive mode: select a file to open.
    pub interactive: bool,
}

/// Everything a search runs with.
#[derive(Debug, Clone)]
pub struct SearchConfig {
    pub path: String,
    pub pattern: Option<String>,
    pub ext: Option<String>,
    pub size_range: Option<SizeRange>,
    pub use_regex: bool,
    pub ignore_git: bool,
    pub ignore_node: bool,
    pub max_depth: Option<usize>,
    pub interactive: bool,
}

/// The size range written in `size`, when there is one and it can be read.
pub open spec fn range_of(size: Option<String>) -> Option<SizeRange> {
    match size {
        Some(s) => match parse_range_spec(s@) {
            Ok(r) => Some(r),
            Err(_) => None,
        },
        None => None,
    }
}

/// The size range written in `size`, when there is one and it can be read.
pub fn size_range_of(size: &Option<String>) -> (r: Option<SizeRange>)
    ensures
        r == range_of(*size),
{
    match size {
        Some(s) => match SizeRange::parse(s.as_str()) {
            Ok(r) => Some(r),
            Err(_) => None,
        },
        None => None,
    }
}

impl SearchConfig {
    /// The configuration for the given arguments: the current directory
    /// when no path is given; a size range that cannot be read is dropped.
    pub fn from(args: Args) -> (c: SearchConfig)
        ensures
            c.path@ == (match args.path {
                Some(p) => p@,
                None => seq!['.'],
            }),
            c.pattern == args.name,
            c.ext == args.ext,
            c.size_range == range_of(args.size),
            c.use_regex == args.regex,
            c.ignore_git == args.ignore_git,
            c.ignore_node == args.ignore_node,
            c.max_depth == args.max_depth,
            c.interactive == args.interactive,
    {
        let size_range = size_range_of(&args.size);
        let path = match args.path {
            Some(p) => p,
            None => {
                let here = ".";
                proof {
                    reveal_strlit(".");
                }
                String::from_str(here)
            },
        };
        SearchConfig {
            path,
            pattern: args.name,
            ext: args.ext,
            size_range,
            use_regex: args.regex,
            ignore_git: args.ignore_git,
            ignore_node: args.ignore_node,
            max_depth: args.max_depth,
            interactive: args.interactive,
        }
    }
}

} // verus!
