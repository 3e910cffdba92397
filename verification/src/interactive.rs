//! The choice made at the interactive prompt: quit, open the n-th file, or
//! ask again.

use vstd::prelude::*;
use crate::text::{
    chars_of, decimal, is_digit, lemma_decimal_digits, lemma_parse_usize_decimal, parse_usize,
    parse_usize_spec, trim, trim_chars, trim_end, trim_start,
};

verus! {

/// What a line typed at the prompt asks for.
#[derive(Debug, Clone, Copy, PartialEq, Eq)]
pub enum Selection {
    /// Stop choosing.
    Quit,
    /// Open the file at this position of the list (from 0).
    Open(usize),
    /// The line is neither `q` nor the number of a listed file.
    Invalid,
}

/// What `line` asks for when `count` files are listed, numbered from 1:
/// `q` or `Q` quits, a number from 1 to `count` opens that file.
pub open spec fn selection_spec(line: Seq<char>, count: usize) -> Selection {
    let t = trim(line);
    if t == seq!['q'] || t == seq!['Q'] {
        Selection::Quit
    } else {
        match parse_usize_spec(t) {
            Ok(n) => if 0 < n <= count {
                Selection::Open((n - 1) as usize)
            } else {
                Selection::Invalid
            },
            Err(_) => Selection::Invalid,
        }
    }
}

/// What `line` asks for when `count` files are listed.
pub fn interpret_selection(line: &str, count: usize) -> (r: Selection)
    ensures
        r == selection_spec(line@, count),
        r matches Selection::Open(i) ==> i < count,
{
    let t = trim_chars(&chars_of(line));
    if t.len() == 1 && (t[0] == 'q' || t[0] == 'Q') {
        assert(t@ == seq![t@[0]]);
        return Selection::Quit;
    }
    assert(t@ != seq!['q'] && t@ != seq!['Q']);
    match parse_usize(&t) {
        Ok(n) => {
            if n > 0 && n <= count {
                Selection::Open(n - 1)
            } else {
                Selection::Invalid
            }
        },
        Err(_) => Selection::Invalid,
    }
}

/// Typing the number of a listed file opens that file: for every `n` from
/// 1 to `count`, the decimal text of `n` asks for position `n - 1`.
pub proof fn lemma_number_opens_that_file(n: usize, count: usize)
    requires
        1 <= n <= count,
    ensures
        selection_spec(decimal(n as nat), count) == Selection::Open((n - 1) as usize),
{
    let t = decimal(n as nat);
    lemma_decimal_digits(n as nat);
    lemma_parse_usize_decimal(n);
    assert(is_digit(t[0]));
    assert(is_digit(t[t.len() - 1]));
    assert(trim_start(t) == t);
    assert(trim_end(t) == t);
    assert(trim(t) == t);
    assert(t != seq!['q'] && t != seq!['Q']) by {
        if t.len() == 1 {
            assert(is_digit(t[0]));
        }
    }
}

/// A number that names no listed file asks again: 0, and every number above
/// `count`.
pub proof fn lemma_other_numbers_ask_again(n: usize, count: usize)
    requires
        n == 0 || n > count,
    ensures
        selection_spec(decimal(n as nat), count) == Selection::Invalid,
{
    let t = decimal(n as nat);
    lemma_decimal_digits(n as nat);
    lemma_parse_usize_decimal(n);
    assert(is_digit(t[0]));
    assert(is_digit(t[t.len() - 1]));
    assert(trim_start(t) == t);
    assert(trim_end(t) == t);
    assert(t != seq!['q'] && t != seq!['Q']) by {
        if t.len() == 1 {
            assert(is_digit(t[0]));
        }
    }
}

} // verus!
