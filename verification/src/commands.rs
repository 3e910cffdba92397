//! The prompt's commands: built-in words, cutting a line into arguments,
//! and reading the arguments of a search.

use vstd::prelude::*;
use crate::config::{parse_range_spec, SearchConfig, SizeRange, SizeError};
use crate::paths::{is_root, is_root_spec};
use crate::text::{
    chars_of, chars_eq, parse_usize, parse_usize_spec, split_ws, split_whitespace_chars,
    str_eq, string_of, string_views, IntErrorKind, is_ws, words_state, trim, trim_chars,
};

verus! {

/// A command that the prompt handles itself.
#[derive(Debug, Clone, Copy, PartialEq, Eq)]
pub enum BuiltinCommand {
    Quit,
    Help,
}

/// What a line typed at the prompt holds: nothing when it is blank,
/// otherwise the line without surrounding white space.
pub open spec fn command_line_spec(input: Seq<char>) -> Option<Seq<char>> {
    if trim(input).len() == 0 {
        None
    } else {
        Some(trim(input))
    }
}

/// The line typed at the prompt without surrounding white space, or
/// nothing when it is blank.
pub fn command_line(input: &str) -> (r: Option<String>)
    ensures
        match r {
            Some(c) => command_line_spec(input@) == Some(c@),
            None => command_line_spec(input@) is None,
        },
{
    let t = trim_chars(&chars_of(input));
    if t.len() == 0 {
        None
    } else {
        Some(string_of(&t))
    }
}

/// The first word of `s`, or nothing.
pub open spec fn first_word(s: Seq<char>) -> Seq<char> {
    if split_ws(s).len() > 0 {
        split_ws(s)[0]
    } else {
        Seq::empty()
    }
}

/// The built-in command that a line names by its first word: `quit`,
/// `exit` or `q` quit; `help`, `h` or `?` ask for help.
pub open spec fn builtin_spec(input: Seq<char>) -> Option<BuiltinCommand> {
    let cmd = first_word(input);
    if cmd == "quit"@ || cmd == "exit"@ || cmd == "q"@ {
        Some(BuiltinCommand::Quit)
    } else if cmd == "help"@ || cmd == "h"@ || cmd == "?"@ {
        Some(BuiltinCommand::Help)
    } else {
        None
    }
}

/// Whether `w` holds the text `lit`.
fn is_word(w: &Vec<char>, lit: &str) -> (r: bool)
    ensures
        r == (w@ == lit@),
{
    chars_eq(w, &chars_of(lit))
}

/// The built-in command that a line names by its first word, if any.
pub fn handle_builtin_command(input: &str) -> (r: Option<BuiltinCommand>)
    ensures
        r == builtin_spec(input@),
{
    let words = split_whitespace_chars(&chars_of(input));
    let cmd: Vec<char> = if words.len() > 0 {
        crate::text::slice_chars(&words[0], 0, words[0].len())
    } else {
        Vec::new()
    };
    assert(cmd@ == first_word(input@));
    if is_word(&cmd, "quit") || is_word(&cmd, "exit") || is_word(&cmd, "q") {
        Some(BuiltinCommand::Quit)
    } else if is_word(&cmd, "help") || is_word(&cmd, "h") || is_word(&cmd, "?") {
        Some(BuiltinCommand::Help)
    } else {
        None
    }
}

/// The state of cutting a word into arguments: the arguments done, the one
/// being read, whether a quote is open, and which quote.
pub open spec fn split_step(
    st: (Seq<Seq<char>>, Seq<char>, bool, char),
    c: char,
) -> (Seq<Seq<char>>, Seq<char>, bool, char) {
    let (done, cur, in_quotes, quote) = st;
    if !in_quotes && (c == '"' || c == '\'') {
        (done, cur, true, c)
    } else if in_quotes && c == quote {
        (done, cur, false, quote)
    } else if !in_quotes && c == ' ' {
        if cur.len() > 0 {
            (done.push(cur), Seq::empty(), in_quotes, quote)
        } else {
            st
        }
    } else {
        (done, cur.push(c), in_quotes, quote)
    }
}

/// The state after reading all of `s`, from the left.
pub open spec fn split_state(s: Seq<char>) -> (Seq<Seq<char>>, Seq<char>, bool, char)
    decreases s.len(),
{
    if s.len() == 0 {
        (Seq::empty(), Seq::empty(), false, ' ')
    } else {
        split_step(split_state(s.drop_last()), s.last())
    }
}

/// The arguments in `s`: quotes group characters and are dropped, an
/// unquoted space ends an argument, and empty arguments are left out.
pub open spec fn shell_split_spec(s: Seq<char>) -> Seq<Seq<char>> {
    let st = split_state(s);
    if st.1.len() > 0 {
        st.0.push(st.1)
    } else {
        st.0
    }
}

/// The arguments in `s`: quotes group characters and are dropped, an
/// unquoted space ends an argument, and empty arguments are left out.
pub fn shell_split(s: &str) -> (r: Vec<String>)
    ensures
        string_views(r@) == shell_split_spec(s@),
{
    let v = chars_of(s);
    let mut result: Vec<String> = Vec::new();
    let mut current: Vec<char> = Vec::new();
    let mut in_quotes = false;
    let mut quote_char = ' ';
    let mut i: usize = 0;
    while i < v.len()
        invariant
            i <= v.len(),
            v@ == s@,
            split_state(v@.take(i as int)) == (
                string_views(result@),
                current@,
                in_quotes,
                quote_char,
            ),
        decreases v.len() - i,
    {
        let c = v[i];
        assert(v@.take(i + 1).drop_last() == v@.take(i as int));
        if !in_quotes && (c == '"' || c == '\'') {
            in_quotes = true;
            quote_char = c;
        } else if in_quotes && c == quote_char {
            in_quotes = false;
        } else if !in_quotes && c == ' ' {
            if current.len() > 0 {
                let ghost old_result = result@;
                result.push(string_of(&current));
                current = Vec::new();
                assert(string_views(result@) == string_views(old_result).push(result@.last()@));
            }
        } else {
            current.push(c);
        }
        i = i + 1;
    }
    assert(v@.take(v.len() as int) == v@);
    if current.len() > 0 {
        let ghost old_result = result@;
        result.push(string_of(&current));
        assert(string_views(result@) == string_views(old_result).push(result@.last()@));
    }
    result
}

/// Whether no character of `t` is white space.
pub open spec fn no_ws(t: Seq<char>) -> bool {
    forall|j: int| 0 <= j < t.len() ==> !is_ws(#[trigger] t[j])
}

/// Cutting a text without white space leaves arguments that are not empty
/// and hold no white space.
proof fn lemma_split_state_parts(s: Seq<char>)
    requires
        no_ws(s),
    ensures
        forall|i: int|
            0 <= i < split_state(s).0.len() ==> (#[trigger] split_state(s).0[i]).len() > 0 && no_ws(
                split_state(s).0[i],
            ),
        no_ws(split_state(s).1),
    decreases s.len(),
{
    if s.len() > 0 {
        let s0 = s.drop_last();
        assert(no_ws(s0)) by {
            assert forall|j: int| 0 <= j < s0.len() implies !is_ws(#[trigger] s0[j]) by {
                assert(s0[j] == s[j]);
            }
        }
        lemma_split_state_parts(s0);
        assert(!is_ws(s[s.len() - 1]));
        let st = split_state(s0);
        let c = s.last();
        assert(split_state(s) == split_step(st, c));
        if !st.2 && (c == '"' || c == '\'') {
        } else if st.2 && c == st.3 {
        } else if !st.2 && c == ' ' {
        } else {
            assert(no_ws(st.1.push(c))) by {
                assert forall|j: int| 0 <= j < st.1.len() + 1 implies !is_ws(
                    #[trigger] st.1.push(c)[j],
                ) by {
                    if j < st.1.len() {
                        assert(st.1.push(c)[j] == st.1[j]);
                    }
                }
            }
        }
    }
}

/// The arguments of a word without white space are not empty and hold no
/// white space.
pub proof fn lemma_split_args_are_words(s: Seq<char>)
    requires
        no_ws(s),
    ensures
        forall|i: int|
            0 <= i < shell_split_spec(s).len() ==> (#[trigger] shell_split_spec(s)[i]).len() > 0
                && no_ws(shell_split_spec(s)[i]),
{
    lemma_split_state_parts(s);
}

/// A word without spaces or quotes is one argument, as it stands.
pub proof fn lemma_plain_word_is_one_arg(s: Seq<char>)
    requires
        s.len() > 0,
        forall|j: int| 0 <= j < s.len() ==> #[trigger] s[j] != ' ' && s[j] != '"' && s[j] != '\'',
    ensures
        shell_split_spec(s) == seq![s],
{
    lemma_plain_state(s);
}

proof fn lemma_plain_state(s: Seq<char>)
    requires
        forall|j: int| 0 <= j < s.len() ==> #[trigger] s[j] != ' ' && s[j] != '"' && s[j] != '\'',
    ensures
        split_state(s) == (Seq::<Seq<char>>::empty(), s, false, ' '),
    decreases s.len(),
{
    if s.len() > 0 {
        let s0 = s.drop_last();
        assert forall|j: int| 0 <= j < s0.len() implies #[trigger] s0[j] != ' ' && s0[j] != '"'
            && s0[j] != '\'' by {
            assert(s0[j] == s[j]);
        }
        lemma_plain_state(s0);
        assert(s[s.len() - 1] != ' ');
        assert(s0.push(s.last()) == s);
    }
}

/// The pieces of `s` between spaces, empty pieces included.
pub open spec fn space_pieces(s: Seq<char>) -> Seq<Seq<char>>
    decreases s.len(),
{
    if s.len() == 0 {
        seq![Seq::empty()]
    } else {
        let r = space_pieces(s.drop_last());
        if s.last() == ' ' {
            r.push(Seq::empty())
        } else {
            r.update(r.len() - 1, r.last().push(s.last()))
        }
    }
}

/// The pieces that are not empty, in order.
pub open spec fn drop_empty(ps: Seq<Seq<char>>) -> Seq<Seq<char>>
    decreases ps.len(),
{
    if ps.len() == 0 {
        Seq::empty()
    } else if ps.last().len() > 0 {
        drop_empty(ps.drop_last()).push(ps.last())
    } else {
        drop_empty(ps.drop_last())
    }
}

proof fn lemma_space_pieces_nonempty(s: Seq<char>)
    ensures
        space_pieces(s).len() >= 1,
    decreases s.len(),
{
    if s.len() > 0 {
        lemma_space_pieces_nonempty(s.drop_last());
    }
}

/// Without quotes, cutting reads the pieces between spaces.
proof fn lemma_unquoted_state(s: Seq<char>)
    requires
        forall|j: int| 0 <= j < s.len() ==> #[trigger] s[j] != '"' && s[j] != '\'',
    ensures
        split_state(s) == (
            drop_empty(space_pieces(s).drop_last()),
            space_pieces(s).last(),
            false,
            ' ',
        ),
    decreases s.len(),
{
    if s.len() > 0 {
        let s0 = s.drop_last();
        assert forall|j: int| 0 <= j < s0.len() implies #[trigger] s0[j] != '"' && s0[j] != '\''
            by {
            assert(s0[j] == s[j]);
        }
        lemma_unquoted_state(s0);
        lemma_space_pieces_nonempty(s0);
        let r = space_pieces(s0);
        let c = s.last();
        assert(s[s.len() - 1] != '"' && s[s.len() - 1] != '\'');
        if c == ' ' {
            assert(space_pieces(s).drop_last() == r);
            assert(r == r.drop_last().push(r.last()));
        } else {
            assert(space_pieces(s).drop_last() == r.drop_last());
        }
    }
}

/// Text without quotes is cut at each space alone (a tab stays inside its
/// argument), and empty pieces are left out.
pub proof fn lemma_unquoted_text_splits_at_spaces(s: Seq<char>)
    requires
        forall|j: int| 0 <= j < s.len() ==> #[trigger] s[j] != '"' && s[j] != '\'',
    ensures
        shell_split_spec(s) == drop_empty(space_pieces(s)),
{
    lemma_unquoted_state(s);
    lemma_space_pieces_nonempty(s);
    let p = space_pieces(s);
    assert(p == p.drop_last().push(p.last()));
}

/// The words of a text hold no white space, and none is empty.
proof fn lemma_words_state_parts(s: Seq<char>)
    ensures
        forall|i: int|
            0 <= i < words_state(s).0.len() ==> (#[trigger] words_state(s).0[i]).len() > 0 && no_ws(
                words_state(s).0[i],
            ),
        no_ws(words_state(s).1),
    decreases s.len(),
{
    if s.len() > 0 {
        lemma_words_state_parts(s.drop_last());
        let st = words_state(s.drop_last());
        let c = s.last();
        if !is_ws(c) {
            assert(no_ws(st.1.push(c))) by {
                assert forall|j: int| 0 <= j < st.1.len() + 1 implies !is_ws(
                    #[trigger] st.1.push(c)[j],
                ) by {
                    if j < st.1.len() {
                        assert(st.1.push(c)[j] == st.1[j]);
                    }
                }
            }
        }
    }
}

/// The arguments of words that hold no white space are not empty and hold
/// no white space.
proof fn lemma_split_words_parts(words: Seq<Seq<char>>)
    requires
        forall|i: int| 0 <= i < words.len() ==> no_ws(#[trigger] words[i]),
    ensures
        forall|i: int|
            0 <= i < split_words(words).len() ==> (#[trigger] split_words(words)[i]).len() > 0
                && no_ws(split_words(words)[i]),
    decreases words.len(),
{
    if words.len() > 0 {
        let w0 = words.drop_last();
        assert forall|i: int| 0 <= i < w0.len() implies no_ws(#[trigger] w0[i]) by {
            assert(w0[i] == words[i]);
        }
        lemma_split_words_parts(w0);
        assert(no_ws(words[words.len() - 1]));
        lemma_split_args_are_words(words.last());
        let a = split_words(w0);
        let b = shell_split_spec(words.last());
        assert forall|i: int| 0 <= i < (a + b).len() implies (#[trigger] (a + b)[i]).len() > 0
            && no_ws((a + b)[i]) by {
            if i >= a.len() {
                assert((a + b)[i] == b[i - a.len()]);
            }
        }
    }
}

/// Every argument of a line is a nonempty run of characters without white
/// space: quotes group characters within a word, never across white space.
pub proof fn lemma_tokens_are_words(input: Seq<char>)
    ensures
        forall|i: int|
            0 <= i < tokenize_spec(input).len() ==> (#[trigger] tokenize_spec(input)[i]).len() > 0
                && no_ws(tokenize_spec(input)[i]),
{
    lemma_words_state_parts(input);
    let st = words_state(input);
    let words = split_ws(input);
    assert forall|i: int| 0 <= i < words.len() implies no_ws(#[trigger] words[i]) by {
        if st.1.len() > 0 && i == st.0.len() {
            assert(words[i] == st.1);
        } else {
            assert(words[i] == st.0[i]);
        }
    }
    lemma_split_words_parts(words);
}

/// The arguments of each word, one word after the other.
pub open spec fn split_words(words: Seq<Seq<char>>) -> Seq<Seq<char>>
    decreases words.len(),
{
    if words.len() == 0 {
        Seq::empty()
    } else {
        split_words(words.drop_last()) + shell_split_spec(words.last())
    }
}

/// The arguments of a line: its white-space separated words, each cut by
/// `shell_split`.
pub open spec fn tokenize_spec(input: Seq<char>) -> Seq<Seq<char>> {
    split_words(split_ws(input))
}

/// The arguments of a line: its white-space separated words, each cut by
/// `shell_split`.
pub fn tokenize(input: &str) -> (r: Vec<String>)
    ensures
        string_views(r@) == tokenize_spec(input@),
{
    let words = split_whitespace_chars(&chars_of(input));
    let ghost wv = words@.map_values(|w: Vec<char>| w@);
    let mut out: Vec<String> = Vec::new();
    let mut i: usize = 0;
    assert(wv.take(0) == Seq::<Seq<char>>::empty());
    while i < words.len()
        invariant
            i <= words.len(),
            wv == words@.map_values(|w: Vec<char>| w@),
            wv == split_ws(input@),
            string_views(out@) == split_words(wv.take(i as int)),
        decreases words.len() - i,
    {
        let parts = shell_split(string_of(&words[i]).as_str());
        let mut j: usize = 0;
        let ghost before = string_views(out@);
        while j < parts.len()
            invariant
                j <= parts.len(),
                string_views(out@) == before + string_views(parts@).take(j as int),
            decreases parts.len() - j,
        {
            let ghost old_out = out@;
            out.push(string_of(&chars_of(parts[j].as_str())));
            j = j + 1;
            assert(string_views(out@) == string_views(old_out).push(out@.last()@));
            assert(string_views(parts@).take(j as int) == string_views(parts@).take(j - 1).push(
                parts@[j - 1]@,
            ));
        }
        assert(string_views(parts@).take(parts.len() as int) == string_views(parts@));
        assert(wv.take(i + 1).drop_last() == wv.take(i as int));
        assert(wv.take(i + 1).last() == words@[i as int]@);
        i = i + 1;
    }
    assert(wv.take(words.len() as int) == wv);
    out
}

/// The index of the first `find` among `tokens`, or their number.
pub open spec fn find_position(tokens: Seq<Seq<char>>) -> nat
    decreases tokens.len(),
{
    if tokens.len() == 0 {
        0
    } else if tokens[0] == "find"@ {
        0
    } else {
        1 + find_position(tokens.drop_first())
    }
}

/// The arguments of a search: those after the first `find`, or all of
/// them when there is none.
pub open spec fn search_args_spec(tokens: Seq<Seq<char>>) -> Seq<Seq<char>> {
    let k = find_position(tokens);
    if k < tokens.len() {
        tokens.skip((k + 1) as int)
    } else {
        tokens
    }
}

proof fn lemma_find_position(tokens: Seq<Seq<char>>, i: int)
    requires
        0 <= i <= tokens.len(),
        forall|k: int| 0 <= k < i ==> tokens[k] != "find"@,
        i == tokens.len() || tokens[i] == "find"@,
    ensures
        find_position(tokens) == i,
    decreases i,
{
    if i > 0 {
        lemma_find_position(tokens.drop_first(), i - 1);
    }
}

/// Reading `x`, a space, then `y` gives the words of `x` followed by what
/// reading `y` alone gives.
proof fn lemma_words_state_join(x: Seq<char>, y: Seq<char>)
    ensures
        words_state(x + seq![' '] + y) == (split_ws(x) + words_state(y).0, words_state(y).1),
    decreases y.len(),
{
    let xs = x + seq![' '];
    assert(is_ws(' '));
    if y.len() == 0 {
        assert(x + seq![' '] + y == xs);
        assert(xs.drop_last() == x);
        assert(xs.last() == ' ');
    } else {
        let y0 = y.drop_last();
        lemma_words_state_join(x, y0);
        assert((x + seq![' '] + y).drop_last() == x + seq![' '] + y0);
        assert((x + seq![' '] + y).last() == y.last());
        let w = split_ws(x);
        let st = words_state(y0);
        if is_ws(y.last()) && st.1.len() > 0 {
            assert((w + st.0).push(st.1) == w + st.0.push(st.1));
        }
    }
}

/// The words of `x`, a space, then `y` are those of `x` followed by those
/// of `y`.
proof fn lemma_split_ws_join(x: Seq<char>, y: Seq<char>)
    ensures
        split_ws(x + seq![' '] + y) == split_ws(x) + split_ws(y),
{
    lemma_words_state_join(x, y);
    let st = words_state(y);
    if st.1.len() > 0 {
        assert((split_ws(x) + st.0).push(st.1) == split_ws(x) + st.0.push(st.1));
    }
}

/// The arguments of two lists of words are those of the first list, then
/// those of the second.
proof fn lemma_split_words_concat(w1: Seq<Seq<char>>, w2: Seq<Seq<char>>)
    ensures
        split_words(w1 + w2) == split_words(w1) + split_words(w2),
    decreases w2.len(),
{
    if w2.len() == 0 {
        assert(w1 + w2 == w1);
    } else {
        lemma_split_words_concat(w1, w2.drop_last());
        assert((w1 + w2).drop_last() == w1 + w2.drop_last());
        assert((w1 + w2).last() == w2.last());
    }
}

/// A word without white space reads as itself, not yet ended.
proof fn lemma_single_word_state(w: Seq<char>)
    requires
        no_ws(w),
    ensures
        words_state(w) == (Seq::<Seq<char>>::empty(), w),
    decreases w.len(),
{
    if w.len() > 0 {
        let w0 = w.drop_last();
        assert(no_ws(w0)) by {
            assert forall|j: int| 0 <= j < w0.len() implies !is_ws(#[trigger] w0[j]) by {
                assert(w0[j] == w[j]);
            }
        }
        lemma_single_word_state(w0);
        assert(!is_ws(w[w.len() - 1]));
        assert(w0.push(w.last()) == w);
    }
}

/// The arguments of a line with a word `find` between `a` and `b` are
/// those of `a`, then `find`, then those of `b`; when neither `a` nor `b`
/// has an argument `find`, the search reads the arguments of `b` alone.
pub proof fn lemma_find_line(a: Seq<char>, b: Seq<char>)
    ensures
        tokenize_spec(a + seq![' ', 'f', 'i', 'n', 'd', ' '] + b) == tokenize_spec(a) + seq![
            "find"@,
        ] + tokenize_spec(b),
        !tokenize_spec(a).contains("find"@) && !tokenize_spec(b).contains("find"@)
            ==> search_args_spec(tokenize_spec(a + seq![' ', 'f', 'i', 'n', 'd', ' '] + b))
            == search_args_spec(tokenize_spec(b)),
{
    reveal_strlit("find");
    let f = seq!['f', 'i', 'n', 'd'];
    assert(f == "find"@);
    let line = a + seq![' ', 'f', 'i', 'n', 'd', ' '] + b;
    let rest = f + seq![' '] + b;
    assert(line == a + seq![' '] + rest);
    lemma_split_ws_join(a, rest);
    lemma_split_ws_join(f, b);
    assert(no_ws(f)) by {
        assert forall|j: int| 0 <= j < f.len() implies !is_ws(#[trigger] f[j]) by {
            assert(f[j] == 'f' || f[j] == 'i' || f[j] == 'n' || f[j] == 'd');
        }
    }
    lemma_single_word_state(f);
    assert(split_ws(f) == seq![f]);
    assert forall|j: int| 0 <= j < f.len() implies #[trigger] f[j] != ' ' && f[j] != '"' && f[j]
        != '\'' by {
        assert(f[j] == 'f' || f[j] == 'i' || f[j] == 'n' || f[j] == 'd');
    }
    lemma_plain_word_is_one_arg(f);
    assert(seq![f].drop_last() == Seq::<Seq<char>>::empty());
    assert(seq![f].last() == f);
    assert(split_words(Seq::<Seq<char>>::empty()) == Seq::<Seq<char>>::empty());
    assert(Seq::<Seq<char>>::empty() + seq![f] == seq![f]);
    assert(split_words(seq![f]) == seq![f]);
    let wa = split_ws(a);
    let wb = split_ws(b);
    assert(split_ws(line) == wa + (seq![f] + wb));
    lemma_split_words_concat(wa, seq![f] + wb);
    lemma_split_words_concat(seq![f], wb);
    assert(tokenize_spec(line) == tokenize_spec(a) + seq![f] + tokenize_spec(b));
    if !tokenize_spec(a).contains("find"@) && !tokenize_spec(b).contains("find"@) {
        lemma_words_before_find_dropped(tokenize_spec(a), tokenize_spec(b));
    }
}

/// The arguments before the first `find` are dropped, with the `find`; a
/// list without `find` is taken whole.
pub proof fn lemma_words_before_find_dropped(a: Seq<Seq<char>>, b: Seq<Seq<char>>)
    requires
        !a.contains("find"@),
    ensures
        search_args_spec(a + seq!["find"@] + b) == b,
        !b.contains("find"@) ==> search_args_spec(b) == b,
{
    let t = a + seq!["find"@] + b;
    assert forall|k: int| 0 <= k < a.len() implies t[k] != "find"@ by {
        assert(t[k] == a[k]);
    }
    assert(t[a.len() as int] == "find"@);
    lemma_find_position(t, a.len() as int);
    assert(t.skip((a.len() + 1) as int) == b);
    if !b.contains("find"@) {
        assert forall|k: int| 0 <= k < b.len() implies b[k] != "find"@ by {
            if b[k] == "find"@ {
                assert(b.contains("find"@));
            }
        }
        lemma_find_position(b, b.len() as int);
    }
}

/// The arguments of a search: those after the first `find`, or all of
/// them when there is none.
pub fn search_args(tokens: &Vec<String>) -> (r: Vec<String>)
    ensures
        string_views(r@) == search_args_spec(string_views(tokens@)),
{
    let ghost tv = string_views(tokens@);
    let mut k: usize = 0;
    while k < tokens.len() && !str_eq(tokens[k].as_str(), "find")
        invariant
            k <= tokens.len(),
            tv == string_views(tokens@),
            forall|j: int| 0 <= j < k ==> tv[j] != "find"@,
        decreases tokens.len() - k,
    {
        k = k + 1;
    }
    proof {
        lemma_find_position(tv, k as int);
    }
    let start = if k < tokens.len() {
        k + 1
    } else {
        0
    };
    let mut out: Vec<String> = Vec::new();
    let mut i = start;
    while i < tokens.len()
        invariant
            start <= i <= tokens.len(),
            tv == string_views(tokens@),
            string_views(out@) == tv.subrange(start as int, i as int),
        decreases tokens.len() - i,
    {
        let ghost old_out = out@;
        out.push(string_of(&chars_of(tokens[i].as_str())));
        i = i + 1;
        assert(string_views(out@) == string_views(old_out).push(out@.last()@));
        assert(tv.subrange(start as int, i as int) == tv.subrange(start as int, i - 1).push(
            tv[i - 1],
        ));
    }
    out
}

/// Why the arguments of a search cannot be used.
#[derive(Debug, Clone, Copy, PartialEq, Eq)]
pub enum ArgsError {
    /// `-h` or `--help` was given: show the help instead of searching.
    HelpRequested,
    /// The value of `--max-depth` is not a number.
    InvalidMaxDepth(IntErrorKind),
}

/// The options read so far.
pub struct ArgsView {
    pub path: Seq<char>,
    pub name: Option<Seq<char>>,
    pub ext: Option<Seq<char>>,
    pub size: Option<Seq<char>>,
    pub regex: bool,
    pub ignore_git: bool,
    pub ignore_node: bool,
    pub max_depth: Option<usize>,
    pub interactive: bool,
}

/// Before any argument: search `/`, skipping `.git` and `node_modules`.
pub open spec fn initial_args() -> ArgsView {
    ArgsView {
        path: seq!['/'],
        name: None,
        ext: None,
        size: None,
        regex: false,
        ignore_git: true,
        ignore_node: true,
        max_depth: None,
        interactive: false,
    }
}

/// Whether an argument looks like a path: it names an existing file, is
/// `.` or `..`, or begins with `/` or `~/`, or holds a `/`.
pub open spec fn looks_like_path(a: Seq<char>, on_disk: bool) -> bool {
    ||| on_disk
    ||| a == seq!['.']
    ||| a == seq!['.', '.']
    ||| (a.len() > 0 && a[0] == '/')
    ||| (a.len() > 1 && a[0] == '~' && a[1] == '/')
    ||| a.contains('/')
}

/// Reading the arguments from position `i` on, with `st` read so far;
/// `on_disk[k]` tells whether argument `k` names an existing file.
pub open spec fn read_args(args: Seq<Seq<char>>, on_disk: Seq<bool>, i: int, st: ArgsView) -> Result<
    ArgsView,
    ArgsError,
>
    decreases args.len() - i,
{
    if i < 0 || i >= args.len() {
        Ok(st)
    } else {
        let a = args[i];
        let has_value = i + 1 < args.len();
        if a == "-n"@ || a == "--name"@ {
            if has_value {
                read_args(args, on_disk, i + 2, ArgsView { name: Some(args[i + 1]), ..st })
            } else {
                read_args(args, on_disk, i + 1, st)
            }
        } else if a == "-e"@ || a == "--ext"@ {
            if has_value {
                read_args(args, on_disk, i + 2, ArgsView { ext: Some(args[i + 1]), ..st })
            } else {
                read_args(args, on_disk, i + 1, st)
            }
        } else if a == "-s"@ || a == "--size"@ {
            if has_value {
                read_args(args, on_disk, i + 2, ArgsView { size: Some(args[i + 1]), ..st })
            } else {
                read_args(args, on_disk, i + 1, st)
            }
        } else if a == "-r"@ || a == "--regex"@ {
            read_args(args, on_disk, i + 1, ArgsView { regex: true, ..st })
        } else if a == "--ignore-git"@ {
            read_args(args, on_disk, i + 1, ArgsView { ignore_git: true, ..st })
        } else if a == "--ignore-node"@ {
            read_args(args, on_disk, i + 1, ArgsView { ignore_node: true, ..st })
        } else if a == "--max-depth"@ {
            if has_value {
                match parse_usize_spec(args[i + 1]) {
                    Ok(n) => read_args(args, on_disk, i + 2, ArgsView { max_depth: Some(n), ..st }),
                    Err(k) => Err(ArgsError::InvalidMaxDepth(k)),
                }
            } else {
                read_args(args, on_disk, i + 1, st)
            }
        } else if a == "-i"@ || a == "--interactive"@ {
            read_args(args, on_disk, i + 1, ArgsView { interactive: true, ..st })
        } else if a == "-h"@ || a == "--help"@ {
            Err(ArgsError::HelpRequested)
        } else if a.len() > 0 && a[0] == '-' {
            read_args(args, on_disk, i + 1, st)
        } else if is_root_spec(st.path) && looks_like_path(a, on_disk[i]) {
            read_args(args, on_disk, i + 1, ArgsView { path: a, ..st })
        } else if st.name is None {
            read_args(args, on_disk, i + 1, ArgsView { name: Some(a), ..st })
        } else {
            read_args(args, on_disk, i + 1, st)
        }
    }
}

/// Reading arguments never turns off the skipping of `.git` and
/// `node_modules`: no argument does so.
proof fn lemma_read_args_keeps_skip_flags(
    args: Seq<Seq<char>>,
    on_disk: Seq<bool>,
    i: int,
    st: ArgsView,
)
    requires
        st.ignore_git,
        st.ignore_node,
    ensures
        read_args(args, on_disk, i, st) matches Ok(v) ==> v.ignore_git && v.ignore_node,
    decreases args.len() - i,
{
    if 0 <= i < args.len() {
        let a = args[i];
        let has_value = i + 1 < args.len();
        if a == "-n"@ || a == "--name"@ {
            if has_value {
                lemma_read_args_keeps_skip_flags(
                    args,
                    on_disk,
                    i + 2,
                    ArgsView { name: Some(args[i + 1]), ..st },
                );
            } else {
                lemma_read_args_keeps_skip_flags(args, on_disk, i + 1, st);
            }
        } else if a == "-e"@ || a == "--ext"@ {
            if has_value {
                lemma_read_args_keeps_skip_flags(
                    args,
                    on_disk,
                    i + 2,
                    ArgsView { ext: Some(args[i + 1]), ..st },
                );
            } else {
                lemma_read_args_keeps_skip_flags(args, on_disk, i + 1, st);
            }
        } else if a == "-s"@ || a == "--size"@ {
            if has_value {
                lemma_read_args_keeps_skip_flags(
                    args,
                    on_disk,
                    i + 2,
                    ArgsView { size: Some(args[i + 1]), ..st },
                );
            } else {
                lemma_read_args_keeps_skip_flags(args, on_disk, i + 1, st);
            }
        } else if a == "-r"@ || a == "--regex"@ {
            lemma_read_args_keeps_skip_flags(args, on_disk, i + 1, ArgsView { regex: true, ..st });
        } else if a == "--ignore-git"@ {
            lemma_read_args_keeps_skip_flags(
                args,
                on_disk,
                i + 1,
                ArgsView { ignore_git: true, ..st },
            );
        } else if a == "--ignore-node"@ {
            lemma_read_args_keeps_skip_flags(
                args,
                on_disk,
                i + 1,
                ArgsView { ignore_node: true, ..st },
            );
        } else if a == "--max-depth"@ {
            if has_value {
                match parse_usize_spec(args[i + 1]) {
                    Ok(n) => lemma_read_args_keeps_skip_flags(
                        args,
                        on_disk,
                        i + 2,
                        ArgsView { max_depth: Some(n), ..st },
                    ),
                    Err(_) => {},
                }
            } else {
                lemma_read_args_keeps_skip_flags(args, on_disk, i + 1, st);
            }
        } else if a == "-i"@ || a == "--interactive"@ {
            lemma_read_args_keeps_skip_flags(
                args,
                on_disk,
                i + 1,
                ArgsView { interactive: true, ..st },
            );
        } else if a == "-h"@ || a == "--help"@ {
        } else if a.len() > 0 && a[0] == '-' {
            lemma_read_args_keeps_skip_flags(args, on_disk, i + 1, st);
        } else if is_root_spec(st.path) && looks_like_path(a, on_disk[i]) {
            lemma_read_args_keeps_skip_flags(args, on_disk, i + 1, ArgsView { path: a, ..st });
        } else if st.name is None {
            lemma_read_args_keeps_skip_flags(
                args,
                on_disk,
                i + 1,
                ArgsView { name: Some(a), ..st },
            );
        } else {
            lemma_read_args_keeps_skip_flags(args, on_disk, i + 1, st);
        }
    }
}

/// Whether an argument asks for help or gives the recursion depth, the only
/// arguments that can make reading fail.
pub open spec fn is_help_or_depth(a: Seq<char>) -> bool {
    a == "-h"@ || a == "--help"@ || a == "--max-depth"@
}

/// Whether an argument is an option that takes the next argument as its
/// value: a name pattern, an extension or a size range.
pub open spec fn takes_value(a: Seq<char>) -> bool {
    a == "-n"@ || a == "--name"@ || a == "-e"@ || a == "--ext"@ || a == "-s"@ || a == "--size"@
}

/// Whether `w1` or `w2` is among the arguments from position `i` on.
pub open spec fn has_word_from(args: Seq<Seq<char>>, i: int, w1: Seq<char>, w2: Seq<char>) -> bool
    decreases args.len() - i,
{
    if i < 0 || i >= args.len() {
        false
    } else {
        args[i] == w1 || args[i] == w2 || has_word_from(args, i + 1, w1, w2)
    }
}

proof fn lemma_has_word_from(args: Seq<Seq<char>>, i: int, w1: Seq<char>, w2: Seq<char>)
    requires
        0 <= i <= args.len(),
    ensures
        has_word_from(args, i, w1, w2) <==> exists|k: int|
            i <= k < args.len() && (#[trigger] args[k] == w1 || args[k] == w2),
    decreases args.len() - i,
{
    if i < args.len() {
        lemma_has_word_from(args, i + 1, w1, w2);
        if has_word_from(args, i + 1, w1, w2) {
            let k = choose|k: int|
                i + 1 <= k < args.len() && (#[trigger] args[k] == w1 || args[k] == w2);
            assert(i <= k < args.len() && (args[k] == w1 || args[k] == w2));
        }
        if args[i] == w1 || args[i] == w2 {
            assert(i <= i < args.len() && (args[i] == w1 || args[i] == w2));
        }
    }
}

/// Reading never fails unless an argument asks for help or gives the
/// recursion depth.
proof fn lemma_read_args_ok(args: Seq<Seq<char>>, on_disk: Seq<bool>, i: int, st: ArgsView)
    requires
        forall|k: int| 0 <= k < args.len() ==> !is_help_or_depth(#[trigger] args[k]),
    ensures
        read_args(args, on_disk, i, st) is Ok,
    decreases args.len() - i,
{
    if 0 <= i < args.len() {
        let a = args[i];
        assert(!is_help_or_depth(a));
        let has_value = i + 1 < args.len();
        if a == "-n"@ || a == "--name"@ {
            if has_value {
                let next = ArgsView { name: Some(args[i + 1]), ..st };
                lemma_read_args_ok(args, on_disk, i + 2, next);
            } else {
                lemma_read_args_ok(args, on_disk, i + 1, st);
            }
        } else if a == "-e"@ || a == "--ext"@ {
            if has_value {
                let next = ArgsView { ext: Some(args[i + 1]), ..st };
                lemma_read_args_ok(args, on_disk, i + 2, next);
            } else {
                lemma_read_args_ok(args, on_disk, i + 1, st);
            }
        } else if a == "-s"@ || a == "--size"@ {
            if has_value {
                let next = ArgsView { size: Some(args[i + 1]), ..st };
                lemma_read_args_ok(args, on_disk, i + 2, next);
            } else {
                lemma_read_args_ok(args, on_disk, i + 1, st);
            }
        } else if a == "-r"@ || a == "--regex"@ {
            lemma_read_args_ok(args, on_disk, i + 1, ArgsView { regex: true, ..st });
        } else if a == "--ignore-git"@ {
            lemma_read_args_ok(args, on_disk, i + 1, ArgsView { ignore_git: true, ..st });
        } else if a == "--ignore-node"@ {
            lemma_read_args_ok(args, on_disk, i + 1, ArgsView { ignore_node: true, ..st });
        } else if a == "-i"@ || a == "--interactive"@ {
            lemma_read_args_ok(args, on_disk, i + 1, ArgsView { interactive: true, ..st });
        } else if a.len() > 0 && a[0] == '-' {
            lemma_read_args_ok(args, on_disk, i + 1, st);
        } else if is_root_spec(st.path) && looks_like_path(a, on_disk[i]) {
            lemma_read_args_ok(args, on_disk, i + 1, ArgsView { path: a, ..st });
        } else if st.name is None {
            lemma_read_args_ok(args, on_disk, i + 1, ArgsView { name: Some(a), ..st });
        } else {
            lemma_read_args_ok(args, on_disk, i + 1, st);
        }
    }
}

/// Without options that take a value, help or a depth, reading succeeds:
/// `-r`/`--regex` and `-i`/`--interactive` turn their flags on wherever
/// they stand, and the extension, size and depth stay as they were.
proof fn lemma_read_args_flags(args: Seq<Seq<char>>, on_disk: Seq<bool>, i: int, st: ArgsView)
    requires
        0 <= i,
        forall|k: int|
            0 <= k < args.len() ==> !is_help_or_depth(#[trigger] args[k]) && !takes_value(args[k]),
    ensures
        read_args(args, on_disk, i, st) matches Ok(v) && {
            &&& v.regex == (st.regex || has_word_from(args, i, "-r"@, "--regex"@))
            &&& v.interactive == (st.interactive || has_word_from(args, i, "-i"@, "--interactive"@))
            &&& v.ext == st.ext
            &&& v.size == st.size
            &&& v.max_depth == st.max_depth
        },
    decreases args.len() - i,
{
    reveal_strlit("-r");
    reveal_strlit("--regex");
    reveal_strlit("-i");
    reveal_strlit("--interactive");
    reveal_strlit("--ignore-git");
    reveal_strlit("--ignore-node");
    assert("-r"@[1] != "-i"@[1]);
    assert("--ignore-node"@[3] != "--interactive"@[3]);
    assert("--ignore-git"@.len() != "--interactive"@.len());
    assert("--ignore-git"@.len() != "--regex"@.len());
    assert("--ignore-node"@.len() != "--regex"@.len());
    if i < args.len() {
        let a = args[i];
        assert(!is_help_or_depth(a) && !takes_value(a));
        if !(a.len() > 0 && a[0] == '-') {
            assert(a != "-r"@ && a != "--regex"@ && a != "-i"@ && a != "--interactive"@) by {
                assert("-r"@[0] == '-' && "--regex"@[0] == '-');
                assert("-i"@[0] == '-' && "--interactive"@[0] == '-');
            }
        }
        assert(has_word_from(args, i, "-r"@, "--regex"@) == (a == "-r"@ || a == "--regex"@
            || has_word_from(args, i + 1, "-r"@, "--regex"@)));
        assert(has_word_from(args, i, "-i"@, "--interactive"@) == (a == "-i"@ || a
            == "--interactive"@ || has_word_from(args, i + 1, "-i"@, "--interactive"@)));
        if a == "-r"@ || a == "--regex"@ {
            lemma_read_args_flags(args, on_disk, i + 1, ArgsView { regex: true, ..st });
        } else if a == "--ignore-git"@ {
            lemma_read_args_flags(args, on_disk, i + 1, ArgsView { ignore_git: true, ..st });
        } else if a == "--ignore-node"@ {
            lemma_read_args_flags(args, on_disk, i + 1, ArgsView { ignore_node: true, ..st });
        } else if a == "-i"@ || a == "--interactive"@ {
            lemma_read_args_flags(args, on_disk, i + 1, ArgsView { interactive: true, ..st });
        } else if a.len() > 0 && a[0] == '-' {
            lemma_read_args_flags(args, on_disk, i + 1, st);
        } else if is_root_spec(st.path) && looks_like_path(a, on_disk[i]) {
            lemma_read_args_flags(args, on_disk, i + 1, ArgsView { path: a, ..st });
        } else if st.name is None {
            lemma_read_args_flags(args, on_disk, i + 1, ArgsView { name: Some(a), ..st });
        } else {
            lemma_read_args_flags(args, on_disk, i + 1, st);
        }
    }
}

/// Reading from position `j` on looks only at the arguments from `j` on.
proof fn lemma_read_args_from(
    args: Seq<Seq<char>>,
    args2: Seq<Seq<char>>,
    on_disk: Seq<bool>,
    j: int,
    st: ArgsView,
)
    requires
        0 <= j,
        args.len() == args2.len(),
        forall|k: int| j <= k < args.len() ==> #[trigger] args[k] == args2[k],
    ensures
        read_args(args, on_disk, j, st) == read_args(args2, on_disk, j, st),
    decreases args.len() - j,
{
    if j < args.len() {
        let a = args[j];
        assert(args2[j] == a);
        let has_value = j + 1 < args.len();
        if has_value {
            assert(args2[j + 1] == args[j + 1]);
        }
        if a == "-n"@ || a == "--name"@ {
            if has_value {
                let next = ArgsView { name: Some(args[j + 1]), ..st };
                lemma_read_args_from(args, args2, on_disk, j + 2, next);
            } else {
                lemma_read_args_from(args, args2, on_disk, j + 1, st);
            }
        } else if a == "-e"@ || a == "--ext"@ {
            if has_value {
                let next = ArgsView { ext: Some(args[j + 1]), ..st };
                lemma_read_args_from(args, args2, on_disk, j + 2, next);
            } else {
                lemma_read_args_from(args, args2, on_disk, j + 1, st);
            }
        } else if a == "-s"@ || a == "--size"@ {
            if has_value {
                let next = ArgsView { size: Some(args[j + 1]), ..st };
                lemma_read_args_from(args, args2, on_disk, j + 2, next);
            } else {
                lemma_read_args_from(args, args2, on_disk, j + 1, st);
            }
        } else if a == "-r"@ || a == "--regex"@ {
            lemma_read_args_from(args, args2, on_disk, j + 1, ArgsView { regex: true, ..st });
        } else if a == "--ignore-git"@ {
            lemma_read_args_from(args, args2, on_disk, j + 1, ArgsView { ignore_git: true, ..st });
        } else if a == "--ignore-node"@ {
            lemma_read_args_from(args, args2, on_disk, j + 1, ArgsView { ignore_node: true, ..st });
        } else if a == "--max-depth"@ {
            if has_value {
                match parse_usize_spec(args[j + 1]) {
                    Ok(n) => {
                        let next = ArgsView { max_depth: Some(n), ..st };
                        lemma_read_args_from(args, args2, on_disk, j + 2, next);
                    },
                    Err(_) => {},
                }
            } else {
                lemma_read_args_from(args, args2, on_disk, j + 1, st);
            }
        } else if a == "-i"@ || a == "--interactive"@ {
            lemma_read_args_from(args, args2, on_disk, j + 1, ArgsView { interactive: true, ..st });
        } else if a == "-h"@ || a == "--help"@ {
        } else if a.len() > 0 && a[0] == '-' {
            lemma_read_args_from(args, args2, on_disk, j + 1, st);
        } else if is_root_spec(st.path) && looks_like_path(a, on_disk[j]) {
            lemma_read_args_from(args, args2, on_disk, j + 1, ArgsView { path: a, ..st });
        } else if st.name is None {
            lemma_read_args_from(args, args2, on_disk, j + 1, ArgsView { name: Some(a), ..st });
        } else {
            lemma_read_args_from(args, args2, on_disk, j + 1, st);
        }
    }
}

/// Whether `long` and `short` are the two spellings of an option that takes
/// a value: `--name`/`-n`, `--ext`/`-e` or `--size`/`-s`.
pub open spec fn option_spellings(long: Seq<char>, short: Seq<char>) -> bool {
    ||| long == "--name"@ && short == "-n"@
    ||| long == "--ext"@ && short == "-e"@
    ||| long == "--size"@ && short == "-s"@
}

/// The long and short spellings of an option that takes a value are read
/// the same: writing the short one in place of the long one, where an
/// option is read, gives the same configuration.
pub proof fn lemma_long_and_short_options_agree(
    args: Seq<Seq<char>>,
    on_disk: Seq<bool>,
    i: int,
    st: ArgsView,
    long: Seq<char>,
    short: Seq<char>,
)
    requires
        0 <= i < args.len(),
        args[i] == long,
        option_spellings(long, short),
    ensures
        read_args(args, on_disk, i, st) == read_args(args.update(i, short), on_disk, i, st),
{
    reveal_strlit("-n");
    reveal_strlit("--name");
    reveal_strlit("-e");
    reveal_strlit("--ext");
    reveal_strlit("-s");
    reveal_strlit("--size");
    let args2 = args.update(i, short);
    assert(args2[i] == short);
    lemma_read_args_from(args, args2, on_disk, i + 1, st);
    if i + 1 < args.len() {
        assert(args2[i + 1] == args[i + 1]);
        if long == "--name"@ {
            lemma_read_args_from(args, args2, on_disk, i + 2, ArgsView { name: Some(args[i + 1]), ..st });
        } else if long == "--ext"@ {
            lemma_read_args_from(args, args2, on_disk, i + 2, ArgsView { ext: Some(args[i + 1]), ..st });
        } else {
            lemma_read_args_from(args, args2, on_disk, i + 2, ArgsView { size: Some(args[i + 1]), ..st });
        }
    }
    if i + 1 < args.len() {
        assert(args2[i + 1] == args[i + 1]);
    }
    assert("-n"@[1] != "-e"@[1] && "-n"@[1] != "-s"@[1] && "-e"@[1] != "-s"@[1]);
    assert("--name"@[2] != "--ext"@[2] && "--name"@[2] != "--size"@[2] && "--ext"@[2]
        != "--size"@[2]);
    assert("--name"@.len() != "-n"@.len() && "--ext"@.len() != "-e"@.len());
    assert("--name"@.len() != "-e"@.len() && "--name"@.len() != "-s"@.len());
    assert("--ext"@.len() != "-n"@.len() && "--size"@.len() != "-n"@.len());
}

/// An option that takes a value, in either spelling, followed by a value,
/// sets that value: `--ext x` or `-e x` sets the extension to `x`, `--name
/// x` or `-n x` the name pattern, `--size x` or `-s x` the size range.
pub proof fn lemma_option_sets_its_value(x: Seq<char>, on_disk: Seq<bool>, st: ArgsView)
    ensures
        read_args(seq!["--ext"@, x], on_disk, 0, st) == Ok::<ArgsView, ArgsError>(
            ArgsView { ext: Some(x), ..st },
        ),
        read_args(seq!["-e"@, x], on_disk, 0, st) == Ok::<ArgsView, ArgsError>(
            ArgsView { ext: Some(x), ..st },
        ),
        read_args(seq!["--name"@, x], on_disk, 0, st) == Ok::<ArgsView, ArgsError>(
            ArgsView { name: Some(x), ..st },
        ),
        read_args(seq!["-n"@, x], on_disk, 0, st) == Ok::<ArgsView, ArgsError>(
            ArgsView { name: Some(x), ..st },
        ),
        read_args(seq!["--size"@, x], on_disk, 0, st) == Ok::<ArgsView, ArgsError>(
            ArgsView { size: Some(x), ..st },
        ),
        read_args(seq!["-s"@, x], on_disk, 0, st) == Ok::<ArgsView, ArgsError>(
            ArgsView { size: Some(x), ..st },
        ),
{
    lemma_value_option(seq!["--ext"@, x], on_disk, st);
    lemma_value_option(seq!["-e"@, x], on_disk, st);
    lemma_value_option(seq!["--name"@, x], on_disk, st);
    lemma_value_option(seq!["-n"@, x], on_disk, st);
    lemma_value_option(seq!["--size"@, x], on_disk, st);
    lemma_value_option(seq!["-s"@, x], on_disk, st);
}

proof fn lemma_value_option(args: Seq<Seq<char>>, on_disk: Seq<bool>, st: ArgsView)
    requires
        args.len() == 2,
    ensures
        (args[0] == "--ext"@ || args[0] == "-e"@) ==> read_args(args, on_disk, 0, st) == Ok::<
            ArgsView,
            ArgsError,
        >(ArgsView { ext: Some(args[1]), ..st }),
        (args[0] == "--name"@ || args[0] == "-n"@) ==> read_args(args, on_disk, 0, st) == Ok::<
            ArgsView,
            ArgsError,
        >(ArgsView { name: Some(args[1]), ..st }),
        (args[0] == "--size"@ || args[0] == "-s"@) ==> read_args(args, on_disk, 0, st) == Ok::<
            ArgsView,
            ArgsError,
        >(ArgsView { size: Some(args[1]), ..st }),
{
    reveal_strlit("-n");
    reveal_strlit("--name");
    reveal_strlit("-e");
    reveal_strlit("--ext");
    reveal_strlit("-s");
    reveal_strlit("--size");
    assert("-n"@[1] != "-e"@[1] && "-s"@[1] != "-e"@[1] && "-s"@[1] != "-n"@[1]);
    assert("--name"@[2] != "--ext"@[2] && "--size"@[2] != "--name"@[2] && "--size"@[2]
        != "--ext"@[2]);
    assert("--size"@.len() != "-n"@.len() && "--size"@.len() != "-e"@.len());
    assert("-s"@.len() != "--name"@.len() && "-s"@.len() != "--ext"@.len());
    assert("--name"@.len() != "-n"@.len() && "--ext"@.len() != "-e"@.len());
    assert("--name"@.len() != "-e"@.len() && "--ext"@.len() != "-n"@.len());
    let a = args[0];
    if a == "-n"@ || a == "--name"@ {
        let next = ArgsView { name: Some(args[1]), ..st };
        assert(read_args(args, on_disk, 2, next) == Ok::<ArgsView, ArgsError>(next));
    } else if a == "-e"@ || a == "--ext"@ {
        let next = ArgsView { ext: Some(args[1]), ..st };
        assert(read_args(args, on_disk, 2, next) == Ok::<ArgsView, ArgsError>(next));
    } else if a == "-s"@ || a == "--size"@ {
        let next = ArgsView { size: Some(args[1]), ..st };
        assert(read_args(args, on_disk, 2, next) == Ok::<ArgsView, ArgsError>(next));
    }
}

/// The view of an optional string.
pub open spec fn opt_view(s: Option<String>) -> Option<Seq<char>> {
    match s {
        Some(v) => Some(v@),
        None => None,
    }
}

/// The size range of a `--size` value, when it can be read.
pub open spec fn range_of_view(size: Option<Seq<char>>) -> Option<SizeRange> {
    match size {
        Some(s) => match parse_range_spec(s) {
            Ok(r) => Some(r),
            Err(_) => None,
        },
        None => None,
    }
}

/// Whether `c` is the configuration that the options `v` describe.
pub open spec fn config_matches(c: SearchConfig, v: ArgsView) -> bool {
    &&& c.path@ == v.path
    &&& opt_view(c.pattern) == v.name
    &&& opt_view(c.ext) == v.ext
    &&& c.size_range == range_of_view(v.size)
    &&& c.use_regex == v.regex
    &&& c.ignore_git == v.ignore_git
    &&& c.ignore_node == v.ignore_node
    &&& c.max_depth == v.max_depth
    &&& c.interactive == v.interactive
}

/// A copy of a string.
fn copy_string(s: &String) -> (r: String)
    ensures
        r@ == s@,
{
    string_of(&chars_of(s.as_str()))
}

/// Reads the arguments of a search; `on_disk[k]` tells whether argument `k`
/// names an existing file. A lone argument that looks like a path becomes
/// the directory to search (while that is still `/`); the first other lone
/// argument becomes the name pattern.
pub fn parse_search_args(args: &Vec<String>, on_disk: &Vec<bool>) -> (r: Result<
    SearchConfig,
    ArgsError,
>)
    requires
        on_disk.len() == args.len(),
    ensures
        match read_args(string_views(args@), on_disk@, 0, initial_args()) {
            Ok(v) => r matches Ok(c) && config_matches(c, v),
            Err(e) => r == Err::<SearchConfig, ArgsError>(e),
        },
        r matches Ok(c) ==> c.ignore_git && c.ignore_node,
        (forall|k: int|
            0 <= k < args@.len() ==> !is_help_or_depth(#[trigger] string_views(args@)[k]))
            ==> r is Ok,
        (forall|k: int|
            0 <= k < args@.len() ==> !is_help_or_depth(#[trigger] string_views(args@)[k])
                && !takes_value(string_views(args@)[k])) ==> (r matches Ok(c) && {
            &&& c.use_regex == (string_views(args@).contains("-r"@) || string_views(
                args@,
            ).contains("--regex"@))
            &&& c.interactive == (string_views(args@).contains("-i"@) || string_views(
                args@,
            ).contains("--interactive"@))
            &&& c.ext is None
            &&& c.size_range is None
            &&& c.max_depth is None
        }),
{
    let ghost av = string_views(args@);
    proof {
        lemma_read_args_keeps_skip_flags(av, on_disk@, 0, initial_args());
        if forall|k: int| 0 <= k < args@.len() ==> !is_help_or_depth(#[trigger] av[k]) {
            lemma_read_args_ok(av, on_disk@, 0, initial_args());
        }
        if forall|k: int|
            0 <= k < args@.len() ==> !is_help_or_depth(#[trigger] av[k]) && !takes_value(av[k]) {
            lemma_read_args_flags(av, on_disk@, 0, initial_args());
            lemma_has_word_from(av, 0, "-r"@, "--regex"@);
            lemma_has_word_from(av, 0, "-i"@, "--interactive"@);
            assert(has_word_from(av, 0, "-r"@, "--regex"@) == (av.contains("-r"@) || av.contains(
                "--regex"@,
            )));
            assert(has_word_from(av, 0, "-i"@, "--interactive"@) == (av.contains("-i"@)
                || av.contains("--interactive"@)));
        }
    }
    let mut path = chars_of("/");
    proof {
        reveal_strlit("/");
    }
    assert(path@ == seq!['/']);
    let mut name: Option<String> = None;
    let mut ext: Option<String> = None;
    let mut size: Option<String> = None;
    let mut regex = false;
    let mut ignore_git = true;
    let mut ignore_node = true;
    let mut max_depth: Option<usize> = None;
    let mut interactive = false;
    let mut i: usize = 0;
    assert(initial_args() == ArgsView {
        path: path@,
        name: opt_view(name),
        ext: opt_view(ext),
        size: opt_view(size),
        regex,
        ignore_git,
        ignore_node,
        max_depth,
        interactive,
    });
    while i < args.len()
        invariant
            i <= args.len() + 1,
            on_disk.len() == args.len(),
            av == string_views(args@),
            read_args(av, on_disk@, 0, initial_args()) == read_args(
                av,
                on_disk@,
                i as int,
                ArgsView {
                    path: path@,
                    name: opt_view(name),
                    ext: opt_view(ext),
                    size: opt_view(size),
                    regex,
                    ignore_git,
                    ignore_node,
                    max_depth,
                    interactive,
                },
            ),
        decreases args.len() + 1 - i,
    {
        let a = args[i].as_str();
        let has_value = i + 1 < args.len();
        if str_eq(a, "-n") || str_eq(a, "--name") {
            if has_value {
                name = Some(copy_string(&args[i + 1]));
                i = i + 2;
            } else {
                i = i + 1;
            }
        } else if str_eq(a, "-e") || str_eq(a, "--ext") {
            if has_value {
                ext = Some(copy_string(&args[i + 1]));
                i = i + 2;
            } else {
                i = i + 1;
            }
        } else if str_eq(a, "-s") || str_eq(a, "--size") {
            if has_value {
                size = Some(copy_string(&args[i + 1]));
                i = i + 2;
            } else {
                i = i + 1;
            }
        } else if str_eq(a, "-r") || str_eq(a, "--regex") {
            regex = true;
            i = i + 1;
        } else if str_eq(a, "--ignore-git") {
            ignore_git = true;
            i = i + 1;
        } else if str_eq(a, "--ignore-node") {
            ignore_node = true;
            i = i + 1;
        } else if str_eq(a, "--max-depth") {
            if has_value {
                match parse_usize(&chars_of(args[i + 1].as_str())) {
                    Ok(n) => {
                        max_depth = Some(n);
                        i = i + 2;
                    },
                    Err(k) => {
                        return Err(ArgsError::InvalidMaxDepth(k));
                    },
                }
            } else {
                i = i + 1;
            }
        } else if str_eq(a, "-i") || str_eq(a, "--interactive") {
            interactive = true;
            i = i + 1;
        } else if str_eq(a, "-h") || str_eq(a, "--help") {
            return Err(ArgsError::HelpRequested);
        } else {
            let av_i = chars_of(a);
            if !(av_i.len() > 0 && av_i[0] == '-') {
                if is_root(&path) && looks_path(&av_i, on_disk[i]) {
                    path = av_i;
                } else if name.is_none() {
                    name = Some(copy_string(&args[i]));
                }
            }
            i = i + 1;
        }
    }
    let size_range = crate::config::size_range_of(&size);
    assert(range_of_view(opt_view(size)) == crate::config::range_of(size));
    Ok(
        SearchConfig {
            path: string_of(&path),
            pattern: name,
            ext,
            size_range,
            use_regex: regex,
            ignore_git,
            ignore_node,
            max_depth,
            interactive,
        },
    )
}

/// Whether an argument looks like a path.
fn looks_path(a: &Vec<char>, on_disk: bool) -> (r: bool)
    ensures
        r == looks_like_path(a@, on_disk),
{
    if on_disk {
        return true;
    }
    if a.len() == 1 && a[0] == '.' {
        assert(a@ == seq!['.']);
        return true;
    }
    if a.len() == 2 && a[0] == '.' && a[1] == '.' {
        assert(a@ == seq!['.', '.']);
        return true;
    }
    if a.len() > 0 && a[0] == '/' {
        return true;
    }
    if a.len() > 1 && a[0] == '~' && a[1] == '/' {
        return true;
    }
    let mut k: usize = 0;
    while k < a.len()
        invariant
            k <= a.len(),
            forall|j: int| 0 <= j < k ==> a@[j] != '/',
        decreases a.len() - k,
    {
        if a[k] == '/' {
            assert(a@.contains('/'));
            return true;
        }
        k = k + 1;
    }
    assert(a@ != seq!['.']);
    assert(a@ != seq!['.', '.']);
    false
}

} // verus!
