//! Paths as text, read the way Unix reads them: `/` separates the
//! components, empty and `.` components are skipped, `..` names the parent.

use vstd::prelude::*;
use crate::text::{chars_eq, slice_chars};

verus! {

/// The `/`-separated pieces of `p`, empty pieces included.
pub open spec fn segments(p: Seq<char>) -> Seq<Seq<char>>
    decreases p.len(),
{
    if p.len() == 0 {
        seq![Seq::empty()]
    } else {
        let r = segments(p.drop_last());
        if p.last() == '/' {
            r.push(Seq::empty())
        } else {
            r.update(r.len() - 1, r.last().push(p.last()))
        }
    }
}

/// Whether a piece names neither the current directory nor nothing.
pub open spec fn is_skipped(seg: Seq<char>) -> bool {
    seg.len() == 0 || seg == seq!['.']
}

/// Whether `name` is an ordinary component: not empty, not `.`, not `..`.
pub open spec fn is_normal(name: Seq<char>) -> bool {
    !is_skipped(name) && name != seq!['.', '.']
}

/// Whether one of the ordinary components of `p` is `name`.
pub open spec fn has_component_spec(p: Seq<char>, name: Seq<char>) -> bool {
    is_normal(name) && segments(p).contains(name)
}

/// The last piece of `segs` that is not skipped.
pub open spec fn last_named(segs: Seq<Seq<char>>) -> Option<Seq<char>>
    decreases segs.len(),
{
    if segs.len() == 0 {
        None
    } else if is_skipped(segs.last()) {
        last_named(segs.drop_last())
    } else {
        Some(segs.last())
    }
}

/// The final component of `p` when it is an ordinary one (`Path::file_name`).
pub open spec fn file_name_spec(p: Seq<char>) -> Option<Seq<char>> {
    match last_named(segments(p)) {
        Some(n) => if n == seq!['.', '.'] {
            None
        } else {
            Some(n)
        },
        None => None,
    }
}

/// The index of the last `.` in `s`.
pub open spec fn last_dot(s: Seq<char>) -> Option<int>
    decreases s.len(),
{
    if s.len() == 0 {
        None
    } else if s.last() == '.' {
        Some(s.len() - 1)
    } else {
        last_dot(s.drop_last())
    }
}

/// The text after the last `.` of the file name of `p`, unless that `.`
/// begins the name (`Path::extension`).
pub open spec fn extension_spec(p: Seq<char>) -> Option<Seq<char>> {
    match file_name_spec(p) {
        Some(n) => match last_dot(n) {
            Some(k) => if k == 0 {
                None
            } else {
                Some(n.skip(k + 1))
            },
            None => None,
        },
        None => None,
    }
}

/// Whether `p` names the root directory and nothing else (equals `/` as a
/// path).
pub open spec fn is_root_spec(p: Seq<char>) -> bool {
    &&& p.len() > 0
    &&& p[0] == '/'
    &&& forall|j: int| 0 <= j < segments(p).len() ==> is_skipped(#[trigger] segments(p)[j])
}

proof fn lemma_segments_nonempty(p: Seq<char>)
    ensures
        segments(p).len() >= 1,
    decreases p.len(),
{
    if p.len() > 0 {
        lemma_segments_nonempty(p.drop_last());
    }
}

/// The `/`-separated pieces of `p`, empty pieces included.
pub fn split_segments(p: &Vec<char>) -> (r: Vec<Vec<char>>)
    ensures
        r@.map_values(|s: Vec<char>| s@) == segments(p@),
        r.len() >= 1,
{
    let mut r: Vec<Vec<char>> = Vec::new();
    let mut cur: Vec<char> = Vec::new();
    let mut i: usize = 0;
    assert(p@.take(0) == Seq::<char>::empty());
    while i < p.len()
        invariant
            i <= p.len(),
            r@.map_values(|s: Vec<char>| s@).push(cur@) == segments(p@.take(i as int)),
        decreases p.len() - i,
    {
        let c = p[i];
        let ghost prev = segments(p@.take(i as int));
        assert(p@.take(i + 1).drop_last() == p@.take(i as int));
        proof {
            lemma_segments_nonempty(p@.take(i as int));
        }
        if c == '/' {
            let ghost old_r = r@;
            r.push(cur);
            cur = Vec::new();
            assert(r@.map_values(|s: Vec<char>| s@) == old_r.map_values(|s: Vec<char>| s@).push(
                r@.last()@,
            ));
        } else {
            cur.push(c);
            assert(r@.map_values(|s: Vec<char>| s@).push(cur@) == prev.update(
                prev.len() - 1,
                prev.last().push(c),
            ));
        }
        i = i + 1;
    }
    assert(p@.take(p.len() as int) == p@);
    let ghost old_r = r@;
    r.push(cur);
    assert(r@.map_values(|s: Vec<char>| s@) == old_r.map_values(|s: Vec<char>| s@).push(
        r@.last()@,
    ));
    r
}

/// Whether a piece is empty or `.`.
fn skipped(seg: &Vec<char>) -> (r: bool)
    ensures
        r == is_skipped(seg@),
{
    if seg.len() == 0 {
        return true;
    }
    if seg.len() == 1 && seg[0] == '.' {
        assert(seg@ == seq!['.']);
        return true;
    }
    assert(seg@.len() != 1 || seg@[0] != '.');
    false
}

/// Whether `name` is an ordinary component: not empty, not `.`, not `..`.
pub fn normal(name: &Vec<char>) -> (r: bool)
    ensures
        r == is_normal(name@),
{
    if skipped(name) {
        return false;
    }
    if name.len() == 2 && name[0] == '.' && name[1] == '.' {
        assert(name@ == seq!['.', '.']);
        return false;
    }
    assert(name@.len() != 2 || name@[0] != '.' || name@[1] != '.');
    true
}

/// Whether one of the ordinary components of `path` is `name`.
pub fn has_component(path: &Vec<char>, name: &Vec<char>) -> (r: bool)
    ensures
        r == has_component_spec(path@, name@),
{
    if !normal(name) {
        return false;
    }
    let segs = split_segments(path);
    let ghost views = segs@.map_values(|s: Vec<char>| s@);
    let mut j: usize = 0;
    while j < segs.len()
        invariant
            j <= segs.len(),
            views == segs@.map_values(|s: Vec<char>| s@),
            views == segments(path@),
            is_normal(name@),
            forall|k: int| 0 <= k < j ==> views[k] != name@,
        decreases segs.len() - j,
    {
        if chars_eq(&segs[j], name) {
            assert(views[j as int] == name@);
            assert(segments(path@).contains(name@));
            return true;
        }
        j = j + 1;
    }
    assert(!views.contains(name@));
    false
}

/// The final component of `path` when it is an ordinary one
/// (`Path::file_name`).
pub fn file_name(path: &Vec<char>) -> (r: Option<Vec<char>>)
    ensures
        match r {
            Some(n) => file_name_spec(path@) == Some(n@),
            None => file_name_spec(path@) is None,
        },
{
    let segs = split_segments(path);
    let ghost views = segs@.map_values(|s: Vec<char>| s@);
    let mut k: usize = segs.len();
    assert(views.take(k as int) == views);
    while k > 0 && skipped(&segs[k - 1])
        invariant
            k <= segs.len(),
            views == segs@.map_values(|s: Vec<char>| s@),
            last_named(views) == last_named(views.take(k as int)),
        decreases k,
    {
        assert(views.take(k as int).drop_last() == views.take(k - 1));
        k = k - 1;
    }
    if k == 0 {
        return None;
    }
    assert(views.take(k as int).last() == views[k - 1]);
    let n = slice_chars(&segs[k - 1], 0, segs[k - 1].len());
    assert(n@ == views[k - 1]);
    if n.len() == 2 && n[0] == '.' && n[1] == '.' {
        assert(n@ == seq!['.', '.']);
        None
    } else {
        assert(n@ != seq!['.', '.']);
        Some(n)
    }
}

/// The text after the last `.` of the file name of `path`, unless that `.`
/// begins the name (`Path::extension`).
pub fn extension(path: &Vec<char>) -> (r: Option<Vec<char>>)
    ensures
        match r {
            Some(e) => extension_spec(path@) == Some(e@),
            None => extension_spec(path@) is None,
        },
{
    match file_name(path) {
        None => None,
        Some(n) => {
            let mut k: usize = n.len();
            assert(n@.take(k as int) == n@);
            while k > 0 && n[k - 1] != '.'
                invariant
                    k <= n.len(),
                    last_dot(n@) == last_dot(n@.take(k as int)),
                decreases k,
            {
                assert(n@.take(k as int).drop_last() == n@.take(k - 1));
                k = k - 1;
            }
            if k == 0 {
                None
            } else {
                assert(n@.take(k as int).last() == '.');
                if k == 1 {
                    None
                } else {
                    Some(slice_chars(&n, k, n.len()))
                }
            }
        },
    }
}

/// Whether `p` begins with a `.` component and has no root.
pub open spec fn starts_at_cur_dir(p: Seq<char>) -> bool {
    p.len() > 0 && p[0] == '.' && (p.len() == 1 || p[1] == '/')
}

/// How many characters of `p` come before its first ordinary component: the
/// root `/`, or a leading `.`.
pub open spec fn head_len(p: Seq<char>) -> nat {
    if p.len() > 0 && p[0] == '/' {
        1
    } else if starts_at_cur_dir(p) {
        1
    } else {
        0
    }
}

/// `t` without trailing `/` and `.` pieces, keeping its first `h`
/// characters.
pub open spec fn trim_tail(t: Seq<char>, h: nat) -> Seq<char>
    decreases t.len(),
{
    if t.len() > h && (t.last() == '/' || (t.last() == '.' && (t.len() == h + 1 || t[t.len() - 2]
        == '/'))) {
        trim_tail(t.drop_last(), h)
    } else {
        t
    }
}

/// `t` without its last piece, keeping its first `h` characters.
pub open spec fn drop_last_piece(t: Seq<char>, h: nat) -> Seq<char>
    decreases t.len(),
{
    if t.len() > h && t.last() != '/' {
        drop_last_piece(t.drop_last(), h)
    } else {
        t
    }
}

/// The path without its final component (`Path::parent`): nothing for the
/// root or the empty path, the empty path for a lone `.`.
pub open spec fn parent_spec(p: Seq<char>) -> Option<Seq<char>> {
    let h = head_len(p);
    let t = trim_tail(p, h);
    if t.len() > h {
        Some(trim_tail(drop_last_piece(t, h), h))
    } else if starts_at_cur_dir(p) {
        Some(Seq::empty())
    } else {
        None
    }
}

/// The first `k` characters of `p` without trailing `/` and `.` pieces,
/// keeping the first `h`: how many are left.
fn trim_tail_len(p: &Vec<char>, end: usize, h: usize) -> (r: usize)
    requires
        h <= end <= p.len(),
    ensures
        h <= r <= end,
        trim_tail(p@.take(end as int), h as nat) == p@.take(r as int),
{
    let mut k = end;
    while k > h && (p[k - 1] == '/' || (p[k - 1] == '.' && (k - 1 == h || p[k - 2] == '/')))
        invariant
            h <= k <= end <= p.len(),
            trim_tail(p@.take(end as int), h as nat) == trim_tail(p@.take(k as int), h as nat),
        decreases k,
    {
        assert(p@.take(k as int).drop_last() == p@.take(k - 1));
        k = k - 1;
    }
    k
}

/// The path without its final component (`Path::parent`).
pub fn parent(path: &Vec<char>) -> (r: Option<Vec<char>>)
    ensures
        match r {
            Some(q) => parent_spec(path@) == Some(q@),
            None => parent_spec(path@) is None,
        },
{
    let n = path.len();
    let cur_dir = n > 0 && path[0] == '.' && (n == 1 || path[1] == '/');
    let h: usize = if n > 0 && path[0] == '/' {
        1
    } else if cur_dir {
        1
    } else {
        0
    };
    assert(path@.take(n as int) == path@);
    let k = trim_tail_len(path, n, h);
    if k > h {
        let mut j = k;
        while j > h && path[j - 1] != '/'
            invariant
                h <= j <= k <= path.len(),
                drop_last_piece(path@.take(k as int), h as nat) == drop_last_piece(
                    path@.take(j as int),
                    h as nat,
                ),
            decreases j,
        {
            assert(path@.take(j as int).drop_last() == path@.take(j - 1));
            j = j - 1;
        }
        let m = trim_tail_len(path, j, h);
        Some(slice_chars(path, 0, m))
    } else if cur_dir {
        Some(Vec::new())
    } else {
        None
    }
}

/// Whether `p` names the root directory and nothing else.
pub fn is_root(p: &Vec<char>) -> (r: bool)
    ensures
        r == is_root_spec(p@),
{
    if p.len() == 0 || p[0] != '/' {
        return false;
    }
    let segs = split_segments(p);
    let ghost views = segs@.map_values(|s: Vec<char>| s@);
    let mut j: usize = 0;
    while j < segs.len()
        invariant
            j <= segs.len(),
            views == segs@.map_values(|s: Vec<char>| s@),
            views == segments(p@),
            forall|k: int| 0 <= k < j ==> is_skipped(#[trigger] views[k]),
        decreases segs.len() - j,
    {
        if !skipped(&segs[j]) {
            assert(!is_skipped(views[j as int]));
            return false;
        }
        j = j + 1;
    }
    true
}

/// Joining two paths with `/` joins their pieces.
proof fn lemma_segments_join(p: Seq<char>, q: Seq<char>)
    ensures
        segments(p + seq!['/'] + q) == segments(p) + segments(q),
    decreases q.len(),
{
    let x = p + seq!['/'] + q;
    if q.len() == 0 {
        assert(x.drop_last() == p);
        assert(x.last() == '/');
        assert(segments(q) == seq![Seq::<char>::empty()]);
        assert(segments(x) == segments(p) + segments(q));
    } else {
        let q0 = q.drop_last();
        lemma_segments_join(p, q0);
        lemma_segments_nonempty(q0);
        assert(x.drop_last() == p + seq!['/'] + q0);
        assert(x.last() == q.last());
        let a = segments(p);
        let b = segments(q0);
        if q.last() == '/' {
            assert(segments(x) == (a + b).push(Seq::<char>::empty()));
            assert(segments(q) == b.push(Seq::<char>::empty()));
            assert((a + b).push(Seq::<char>::empty()) == a + b.push(Seq::<char>::empty()));
        } else {
            let ab = a + b;
            assert(ab.last() == b.last());
            assert(segments(x) == ab.update(ab.len() - 1, ab.last().push(q.last())));
            assert(segments(q) == b.update(b.len() - 1, b.last().push(q.last())));
            assert(ab.update(ab.len() - 1, ab.last().push(q.last())) == a + b.update(
                b.len() - 1,
                b.last().push(q.last()),
            ));
        }
    }
}

/// A component of a directory is a component of every path below it.
pub proof fn lemma_component_of_descendant(dir: Seq<char>, rest: Seq<char>, name: Seq<char>)
    requires
        has_component_spec(dir, name),
    ensures
        has_component_spec(dir + seq!['/'] + rest, name),
{
    lemma_segments_join(dir, rest);
    let a = segments(dir);
    let i = choose|i: int| 0 <= i < a.len() && a[i] == name;
    assert((a + segments(rest))[i] == name);
}

/// `x` without the `/` and `.` pieces it begins with.
pub open spec fn trim_lead(x: Seq<char>) -> Seq<char>
    decreases x.len(),
{
    if x.len() > 0 && (x[0] == '/' || (x[0] == '.' && (x.len() == 1 || x[1] == '/'))) {
        trim_lead(x.drop_first())
    } else {
        x
    }
}

/// How many characters of `x` come before its first `/`.
pub open spec fn piece_len(x: Seq<char>) -> nat
    decreases x.len(),
{
    if x.len() == 0 || x[0] == '/' {
        0
    } else {
        1 + piece_len(x.drop_first())
    }
}

/// The next ordinary component of `x` (past any `/` and `.` pieces), and
/// what follows its `/`.
pub open spec fn next_component(x: Seq<char>) -> Option<(Seq<char>, Seq<char>)> {
    let y = trim_lead(x);
    if y.len() == 0 {
        None
    } else {
        let k = piece_len(y);
        Some(
            (
                y.take(k as int),
                if k < y.len() {
                    y.skip(k + 1int)
                } else {
                    Seq::empty()
                },
            ),
        )
    }
}

proof fn lemma_trim_lead_shape(x: Seq<char>)
    ensures
        trim_lead(x).len() <= x.len(),
        trim_lead(x) == x.skip(x.len() - trim_lead(x).len()),
        trim_lead(x).len() > 0 ==> trim_lead(x)[0] != '/',
        trim_lead(x).len() > 0 && trim_lead(x)[0] == '.' ==> trim_lead(x).len() > 1 && trim_lead(
            x,
        )[1] != '/',
    decreases x.len(),
{
    if x.len() > 0 && (x[0] == '/' || (x[0] == '.' && (x.len() == 1 || x[1] == '/'))) {
        lemma_trim_lead_shape(x.drop_first());
        let t = trim_lead(x.drop_first());
        assert(x.drop_first().skip(x.drop_first().len() - t.len()) == x.skip(x.len() - t.len()));
    } else {
        assert(x.skip(0) == x);
    }
}

proof fn lemma_piece_len(x: Seq<char>)
    ensures
        piece_len(x) <= x.len(),
        piece_len(x) < x.len() ==> x[piece_len(x) as int] == '/',
        forall|j: int| 0 <= j < piece_len(x) ==> #[trigger] x[j] != '/',
    decreases x.len(),
{
    if x.len() > 0 && x[0] != '/' {
        lemma_piece_len(x.drop_first());
        assert forall|j: int| 0 <= j < piece_len(x) implies #[trigger] x[j] != '/' by {
            if j > 0 {
                assert(x[j] == x.drop_first()[j - 1]);
            }
        }
    }
}

/// What follows the next component is shorter than the text.
pub proof fn lemma_next_component_shorter(x: Seq<char>)
    ensures
        next_component(x) matches Some((c, rest)) ==> rest.len() < x.len() && c.len() > 0,
{
    lemma_trim_lead_shape(x);
    let y = trim_lead(x);
    if y.len() > 0 {
        lemma_piece_len(y);
        assert(piece_len(y) >= 1);
    }
}

/// What is left of `x` once the components of `base` are taken from its
/// front, one by one, when they agree.
pub open spec fn strip_components(x: Seq<char>, base: Seq<char>) -> Option<Seq<char>>
    decreases base.len(),
{
    match next_component(base) {
        None => Some(x),
        Some((bc, brest)) => match next_component(x) {
            Some((c, rest)) => if c == bc {
                proof {
                    lemma_next_component_shorter(base);
                }
                strip_components(rest, brest)
            } else {
                None
            },
            None => None,
        },
    }
}

/// The root `/` or the leading `.` of `p`, as a component, with what
/// follows it.
pub open spec fn head_component(p: Seq<char>) -> Option<(char, Seq<char>)> {
    if p.len() > 0 && p[0] == '/' {
        Some(('/', p.skip(1)))
    } else if starts_at_cur_dir(p) {
        Some(('.', p.skip(1)))
    } else {
        None
    }
}

/// What a component-wise match leaves, tidied as `Path` shows it: without
/// leading or trailing `/` and `.` pieces.
pub open spec fn tidy_rest(r: Option<Seq<char>>) -> Option<Seq<char>> {
    match r {
        Some(x) => Some(trim_tail(trim_lead(x), 0)),
        None => None,
    }
}

/// `p` without the leading components that make up `base`
/// (`Path::strip_prefix`), or nothing when `base` does not begin `p`.
pub open spec fn strip_prefix_spec(p: Seq<char>, base: Seq<char>) -> Option<Seq<char>> {
    match head_component(base) {
        Some((hb, brest)) => match head_component(p) {
            Some((hp, prest)) => if hp == hb {
                tidy_rest(strip_components(prest, brest))
            } else {
                None
            },
            None => None,
        },
        None => if next_component(base) is None {
            Some(trim_tail(p, head_len(p)))
        } else if head_component(p) is Some {
            None
        } else {
            tidy_rest(strip_components(p, base))
        },
    }
}

/// A found path as shown relative to the directory searched: without that
/// directory in front when it begins the path, otherwise as it is.
pub open spec fn relative_spec(p: Seq<char>, root: Seq<char>) -> Seq<char> {
    match strip_prefix_spec(p, root) {
        Some(r) => r,
        None => p,
    }
}

/// Index where `trim_lead` of `x[from..]` begins.
fn trim_lead_from(x: &Vec<char>, from: usize) -> (r: usize)
    requires
        from <= x.len(),
    ensures
        from <= r <= x.len(),
        trim_lead(x@.skip(from as int)) == x@.skip(r as int),
{
    let mut i = from;
    while i < x.len() && (x[i] == '/' || (x[i] == '.' && (i + 1 == x.len() || x[i + 1] == '/')))
        invariant
            from <= i <= x.len(),
            trim_lead(x@.skip(from as int)) == trim_lead(x@.skip(i as int)),
        decreases x.len() - i,
    {
        assert(x@.skip(i as int).drop_first() == x@.skip(i + 1));
        i = i + 1;
    }
    i
}

/// The next component of `x[from..]`: where it begins and ends, and where
/// what follows it begins; nothing when there is none.
fn next_component_at(x: &Vec<char>, from: usize) -> (r: Option<(usize, usize, usize)>)
    requires
        from <= x.len(),
    ensures
        match r {
            Some((a, b, c)) => {
                &&& from <= a < b <= x.len()
                &&& b <= c <= x.len()
                &&& next_component(x@.skip(from as int)) == Some(
                    (x@.subrange(a as int, b as int), x@.skip(c as int)),
                )
            },
            None => next_component(x@.skip(from as int)) is None,
        },
{
    let a = trim_lead_from(x, from);
    if a == x.len() {
        assert(x@.skip(a as int).len() == 0);
        return None;
    }
    let ghost y = x@.skip(a as int);
    proof {
        lemma_trim_lead_shape(x@.skip(from as int));
        lemma_piece_len(y);
    }
    let mut b = a;
    while b < x.len() && x[b] != '/'
        invariant
            a <= b <= x.len(),
            y == x@.skip(a as int),
            forall|j: int| a <= j < b ==> x@[j] != '/',
            piece_len(y) == (b - a) + piece_len(x@.skip(b as int)),
        decreases x.len() - b,
    {
        assert(x@.skip(b as int).drop_first() == x@.skip(b + 1));
        b = b + 1;
    }
    assert(piece_len(x@.skip(b as int)) == 0);
    assert(y.take(b - a) == x@.subrange(a as int, b as int));
    assert(b > a);
    let c = if b < x.len() {
        assert(y.skip(b - a + 1) == x@.skip(b + 1));
        b + 1
    } else {
        assert(x@.skip(b as int).len() == 0);
        b
    };
    Some((a, b, c))
}

/// A found path as shown relative to the directory searched
/// (`Path::strip_prefix`, or the path itself when the directory does not
/// begin it).
pub fn relative_to(path: &Vec<char>, root: &Vec<char>) -> (r: Vec<char>)
    ensures
        r@ == relative_spec(path@, root@),
{
    match strip_prefix(path, root) {
        Some(r) => r,
        None => slice_chars(path, 0, path.len()),
    }
}

fn head_of(p: &Vec<char>) -> (r: Option<char>)
    ensures
        match r {
            Some(h) => head_component(p@) == Some((h, p@.skip(1))),
            None => head_component(p@) is None,
        },
{
    if p.len() > 0 && p[0] == '/' {
        Some('/')
    } else if p.len() > 0 && p[0] == '.' && (p.len() == 1 || p[1] == '/') {
        Some('.')
    } else {
        None
    }
}

/// `path` without the leading components that make up `base`
/// (`Path::strip_prefix`).
pub fn strip_prefix(path: &Vec<char>, base: &Vec<char>) -> (r: Option<Vec<char>>)
    ensures
        match r {
            Some(q) => strip_prefix_spec(path@, base@) == Some(q@),
            None => strip_prefix_spec(path@, base@) is None,
        },
{
    let hb = head_of(base);
    let hp = head_of(path);
    let (pi, bi): (usize, usize) = match hb {
        Some(b) => match hp {
            Some(h) => {
                if h != b {
                    return None;
                }
                (1, 1)
            },
            None => {
                return None;
            },
        },
        None => {
            assert(base@.skip(0) == base@);
            if next_component_at(base, 0).is_none() {
                let h: usize = if hp.is_some() {
                    1
                } else {
                    0
                };
                assert(path@.take(path.len() as int) == path@);
                let k = trim_tail_len(path, path.len(), h);
                return Some(slice_chars(path, 0, k));
            }
            if hp.is_some() {
                return None;
            }
            (0, 0)
        },
    };
    assert(path@.skip(pi as int) == (if pi == 0 { path@ } else { path@.skip(1) }));
    assert(base@.skip(bi as int) == (if bi == 0 { base@ } else { base@.skip(1) }));
    assert(strip_prefix_spec(path@, base@) == tidy_rest(
        strip_components(path@.skip(pi as int), base@.skip(bi as int)),
    ));
    let mut i = pi;
    let mut j = bi;
    loop
        invariant
            i <= path.len(),
            j <= base.len(),
            strip_prefix_spec(path@, base@) == tidy_rest(
                strip_components(path@.skip(i as int), base@.skip(j as int)),
            ),
        ensures
            i <= path.len(),
            strip_prefix_spec(path@, base@) == tidy_rest(Some(path@.skip(i as int))),
        decreases base.len() - j,
    {
        match next_component_at(base, j) {
            None => {
                break;
            },
            Some((ba, bb, bc)) => {
                match next_component_at(path, i) {
                    None => {
                        return None;
                    },
                    Some((a, b, c)) => {
                        let pc = slice_chars(path, a, b);
                        let bcomp = slice_chars(base, ba, bb);
                        if !crate::text::chars_eq(&pc, &bcomp) {
                            return None;
                        }
                        i = c;
                        j = bc;
                    },
                }
            },
        }
    }
    let a = trim_lead_from(path, i);
    let tail = slice_chars(path, a, path.len());
    assert(tail@ == trim_lead(path@.skip(i as int)));
    assert(tail@.take(tail.len() as int) == tail@);
    let k = trim_tail_len(&tail, tail.len(), 0);
    Some(slice_chars(&tail, 0, k))
}

} // verus!
