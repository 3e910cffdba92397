//! Which paths a search skips: `.git` and `node_modules` components, and
//! the rules of `.gitignore` files.

use vstd::prelude::*;
use crate::paths::{has_component, has_component_spec};
use crate::text::{chars_of, string_of, string_views, trim_end};

verus! {

/// A builder of `.gitignore` matchers (`ignore::gitignore::GitignoreBuilder`).
#[verifier::external_type_specification]
#[verifier::external_body]
pub struct ExGitignoreBuilder(::ignore::gitignore::GitignoreBuilder);

/// A compiled `.gitignore` matcher (`ignore::gitignore::Gitignore`).
#[verifier::external_type_specification]
#[verifier::external_body]
pub struct ExGitignore(::ignore::gitignore::Gitignore);

/// An error of the ignore crate (`ignore::Error`).
#[verifier::external_type_specification]
#[verifier::external_body]
pub struct ExIgnoreError(::ignore::Error);

/// The directory a gitignore builder holds (its `root` field).
pub uninterp spec fn builder_root(b: ::ignore::gitignore::GitignoreBuilder) -> Seq<char>;

/// The lines a gitignore builder has kept, as it stores them (the
/// `original` text of each of its globs), in order.
pub uninterp spec fn builder_globs(b: ::ignore::gitignore::GitignoreBuilder) -> Seq<Seq<char>>;

/// The directory a compiled gitignore matcher holds (its `root` field).
pub uninterp spec fn matcher_root(g: ::ignore::gitignore::Gitignore) -> Seq<char>;

/// The lines a compiled gitignore matcher holds (the `original` text of
/// each of its globs), in order.
pub uninterp spec fn matcher_globs(g: ::ignore::gitignore::Gitignore) -> Seq<Seq<char>>;

/// Whether `GitignoreBuilder::add_line`, with the builder's default options,
/// accepts `line`: a comment, a blank line or a valid glob.
pub uninterp spec fn gitignore_line_valid(line: Seq<char>) -> bool;

/// Whether `GitignoreBuilder::build` compiles a builder that holds the
/// lines `globs` (at least one).
pub uninterp spec fn gitignore_builds(globs: Seq<Seq<char>>) -> bool;

/// Whether a matcher holding the directory `root` and the lines `globs`
/// ignores `path` (`Gitignore::matched` giving `Match::Ignore`).
pub uninterp spec fn gitignore_ignores(
    root: Seq<char>,
    globs: Seq<Seq<char>>,
    path: Seq<char>,
    is_dir: bool,
) -> bool;

/// The directory a builder made for `root` holds: `root` without a leading
/// `./`.
pub open spec fn stored_root(root: Seq<char>) -> Seq<char> {
    if root.len() >= 2 && root[0] == '.' && root[1] == '/' {
        root.skip(2)
    } else {
        root
    }
}

/// The text a builder keeps of `line`: nothing for a comment (a line that
/// begins with `#`) or a blank line; otherwise the line without trailing
/// white space, unless it ends with an escaped space (`\\ `).
pub open spec fn kept_form(line: Seq<char>) -> Option<Seq<char>> {
    if line.len() > 0 && line[0] == '#' {
        None
    } else {
        let escaped = line.len() >= 2 && line[line.len() - 2] == '\\' && line.last() == ' ';
        let t = if escaped {
            line
        } else {
            trim_end(line)
        };
        if t.len() == 0 {
            None
        } else {
            Some(t)
        }
    }
}

/// Makes a builder for `.gitignore` rules that lie in `root`
/// (`GitignoreBuilder::new`); claimed: it holds `root` without a leading
/// `./`, and no lines.
#[verifier::external_body]
fn gitignore_builder(root: &str) -> (b: ::ignore::gitignore::GitignoreBuilder)
    ensures
        builder_root(b) == stored_root(root@),
        builder_globs(b) == Seq::<Seq<char>>::empty(),
{
    ::ignore::gitignore::GitignoreBuilder::new(root)
}

/// Hands one line to a builder (`GitignoreBuilder::add_line`, from no
/// file); claimed: the call fails exactly when `gitignore_line_valid` does
/// not hold of the line; an accepted line that is neither a comment nor
/// blank is kept in the form `kept_form` gives; otherwise the builder is
/// left as it was.
#[verifier::external_body]
fn gitignore_add_line(b: &mut ::ignore::gitignore::GitignoreBuilder, line: &str) -> (r: Result<
    (),
    ::ignore::Error,
>)
    ensures
        r is Ok <==> gitignore_line_valid(line@),
        builder_root(*final(b)) == builder_root(*old(b)),
        builder_globs(*final(b)) == (match kept_form(line@) {
            Some(t) => if r is Ok {
                builder_globs(*old(b)).push(t)
            } else {
                builder_globs(*old(b))
            },
            None => builder_globs(*old(b)),
        }),
{
    match b.add_line(None, line) {
        Ok(_) => Ok(()),
        Err(e) => Err(e),
    }
}

/// Compiles a builder (`GitignoreBuilder::build`); claimed: a builder
/// without lines gives the empty matcher (no directory, no lines); one with
/// lines gives a matcher holding its directory and lines exactly when
/// `gitignore_builds` holds of them.
#[verifier::external_body]
fn gitignore_build(b: &::ignore::gitignore::GitignoreBuilder) -> (r: Result<
    ::ignore::gitignore::Gitignore,
    ::ignore::Error,
>)
    ensures
        r is Ok <==> (builder_globs(*b).len() == 0 || gitignore_builds(builder_globs(*b))),
        r matches Ok(g) ==> matcher_globs(g) == builder_globs(*b),
        r matches Ok(g) ==> matcher_root(g) == (if builder_globs(*b).len() == 0 {
            Seq::<char>::empty()
        } else {
            builder_root(*b)
        }),
{
    b.build()
}

/// Asks a compiled matcher about `path` (`Gitignore::matched`, then
/// `Match::is_ignore`); claimed: the answer is `gitignore_ignores` of the
/// matcher's directory and lines and of the path, and a matcher without
/// lines ignores nothing.
#[verifier::external_body]
fn gitignore_matched(g: &::ignore::gitignore::Gitignore, path: &str, is_dir: bool) -> (r: bool)
    ensures
        r == gitignore_ignores(matcher_root(*g), matcher_globs(*g), path@, is_dir),
        matcher_globs(*g).len() == 0 ==> !r,
{
    g.matched(path, is_dir).is_ignore()
}

/// The byte order mark that may begin a `.gitignore` file.
pub open spec fn is_bom(c: char) -> bool {
    c == '\u{feff}'
}

/// `s` without the byte order marks it begins with.
pub open spec fn strip_bom(s: Seq<char>) -> Seq<char>
    decreases s.len(),
{
    if s.len() > 0 && is_bom(s[0]) {
        strip_bom(s.drop_first())
    } else {
        s
    }
}

/// A line without the carriage return that ends it, if any.
pub open spec fn strip_cr(t: Seq<char>) -> Seq<char> {
    if t.len() > 0 && t.last() == '\r' {
        t.drop_last()
    } else {
        t
    }
}

/// The lines read so far, and the line being read.
pub open spec fn lines_state(s: Seq<char>) -> (Seq<Seq<char>>, Seq<char>)
    decreases s.len(),
{
    if s.len() == 0 {
        (Seq::empty(), Seq::empty())
    } else {
        let (done, cur) = lines_state(s.drop_last());
        if s.last() == '\n' {
            (done.push(strip_cr(cur)), Seq::empty())
        } else {
            (done, cur.push(s.last()))
        }
    }
}

/// The lines of `s` (`str::lines`): a line ends at `\n`, which is dropped
/// with the `\r` before it; a last line without `\n` counts unless empty.
pub open spec fn lines_spec(s: Seq<char>) -> Seq<Seq<char>> {
    let (done, cur) = lines_state(s);
    if cur.len() > 0 {
        done.push(cur)
    } else {
        done
    }
}

/// The numbers (from 1) of the lines that the builder does not accept.
pub open spec fn invalid_lines(lines: Seq<Seq<char>>) -> Seq<usize>
    decreases lines.len(),
{
    if lines.len() == 0 {
        Seq::empty()
    } else if gitignore_line_valid(lines.last()) {
        invalid_lines(lines.drop_last())
    } else {
        invalid_lines(lines.drop_last()).push(lines.len() as usize)
    }
}

/// What is wrong with a `.gitignore` file.
#[derive(Debug)]
pub enum GitignoreProblem {
    /// A line, by its number from 1, is not a valid glob; it is left out.
    InvalidLine(usize, ::ignore::Error),
    /// The globs cannot be compiled together; the file ignores nothing.
    Unbuildable(::ignore::Error),
}

/// The line a problem is about, if any.
pub open spec fn problem_line(p: GitignoreProblem) -> Option<usize> {
    match p {
        GitignoreProblem::InvalidLine(n, _) => Some(n),
        GitignoreProblem::Unbuildable(_) => None,
    }
}

/// The lines that a list of problems is about, in order; `None` for a
/// failure to compile.
pub open spec fn problem_lines(ps: Seq<GitignoreProblem>) -> Seq<Option<usize>> {
    ps.map_values(|p: GitignoreProblem| problem_line(p))
}

/// The numbers of the lines that the builder does not accept, as problems.
pub open spec fn bad_lines(lines: Seq<Seq<char>>) -> Seq<Option<usize>> {
    invalid_lines(lines).map_values(|n: usize| Some(n))
}

/// The lines a builder keeps of `lines`, in the form it stores them.
pub open spec fn kept_lines(lines: Seq<Seq<char>>) -> Seq<Seq<char>>
    decreases lines.len(),
{
    if lines.len() == 0 {
        Seq::empty()
    } else {
        let before = kept_lines(lines.drop_last());
        match kept_form(lines.last()) {
            Some(t) => if gitignore_line_valid(lines.last()) {
                before.push(t)
            } else {
                before
            },
            None => before,
        }
    }
}

/// Whether the lines kept of `lines` cannot be compiled together.
pub open spec fn unbuildable(lines: Seq<Seq<char>>) -> bool {
    kept_lines(lines).len() > 0 && !gitignore_builds(kept_lines(lines))
}

/// The problems of a `.gitignore` file with the given lines: each line not
/// accepted, in order, then the failure to compile the rest, if any.
pub open spec fn expected_problems(lines: Seq<Seq<char>>) -> Seq<Option<usize>> {
    let bad = bad_lines(lines);
    if unbuildable(lines) {
        bad.push(None)
    } else {
        bad
    }
}

/// The lines of `text` (`str::lines`).
pub fn lines_of(text: &str) -> (r: Vec<String>)
    ensures
        string_views(r@) == lines_spec(text@),
{
    let v = chars_of(text);
    let mut lines: Vec<String> = Vec::new();
    let mut cur: Vec<char> = Vec::new();
    let mut i: usize = 0;
    while i < v.len()
        invariant
            i <= v.len(),
            v@ == text@,
            lines_state(v@.take(i as int)) == (string_views(lines@), cur@),
        decreases v.len() - i,
    {
        let c = v[i];
        assert(v@.take(i + 1).drop_last() == v@.take(i as int));
        if c == '\n' {
            if cur.len() > 0 && cur[cur.len() - 1] == '\r' {
                cur.pop();
            }
            let ghost old_lines = lines@;
            lines.push(string_of(&cur));
            cur = Vec::new();
            assert(string_views(lines@) == string_views(old_lines).push(lines@.last()@));
        } else {
            cur.push(c);
        }
        i = i + 1;
    }
    assert(v@.take(v.len() as int) == v@);
    if cur.len() > 0 {
        let ghost old_lines = lines@;
        lines.push(string_of(&cur));
        assert(string_views(lines@) == string_views(old_lines).push(lines@.last()@));
    }
    lines
}

/// A `.gitignore` file: the directory it lies in, its text, and the matcher
/// compiled from its lines (none when they cannot be compiled together).
#[derive(Debug)]
pub struct GitignoreFile {
    root: String,
    contents: String,
    matcher: Option<::ignore::gitignore::Gitignore>,
}

impl GitignoreFile {
    #[verifier::type_invariant]
    spec fn wf(self) -> bool {
        let kept = kept_lines(lines_spec(self.contents@));
        match self.matcher {
            Some(g) => {
                &&& matcher_globs(g) == kept
                &&& kept.len() > 0 ==> gitignore_builds(kept) && matcher_root(g) == stored_root(
                    self.root@,
                )
            },
            None => unbuildable(lines_spec(self.contents@)),
        }
    }

    /// The directory the file lies in.
    pub closed spec fn spec_root(self) -> Seq<char> {
        self.root@
    }

    /// The text of the file.
    pub closed spec fn spec_contents(self) -> Seq<char> {
        self.contents@
    }

    /// Whether the file's rules ignore `path`: it keeps some lines, they
    /// compile, and the matcher they give ignores the path.
    pub open spec fn ignores_path(self, path: Seq<char>, is_dir: bool) -> bool {
        let kept = kept_lines(lines_spec(self.spec_contents()));
        &&& kept.len() > 0
        &&& gitignore_builds(kept)
        &&& gitignore_ignores(stored_root(self.spec_root()), kept, path, is_dir)
    }

    /// The directory the file lies in.
    pub fn root(&self) -> (r: &str)
        ensures
            r@ == self.spec_root(),
    {
        self.root.as_str()
    }

    /// The text of the file.
    pub fn contents(&self) -> (r: &str)
        ensures
            r@ == self.spec_contents(),
    {
        self.contents.as_str()
    }

    /// Whether the file's rules ignore `path`.
    pub fn ignores(&self, path: &str, is_dir: bool) -> (r: bool)
        ensures
            r == self.ignores_path(path@, is_dir),
    {
        proof {
            use_type_invariant(self);
        }
        match &self.matcher {
            Some(g) => gitignore_matched(g, path, is_dir),
            None => false,
        }
    }

    /// Reads a `.gitignore` file lying in `root` whose text is `contents`:
    /// hands its lines to a builder and compiles them; reports the lines
    /// that are not accepted and a failure to compile.
    pub fn new(root: &str, contents: &str) -> (r: (GitignoreFile, Vec<GitignoreProblem>))
        ensures
            r.0.spec_root() == root@,
            r.0.spec_contents() == contents@,
            problem_lines(r.1@) == expected_problems(lines_spec(contents@)),
    {
        let lines = lines_of(contents);
        let ghost lv = string_views(lines@);
        let mut builder = gitignore_builder(root);
        let mut problems: Vec<GitignoreProblem> = Vec::new();
        let mut i: usize = 0;
        assert(lv.take(0) == Seq::<Seq<char>>::empty());
        while i < lines.len()
            invariant
                i <= lines.len(),
                lv == string_views(lines@),
                builder_root(builder) == stored_root(root@),
                builder_globs(builder) == kept_lines(lv.take(i as int)),
                problem_lines(problems@) == bad_lines(lv.take(i as int)),
            decreases lines.len() - i,
        {
            assert(lv.take(i + 1) == lv.take(i as int).push(lv[i as int]));
            assert(lv.take(i + 1).drop_last() == lv.take(i as int));
            let ghost before = problems@;
            match gitignore_add_line(&mut builder, lines[i].as_str()) {
                Ok(()) => {},
                Err(e) => {
                    problems.push(GitignoreProblem::InvalidLine(i + 1, e));
                    assert(problem_lines(problems@) == problem_lines(before).push(
                        Some((i + 1) as usize),
                    ));
                },
            }
            i = i + 1;
        }
        assert(lv.take(lines.len() as int) == lv);
        let matcher = match gitignore_build(&builder) {
            Ok(g) => Some(g),
            Err(e) => {
                let ghost before = problems@;
                problems.push(GitignoreProblem::Unbuildable(e));
                assert(problem_lines(problems@) == problem_lines(before).push(None));
                None
            },
        };
        let file = GitignoreFile {
            root: String::from_str(root),
            contents: String::from_str(contents),
            matcher,
        };
        (file, problems)
    }
}

/// The rules by which a search skips paths.
#[derive(Debug)]
pub struct IgnoreRules {
    pub ignore_git: bool,
    pub ignore_node: bool,
    pub extra_ignores: Vec<GitignoreFile>,
}

/// The text `.git`.
pub open spec fn git_dir() -> Seq<char> {
    seq!['.', 'g', 'i', 't']
}

/// The text `node_modules`.
pub open spec fn node_dir() -> Seq<char> {
    seq!['n', 'o', 'd', 'e', '_', 'm', 'o', 'd', 'u', 'l', 'e', 's']
}

impl IgnoreRules {
    /// Whether one of the `.gitignore` files ignores `path`.
    pub open spec fn gitignored(self, path: Seq<char>, is_dir: bool) -> bool {
        exists|i: int|
            0 <= i < self.extra_ignores@.len() && #[trigger] self.extra_ignores@[i].ignores_path(
                path,
                is_dir,
            )
    }

    /// Whether the rules skip `path`.
    pub open spec fn ignores(self, path: Seq<char>, is_dir: bool) -> bool {
        ||| self.ignore_git && has_component_spec(path, git_dir())
        ||| self.ignore_node && has_component_spec(path, node_dir())
        ||| self.gitignored(path, is_dir)
    }

    /// Rules that skip `.git` and `node_modules` components as asked, and
    /// read no `.gitignore` file.
    pub fn new(ignore_git: bool, ignore_node: bool) -> (r: IgnoreRules)
        ensures
            r.ignore_git == ignore_git,
            r.ignore_node == ignore_node,
            r.extra_ignores@.len() == 0,
    {
        IgnoreRules { ignore_git, ignore_node, extra_ignores: Vec::new() }
    }

    /// Adds the rules of a `.gitignore` file lying in `root`, whose text is
    /// `contents`; byte order marks at its start are dropped. Returns the
    /// file's problems: lines that are not accepted, and a failure to
    /// compile the rest.
    pub fn add_gitignore(&mut self, root: &str, contents: &str) -> (problems: Vec<GitignoreProblem>)
        ensures
            final(self).ignore_git == old(self).ignore_git,
            final(self).ignore_node == old(self).ignore_node,
            final(self).extra_ignores@.len() == old(self).extra_ignores@.len() + 1,
            forall|i: int|
                0 <= i < old(self).extra_ignores@.len() ==> final(self).extra_ignores@[i] == old(
                    self,
                ).extra_ignores@[i],
            final(self).extra_ignores@.last().spec_root() == root@,
            final(self).extra_ignores@.last().spec_contents() == strip_bom(contents@),
            problem_lines(problems@) == expected_problems(lines_spec(strip_bom(contents@))),
    {
        let v = chars_of(contents);
        let mut i: usize = 0;
        assert(v@.skip(0) == v@);
        while i < v.len() && v[i] == '\u{feff}'
            invariant
                i <= v.len(),
                strip_bom(v@) == strip_bom(v@.skip(i as int)),
            decreases v.len() - i,
        {
            assert(v@.skip(i as int).drop_first() == v@.skip(i + 1));
            i = i + 1;
        }
        let rest = crate::text::slice_chars(&v, i, v.len());
        assert(rest@ == v@.skip(i as int));
        let (file, problems) = GitignoreFile::new(root, string_of(&rest).as_str());
        self.extra_ignores.push(file);
        problems
    }

    /// Whether the rules skip `path`: a `.git` or `node_modules` component
    /// when those are skipped, or the rules of one of the `.gitignore` files.
    pub fn should_ignore(&self, path: &str, is_dir: bool) -> (r: bool)
        ensures
            r == self.ignores(path@, is_dir),
    {
        let p = chars_of(path);
        if self.ignore_git {
            let git = chars_of(".git");
            proof {
                reveal_strlit(".git");
                assert(git@ =~= git_dir());
            }
            if has_component(&p, &git) {
                return true;
            }
        }
        if self.ignore_node {
            let node = chars_of("node_modules");
            proof {
                reveal_strlit("node_modules");
                assert(node@ =~= node_dir());
            }
            if has_component(&p, &node) {
                return true;
            }
        }
        let mut i: usize = 0;
        while i < self.extra_ignores.len()
            invariant
                i <= self.extra_ignores@.len(),
                !(self.ignore_git && has_component_spec(path@, git_dir())),
                !(self.ignore_node && has_component_spec(path@, node_dir())),
                p@ == path@,
                forall|k: int|
                    0 <= k < i ==> !(#[trigger] self.extra_ignores@[k]).ignores_path(path@, is_dir),
            decreases self.extra_ignores.len() - i,
        {
            if self.extra_ignores[i].ignores(path, is_dir) {
                return true;
            }
            i = i + 1;
        }
        false
    }
}

/// Rules with neither flag and no `.gitignore` file skip nothing.
pub proof fn lemma_empty_rules_skip_nothing(r: IgnoreRules, path: Seq<char>, is_dir: bool)
    requires
        !r.ignore_git,
        !r.ignore_node,
        r.extra_ignores@.len() == 0,
    ensures
        !r.ignores(path, is_dir),
{
}

/// What the `.git` and `node_modules` rules skip, they skip with all it
/// holds: every path below a skipped directory is skipped too, so a walk may
/// leave the directory out without looking inside.
pub proof fn lemma_skipped_directory_hides_only_skipped(
    r: IgnoreRules,
    dir: Seq<char>,
    rest: Seq<char>,
    is_dir: bool,
)
    requires
        (r.ignore_git && has_component_spec(dir, git_dir())) || (r.ignore_node
            && has_component_spec(dir, node_dir())),
    ensures
        r.ignores(dir + seq!['/'] + rest, is_dir),
{
    if r.ignore_git && has_component_spec(dir, git_dir()) {
        crate::paths::lemma_component_of_descendant(dir, rest, git_dir());
    } else {
        crate::paths::lemma_component_of_descendant(dir, rest, node_dir());
    }
}

/// More `.gitignore` files never make the rules skip less: a path skipped
/// by `a` is skipped by any `b` that has the same flags and begins with the
/// files of `a` (as `add_gitignore` leaves them).
pub proof fn lemma_more_gitignores_skip_more(
    a: IgnoreRules,
    b: IgnoreRules,
    path: Seq<char>,
    is_dir: bool,
)
    requires
        b.ignore_git == a.ignore_git,
        b.ignore_node == a.ignore_node,
        a.extra_ignores@.len() <= b.extra_ignores@.len(),
        forall|i: int|
            0 <= i < a.extra_ignores@.len() ==> b.extra_ignores@[i] == a.extra_ignores@[i],
        a.ignores(path, is_dir),
    ensures
        b.ignores(path, is_dir),
{
    if a.gitignored(path, is_dir) {
        let i = choose|i: int|
            0 <= i < a.extra_ignores@.len() && #[trigger] a.extra_ignores@[i].ignores_path(
                path,
                is_dir,
            );
        assert(b.extra_ignores@[i] == a.extra_ignores@[i]);
        assert(b.extra_ignores@[i].ignores_path(path, is_dir));
    }
}

/// A path that one of the `.gitignore` files ignores is skipped, whatever
/// the `.git` and `node_modules` flags say.
pub proof fn lemma_gitignore_rules_always_apply(
    r: IgnoreRules,
    i: int,
    path: Seq<char>,
    is_dir: bool,
)
    requires
        0 <= i < r.extra_ignores@.len(),
        r.extra_ignores@[i].ignores_path(path, is_dir),
    ensures
        r.ignores(path, is_dir),
{
}

/// With `.git` skipping on, every path with a `.git` component is skipped;
/// with `node_modules` skipping on, every path with a `node_modules`
/// component is skipped.
pub proof fn lemma_flagged_components_are_skipped(r: IgnoreRules, path: Seq<char>, is_dir: bool)
    ensures
        r.ignore_git && has_component_spec(path, git_dir()) ==> r.ignores(path, is_dir),
        r.ignore_node && has_component_spec(path, node_dir()) ==> r.ignores(path, is_dir),
{
}

} // verus!
