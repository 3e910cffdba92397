//! The decisions a directory walk makes for each entry it meets: prune it,
//! pass it without recording it, or record it once its size is known.

use vstd::prelude::*;
use crate::config::SearchConfig;
use crate::ignore::{
    expected_problems, git_dir, lemma_skipped_directory_hides_only_skipped, lines_spec, node_dir,
    problem_lines, strip_bom, GitignoreProblem, IgnoreRules,
};
use crate::matcher::{create_matcher, Matcher, MatcherError, MatchKind, pattern_valid};
use crate::paths::{extension, extension_spec, has_component_spec};
use crate::text::{chars_of, chars_eq};

verus! {

/// A file that a search found.
#[derive(Debug, Clone)]
pub struct FileEntry {
    pub path: String,
    pub size: u64,
    pub mtime: u64,
}

/// What a walk does with an entry it meets.
#[derive(Debug, Clone, Copy, PartialEq, Eq)]
pub enum EntryAction {
    /// Leave the entry out, and do not descend into it.
    Prune,
    /// Keep the entry (a directory is descended into) but do not record it.
    Pass,
    /// Read the entry's size and modification time, then ask
    /// `Scanner::accepts_size`.
    ReadMetadata,
}

/// Whether `path` has the extension `ext_filter`, when there is a filter.
pub open spec fn ext_matches(path: Seq<char>, ext_filter: Option<Seq<char>>) -> bool {
    match ext_filter {
        Some(e) => extension_spec(path) == Some(e),
        None => true,
    }
}

/// Whether `filename` matches `name_filter`, when there is a filter; a
/// name that is not text matches no filter.
pub open spec fn name_matches(filename: Option<Seq<char>>, name_filter: Option<Matcher>) -> bool {
    match name_filter {
        Some(m) => match filename {
            Some(n) => m.matches_spec(n),
            None => false,
        },
        None => true,
    }
}

/// Whether the extension of `path` is `ext_filter`, when there is a filter.
pub fn matches_ext(path: &str, ext_filter: Option<&str>) -> (r: bool)
    ensures
        r == ext_matches(
            path@,
            match ext_filter {
                Some(e) => Some(e@),
                None => None,
            },
        ),
{
    match ext_filter {
        Some(ext) => {
            let want = chars_of(ext);
            match extension(&chars_of(path)) {
                Some(e) => chars_eq(&e, &want),
                None => false,
            }
        },
        None => true,
    }
}

/// Whether `filename` matches `name_filter`, when there is a filter.
pub fn matches_name(filename: Option<&str>, name_filter: Option<&Matcher>) -> (r: bool)
    ensures
        r == name_matches(
            match filename {
                Some(n) => Some(n@),
                None => None,
            },
            match name_filter {
                Some(m) => Some(*m),
                None => None,
            },
        ),
{
    match name_filter {
        Some(matcher) => match filename {
            Some(name) => matcher.is_match(name),
            None => false,
        },
        None => true,
    }
}

/// A search: its configuration, its name pattern and its ignore rules.
#[derive(Debug)]
pub struct Scanner {
    config: SearchConfig,
    matcher: Option<Matcher>,
    ignore_rules: IgnoreRules,
}

/// How the pattern of a configuration is read.
pub open spec fn kind_of(use_regex: bool) -> MatchKind {
    if use_regex {
        MatchKind::Regex
    } else {
        MatchKind::Glob
    }
}

impl Scanner {
    /// The configuration the search runs with.
    pub closed spec fn spec_config(self) -> SearchConfig {
        self.config
    }

    /// The name pattern of the search.
    pub closed spec fn spec_matcher(self) -> Option<Matcher> {
        self.matcher
    }

    /// The rules by which the search skips paths.
    pub closed spec fn spec_rules(self) -> IgnoreRules {
        self.ignore_rules
    }

    /// What the walk does with an entry: prune what the rules skip; pass
    /// directories and other entries that are not files; prune files whose
    /// extension or name does not match; read the rest.
    pub open spec fn action_spec(
        self,
        path: Seq<char>,
        file_name: Option<Seq<char>>,
        is_dir: bool,
        is_file: bool,
    ) -> EntryAction {
        if self.spec_rules().ignores(path, is_dir) {
            EntryAction::Prune
        } else if !is_file {
            EntryAction::Pass
        } else if !ext_matches(
            path,
            match self.spec_config().ext {
                Some(e) => Some(e@),
                None => None,
            },
        ) {
            EntryAction::Prune
        } else if !name_matches(file_name, self.spec_matcher()) {
            EntryAction::Prune
        } else {
            EntryAction::ReadMetadata
        }
    }

    /// Whether a file of `size` bytes is recorded.
    pub open spec fn size_ok(self, size: u64) -> bool {
        match self.spec_config().size_range {
            Some(r) => r.spec_contains(size),
            None => true,
        }
    }

    /// Prepares a search: compiles its pattern, if any, and sets up rules
    /// that skip `.git` and `node_modules` as configured.
    pub fn new(config: SearchConfig) -> (r: Result<Scanner, MatcherError>)
        ensures
            r is Ok <==> (config.pattern matches Some(p) ==> pattern_valid(
                kind_of(config.use_regex),
                p@,
            )),
            r matches Ok(s) ==> {
                &&& s.spec_config() == config
                &&& s.spec_rules().ignore_git == config.ignore_git
                &&& s.spec_rules().ignore_node == config.ignore_node
                &&& s.spec_rules().extra_ignores@.len() == 0
                &&& match config.pattern {
                    Some(p) => s.spec_matcher() matches Some(m) && m.spec_kind() == kind_of(
                        config.use_regex,
                    ) && m.spec_pattern() == p@,
                    None => s.spec_matcher() is None,
                }
            },
            r matches Err(e) ==> (e is InvalidRegex <==> config.use_regex),
    {
        let matcher = match &config.pattern {
            Some(p) => match create_matcher(p.as_str(), config.use_regex) {
                Ok(m) => Some(m),
                Err(e) => return Err(e),
            },
            None => None,
        };
        let ignore_rules = IgnoreRules::new(config.ignore_git, config.ignore_node);
        Ok(Scanner { config, matcher, ignore_rules })
    }

    /// The configuration the search runs with.
    pub fn config(&self) -> (c: &SearchConfig)
        ensures
            *c == self.spec_config(),
    {
        &self.config
    }

    /// Adds the rules of a `.gitignore` file lying in `root`, whose text is
    /// `contents`; returns the file's problems.
    pub fn add_gitignore(&mut self, root: &str, contents: &str) -> (problems: Vec<GitignoreProblem>)
        ensures
            final(self).spec_config() == old(self).spec_config(),
            final(self).spec_matcher() == old(self).spec_matcher(),
            final(self).spec_rules().ignore_git == old(self).spec_rules().ignore_git,
            final(self).spec_rules().ignore_node == old(self).spec_rules().ignore_node,
            final(self).spec_rules().extra_ignores@ == old(self).spec_rules().extra_ignores@.push(
                final(self).spec_rules().extra_ignores@.last(),
            ),
            final(self).spec_rules().extra_ignores@.last().spec_root() == root@,
            final(self).spec_rules().extra_ignores@.last().spec_contents() == strip_bom(contents@),
            problem_lines(problems@) == expected_problems(lines_spec(strip_bom(contents@))),
    {
        let problems = self.ignore_rules.add_gitignore(root, contents);
        assert(self.ignore_rules.extra_ignores@ == old(self).ignore_rules.extra_ignores@.push(
            self.ignore_rules.extra_ignores@.last(),
        ));
        problems
    }

    /// What the walk does with an entry at `path`, whose last component is
    /// `file_name` (when that is text).
    pub fn entry_action(
        &self,
        path: &str,
        file_name: Option<&str>,
        is_dir: bool,
        is_file: bool,
    ) -> (r: EntryAction)
        ensures
            r == self.action_spec(
                path@,
                match file_name {
                    Some(n) => Some(n@),
                    None => None,
                },
                is_dir,
                is_file,
            ),
    {
        if self.ignore_rules.should_ignore(path, is_dir) {
            return EntryAction::Prune;
        }
        if !is_file {
            return EntryAction::Pass;
        }
        let ext = match &self.config.ext {
            Some(e) => Some(e.as_str()),
            None => None,
        };
        if !matches_ext(path, ext) {
            return EntryAction::Prune;
        }
        let name_filter = match &self.matcher {
            Some(m) => Some(m),
            None => None,
        };
        if !matches_name(file_name, name_filter) {
            return EntryAction::Prune;
        }
        EntryAction::ReadMetadata
    }

    /// Whether a file of `size` bytes is recorded.
    pub fn accepts_size(&self, size: u64) -> (r: bool)
        ensures
            r == self.size_ok(size),
    {
        match &self.config.size_range {
            Some(range) => range.contains(size),
            None => true,
        }
    }
}

/// A file that the walk records passes every filter of the search: the
/// rules do not skip it, it is a file, its extension and name match, and its
/// size lies in the size range.
pub proof fn lemma_recorded_files_pass_every_filter(
    s: Scanner,
    path: Seq<char>,
    file_name: Option<Seq<char>>,
    is_dir: bool,
    is_file: bool,
    size: u64,
)
    requires
        s.action_spec(path, file_name, is_dir, is_file) == EntryAction::ReadMetadata,
        s.size_ok(size),
    ensures
        !s.spec_rules().ignores(path, is_dir),
        is_file,
        ext_matches(
            path,
            match s.spec_config().ext {
                Some(e) => Some(e@),
                None => None,
            },
        ),
        name_matches(file_name, s.spec_matcher()),
        s.spec_config().size_range matches Some(r) ==> r.spec_contains(size),
{
}

/// A directory pruned for a `.git` or `node_modules` component hides only
/// entries that the walk would prune itself.
pub proof fn lemma_pruning_loses_nothing(
    s: Scanner,
    dir: Seq<char>,
    rest: Seq<char>,
    file_name: Option<Seq<char>>,
    is_dir: bool,
    is_file: bool,
)
    requires
        (s.spec_rules().ignore_git && has_component_spec(dir, git_dir())) || (
        s.spec_rules().ignore_node && has_component_spec(dir, node_dir())),
    ensures
        s.action_spec(dir + seq!['/'] + rest, file_name, is_dir, is_file) == EntryAction::Prune,
{
    lemma_skipped_directory_hides_only_skipped(s.spec_rules(), dir, rest, is_dir);
}

/// Every file that passes every filter is recorded: a file that the rules
/// do not skip, whose extension matches the extension filter (if any) and
/// whose name matches the name pattern (if any) has its size read; so a
/// search without an extension filter or a name pattern records every file
/// that the rules do not skip; an entry that is not a file (a directory) and
/// that the rules do not skip is passed, and descended into.
pub proof fn lemma_files_passing_filters_are_recorded(
    s: Scanner,
    path: Seq<char>,
    file_name: Option<Seq<char>>,
    is_dir: bool,
)
    requires
        !s.spec_rules().ignores(path, is_dir),
    ensures
        ext_matches(
            path,
            match s.spec_config().ext {
                Some(e) => Some(e@),
                None => None,
            },
        ) && name_matches(file_name, s.spec_matcher()) ==> s.action_spec(
            path,
            file_name,
            is_dir,
            true,
        ) == EntryAction::ReadMetadata,
        s.spec_config().ext is None && s.spec_matcher() is None ==> s.action_spec(
            path,
            file_name,
            is_dir,
            true,
        ) == EntryAction::ReadMetadata,
        s.action_spec(path, file_name, is_dir, false) == EntryAction::Pass,
{
}

} // verus!
