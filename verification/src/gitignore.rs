//! Ignore rules in the style of `.gitignore`.
//!
//! A `GitignoreMatcher` holds the patterns of one ignore file and decides for
//! paths below the directory of that file. A `GitignoreManager` holds the
//! matchers found so far below one root.

use vstd::prelude::*;
use crate::glob::{glob_matches, matches_from, GlobMatcher};
use crate::path::{
    components, components_of, ignore_file_in, ignore_file_name, is_absolute, joined,
    path_starts_at_root, relative_to, split, split_chars, starts_with_parts,
};
use crate::text::{
    chars_of, copy_chars, copy_range, string_of, string_views, texts, trim, trim_bounds,
};

verus! {

/// One rule of an ignore file.
pub struct Pattern {
    /// The pattern, without the markers that the flags stand for.
    pub pattern: String,
    /// The line began with `!`: a match takes the path back in.
    pub is_negation: bool,
    /// The line ended with `/`: the rule is for directories only.
    pub is_directory_only: bool,
    /// The pattern began with `/`: it matches from the base directory on.
    pub is_absolute: bool,
}

/// What a `Pattern` stands for.
pub ghost struct PatternSpec {
    pub text: Seq<char>,
    pub negated: bool,
    pub directory_only: bool,
    pub anchored: bool,
}

impl View for Pattern {
    type V = PatternSpec;

    open spec fn view(&self) -> PatternSpec {
        PatternSpec {
            text: self.pattern@,
            negated: self.is_negation,
            directory_only: self.is_directory_only,
            anchored: self.is_absolute,
        }
    }
}

/// The views of a sequence of patterns.
pub open spec fn pattern_specs(patterns: Seq<Pattern>) -> Seq<PatternSpec> {
    Seq::new(patterns.len(), |i: int| patterns[i]@)
}

/// The rule that one line of an ignore file gives, if it gives one. White
/// space around the line counts for nothing; a blank line and a line that
/// starts with `#` give none. Of what is left, a leading `!` makes the rule
/// a negation, then a trailing `/` makes it one for directories only, then a
/// leading `/` anchors it; each marker is taken off.
pub open spec fn parse_line(line: Seq<char>) -> Option<PatternSpec> {
    let trimmed = trim(line);
    if trimmed.len() == 0 || trimmed[0] == '#' {
        None
    } else {
        let negated = trimmed[0] == '!';
        let positive = if negated {
            trimmed.skip(1)
        } else {
            trimmed
        };
        let directory_only = positive.len() > 0 && positive.last() == '/';
        let named = if directory_only {
            positive.drop_last()
        } else {
            positive
        };
        let anchored = named.len() > 0 && named[0] == '/';
        let text = if anchored {
            named.skip(1)
        } else {
            named
        };
        Some(PatternSpec { text, negated, directory_only, anchored })
    }
}

/// The rules that a sequence of lines gives, in the order of the lines.
pub open spec fn parse_lines(lines: Seq<Seq<char>>) -> Seq<PatternSpec>
    decreases lines.len(),
{
    if lines.len() == 0 {
        Seq::empty()
    } else {
        let before = parse_lines(lines.drop_last());
        match parse_line(lines.last()) {
            Some(pattern) => before.push(pattern),
            None => before,
        }
    }
}

/// The rules of an ignore file with the given content.
pub open spec fn parse_content(content: Seq<char>) -> Seq<PatternSpec> {
    parse_lines(split(content, '\n'))
}

/// The segment that matches any number of path segments.
pub open spec fn double_star() -> Seq<char> {
    seq!['*', '*']
}

/// Whether the path segments from `i` on begin with segments that the
/// pattern segments from `j` on match, one by one; a pattern segment `**`
/// stands for any number of path segments, but matches only where a path
/// segment is left.
pub open spec fn parts_match_from(
    path: Seq<Seq<char>>,
    pattern: Seq<Seq<char>>,
    i: int,
    j: int,
) -> bool
    decreases 2 * (pattern.len() - j), 0int,
{
    if j >= pattern.len() {
        true
    } else if i >= path.len() {
        false
    } else if pattern[j] == double_star() {
        j == pattern.len() - 1 || resumes_from(path, pattern, i, j + 1)
    } else {
        glob_matches(path[i], pattern[j]) && parts_match_from(path, pattern, i + 1, j + 1)
    }
}

/// Whether, at some path segment from `k` on, a match of the pattern
/// segments from `j` on begins.
pub open spec fn resumes_from(
    path: Seq<Seq<char>>,
    pattern: Seq<Seq<char>>,
    k: int,
    j: int,
) -> bool
    decreases 2 * (pattern.len() - j) + 1, path.len() - k,
{
    if k >= path.len() || j > pattern.len() {
        false
    } else {
        parts_match_from(path, pattern, k, j) || resumes_from(path, pattern, k + 1, j)
    }
}

/// What `resumes_from` says in one sentence: some path segment from `k` on
/// begins a match.
pub proof fn lemma_resumes_from(path: Seq<Seq<char>>, pattern: Seq<Seq<char>>, k: int, j: int)
    requires
        0 <= k,
        0 <= j <= pattern.len(),
    ensures
        resumes_from(path, pattern, k, j) <==> exists|at: int|
            k <= at < path.len() && #[trigger] parts_match_from(path, pattern, at, j),
    decreases path.len() - k,
{
    if k < path.len() {
        lemma_resumes_from(path, pattern, k + 1, j);
        if resumes_from(path, pattern, k, j) {
            if parts_match_from(path, pattern, k, j) {
            } else {
                let at = choose|at: int|
                    k + 1 <= at < path.len() && #[trigger] parts_match_from(path, pattern, at, j);
                assert(k <= at < path.len() && parts_match_from(path, pattern, at, j));
            }
        }
        if exists|at: int|
            k <= at < path.len() && #[trigger] parts_match_from(path, pattern, at, j) {
            let at = choose|at: int|
                k <= at < path.len() && #[trigger] parts_match_from(path, pattern, at, j);
            if at != k {
                assert(k + 1 <= at < path.len() && parts_match_from(path, pattern, at, j));
            }
        }
    }
}

/// Whether a pattern matches a path given by its segments. The pattern `*`
/// matches every path. An anchored pattern and one that holds `/` are
/// matched segment by segment from the start of the path; any other pattern
/// matches where it matches some segment.
pub open spec fn pattern_matches(path: Seq<Seq<char>>, pattern: Seq<char>, anchored: bool) -> bool {
    if pattern == seq!['*'] {
        true
    } else if anchored || pattern.contains('/') {
        parts_match_from(path, split(pattern, '/'), 0, 0)
    } else {
        exists|k: int| 0 <= k < path.len() && #[trigger] glob_matches(path[k], pattern)
    }
}

/// Whether a rule is for a path of the given kind and matches it.
pub open spec fn rule_applies(rule: PatternSpec, path: Seq<Seq<char>>, is_dir: bool) -> bool {
    (!rule.directory_only || is_dir) && pattern_matches(path, rule.text, rule.anchored)
}

/// What the rules say of a path: the last rule that applies decides, and
/// the path is ignored unless that rule is a negation. Where no rule
/// applies the path is not ignored.
pub open spec fn verdict(rules: Seq<PatternSpec>, path: Seq<Seq<char>>, is_dir: bool) -> bool
    decreases rules.len(),
{
    if rules.len() == 0 {
        false
    } else if rule_applies(rules.last(), path, is_dir) {
        !rules.last().negated
    } else {
        verdict(rules.drop_last(), path, is_dir)
    }
}

/// Whether the rules of an ignore file in the directory `base` ignore
/// `path`. They say nothing of paths outside `base`, nor of `base` itself.
pub open spec fn rules_ignore(
    rules: Seq<PatternSpec>,
    base: Seq<char>,
    path: Seq<char>,
    is_dir: bool,
) -> bool {
    match relative_to(path, base) {
        Some(rest) => rest.len() > 0 && verdict(rules, rest, is_dir),
        None => false,
    }
}

/// The non-empty pieces of a sequence of pieces.
pub open spec fn non_empty(pieces: Seq<Seq<char>>) -> Seq<Seq<char>>
    decreases pieces.len(),
{
    if pieces.len() == 0 {
        Seq::empty()
    } else if pieces.last().len() > 0 {
        non_empty(pieces.drop_last()).push(pieces.last())
    } else {
        non_empty(pieces.drop_last())
    }
}

/// The segments of a relative path: its non-empty pieces between slashes.
pub open spec fn segments(path: Seq<char>) -> Seq<Seq<char>> {
    non_empty(split(path, '/'))
}

/// The pattern `**` matches every segment.
pub proof fn lemma_double_star_matches_all(text: Seq<char>)
    ensures
        glob_matches(text, double_star()),
{
    let p = double_star();
    assert(matches_from(text, p, text.len() as int, 2));
    assert(matches_from(text, p, text.len() as int, 1));
    lemma_double_star_from(text, 0);
}

proof fn lemma_double_star_from(text: Seq<char>, i: int)
    requires
        0 <= i <= text.len(),
    ensures
        matches_from(text, double_star(), i, 0),
    decreases text.len() - i,
{
    let p = double_star();
    if i < text.len() {
        lemma_double_star_from(text, i + 1);
    } else {
        assert(matches_from(text, p, i, 2));
        assert(matches_from(text, p, i, 1));
    }
}

/// A pattern matcher for the ignore file of one directory.
pub struct GitignoreMatcher {
    pub patterns: Vec<Pattern>,
    pub base_path: String,
}

/// What a `GitignoreMatcher` stands for: the directory of the ignore file
/// and its rules in file order.
pub ghost struct MatcherSpec {
    pub base: Seq<char>,
    pub rules: Seq<PatternSpec>,
}

impl View for GitignoreMatcher {
    type V = MatcherSpec;

    open spec fn view(&self) -> MatcherSpec {
        MatcherSpec { base: self.base_path@, rules: pattern_specs(self.patterns@) }
    }
}

impl MatcherSpec {
    /// Whether this ignore file ignores `path`.
    pub open spec fn ignores(self, path: Seq<char>, is_dir: bool) -> bool {
        rules_ignore(self.rules, self.base, path, is_dir)
    }
}

impl GitignoreMatcher {
    /// The matcher for an ignore file with the given content in the
    /// directory `base_path`.
    pub fn new(content: &str, base_path: &str) -> (matcher: Self)
        ensures
            matcher@ == (MatcherSpec { base: base_path@, rules: parse_content(content@) }),
    {
        let patterns = Self::parse_gitignore(content);
        GitignoreMatcher { patterns, base_path: base_path.to_owned() }
    }

    /// Parses one line of an ignore file.
    pub fn parse_pattern(line: &[char]) -> (parsed: Option<Pattern>)
        ensures
            parsed is Some == parse_line(line@) is Some,
            parsed matches Some(p) ==> Some(p@) == parse_line(line@),
    {
        let (start, end) = trim_bounds(line);
        if start == end || line[start] == '#' {
            return None;
        }
        let ghost trimmed = line@.subrange(start as int, end as int);
        let mut from = start;
        let mut to = end;
        let is_negation = line[from] == '!';
        if is_negation {
            from += 1;
        }
        let ghost positive = line@.subrange(from as int, to as int);
        assert(positive =~= if is_negation {
            trimmed.skip(1)
        } else {
            trimmed
        });
        let is_directory_only = from < to && line[to - 1] == '/';
        if is_directory_only {
            to -= 1;
        }
        let ghost named = line@.subrange(from as int, to as int);
        assert(named =~= if is_directory_only {
            positive.drop_last()
        } else {
            positive
        });
        let is_absolute = from < to && line[from] == '/';
        if is_absolute {
            from += 1;
        }
        assert(line@.subrange(from as int, to as int) =~= if is_absolute {
            named.skip(1)
        } else {
            named
        });
        let text = copy_range(line, from, to);
        let pattern = string_of(text.as_slice());
        Some(Pattern { pattern, is_negation, is_directory_only, is_absolute })
    }

    /// Parses the content of an ignore file into its rules, in file order.
    pub fn parse_gitignore(content: &str) -> (patterns: Vec<Pattern>)
        ensures
            pattern_specs(patterns@) == parse_content(content@),
    {
        let chars = chars_of(content);
        let lines = split_chars(chars.as_slice(), '\n');
        let mut patterns: Vec<Pattern> = Vec::new();
        let mut i: usize = 0;
        assert(pattern_specs(patterns@) =~= parse_lines(texts(lines@).take(0)));
        while i < lines.len()
            invariant
                i <= lines.len(),
                pattern_specs(patterns@) == parse_lines(texts(lines@).take(i as int)),
            decreases lines.len() - i,
        {
            let ghost before = patterns@;
            proof {
                assert(texts(lines@).take(i + 1).drop_last() =~= texts(lines@).take(i as int));
                assert(texts(lines@).take(i + 1).last() == lines@[i as int]@);
            }
            match Self::parse_pattern(lines[i].as_slice()) {
                Some(pattern) => {
                    patterns.push(pattern);
                    assert(pattern_specs(patterns@) =~= pattern_specs(before).push(pattern@));
                },
                None => {},
            }
            i += 1;
        }
        assert(texts(lines@).take(lines.len() as int) =~= texts(lines@));
        patterns
    }

    /// Tells whether a path, given by its segments below the base
    /// directory, matches a pattern.
    pub fn matches_parts(path_parts: &Vec<Vec<char>>, pattern: &[char], is_absolute: bool) -> (matched:
        bool)
        ensures
            matched == pattern_matches(texts(path_parts@), pattern@, is_absolute),
    {
        if pattern.len() == 1 && pattern[0] == '*' {
            assert(pattern@ =~= seq!['*']);
            return true;
        }
        assert(pattern@ == seq!['*'] ==> pattern@.len() == 1 && pattern@[0] == '*');
        if is_absolute || contains_slash(pattern) {
            let pattern_parts = split_chars(pattern, '/');
            Self::match_parts(path_parts, &pattern_parts, 0)
        } else {
            let mut k: usize = 0;
            while k < path_parts.len()
                invariant
                    k <= path_parts.len(),
                    pattern@ != seq!['*'],
                    !is_absolute,
                    !pattern@.contains('/'),
                    forall|d: int| 0 <= d < k ==> !glob_matches(texts(path_parts@)[d], pattern@),
                decreases path_parts.len() - k,
            {
                if GlobMatcher::matches_chars(path_parts[k].as_slice(), pattern) {
                    assert(glob_matches(texts(path_parts@)[k as int], pattern@));
                    return true;
                }
                k += 1;
            }
            false
        }
    }

    /// Tells whether a relative path matches a pattern.
    pub fn matches_pattern(path: &str, pattern: &str, is_absolute: bool) -> (matched: bool)
        ensures
            matched == pattern_matches(segments(path@), pattern@, is_absolute),
    {
        let path_chars = chars_of(path);
        let pattern_chars = chars_of(pattern);
        let path_parts = segments_of(path_chars.as_slice());
        Self::matches_parts(&path_parts, pattern_chars.as_slice(), is_absolute)
    }

    /// Tells whether the path segments from `start_idx` on begin with
    /// segments that the pattern segments match.
    pub fn match_parts(
        path_parts: &Vec<Vec<char>>,
        pattern_parts: &Vec<Vec<char>>,
        start_idx: usize,
    ) -> (matched: bool)
        ensures
            matched == parts_match_from(
                texts(path_parts@),
                texts(pattern_parts@),
                start_idx as int,
                0,
            ),
    {
        Self::match_parts_from(path_parts, pattern_parts, start_idx, 0)
    }

    /// `match_parts` for the pattern segments from `pattern_start` on.
    fn match_parts_from(
        path_parts: &Vec<Vec<char>>,
        pattern_parts: &Vec<Vec<char>>,
        start_idx: usize,
        pattern_start: usize,
    ) -> (matched: bool)
        requires
            pattern_start <= pattern_parts.len(),
        ensures
            matched == parts_match_from(
                texts(path_parts@),
                texts(pattern_parts@),
                start_idx as int,
                pattern_start as int,
            ),
        decreases pattern_parts.len() - pattern_start,
    {
        let ghost path = texts(path_parts@);
        let ghost pattern = texts(pattern_parts@);
        let ghost goal = parts_match_from(path, pattern, start_idx as int, pattern_start as int);
        let mut path_idx = start_idx;
        let mut pattern_idx = pattern_start;

        while pattern_idx < pattern_parts.len() && path_idx < path_parts.len()
            invariant
                path == texts(path_parts@),
                pattern == texts(pattern_parts@),
                pattern_start <= pattern_idx <= pattern_parts.len(),
                goal == parts_match_from(path, pattern, start_idx as int, pattern_start as int),
                goal == parts_match_from(path, pattern, path_idx as int, pattern_idx as int),
            decreases pattern_parts.len() - pattern_idx,
        {
            let pattern_part = &pattern_parts[pattern_idx];
            assert(pattern[pattern_idx as int] == pattern_part@);
            assert(path[path_idx as int] == path_parts@[path_idx as int]@);
            if is_double_star(pattern_part) {
                if pattern_idx == pattern_parts.len() - 1 {
                    return true;
                }
                pattern_idx += 1;
                let next_pattern = &pattern_parts[pattern_idx];
                assert(pattern[pattern_idx as int] == next_pattern@);
                while path_idx < path_parts.len()
                    invariant
                        path == texts(path_parts@),
                        pattern == texts(pattern_parts@),
                        pattern_start < pattern_idx < pattern_parts.len(),
                        next_pattern@ == pattern[pattern_idx as int],
                        goal == parts_match_from(
                            path,
                            pattern,
                            start_idx as int,
                            pattern_start as int,
                        ),
                        goal == resumes_from(path, pattern, path_idx as int, pattern_idx as int),
                    decreases path_parts.len() - path_idx,
                {
                    assert(path[path_idx as int] == path_parts@[path_idx as int]@);
                    if GlobMatcher::matches_chars(
                        path_parts[path_idx].as_slice(),
                        next_pattern.as_slice(),
                    ) {
                        if Self::match_parts_from(path_parts, pattern_parts, path_idx, pattern_idx) {
                            return true;
                        }
                    } else {
                        proof {
                            lemma_double_star_matches_all(path[path_idx as int]);
                        }
                    }
                    path_idx += 1;
                }
                return false;
            } else if GlobMatcher::matches_chars(
                path_parts[path_idx].as_slice(),
                pattern_part.as_slice(),
            ) {
                path_idx += 1;
                pattern_idx += 1;
            } else {
                return false;
            }
        }

        pattern_idx == pattern_parts.len()
    }

    /// Tells whether this ignore file ignores `path`, which is a directory
    /// if `is_dir` says so. The last rule that matches decides.
    pub fn should_ignore(&self, path: &str, is_dir: bool) -> (ignored: bool)
        ensures
            ignored == self@.ignores(path@, is_dir),
    {
        let path_chars = chars_of(path);
        let path_parts = components_of(path_chars.as_slice());
        self.ignores_parts(path_starts_at_root(path_chars.as_slice()), &path_parts, is_dir)
    }

    /// `should_ignore` for a path given by its components.
    pub fn ignores_parts(&self, path_absolute: bool, path_parts: &Vec<Vec<char>>, is_dir: bool) -> (ignored:
        bool)
        ensures
            forall|path: Seq<char>|
                is_absolute(path) == path_absolute && components(path) == texts(path_parts@)
                    ==> ignored == #[trigger] self@.ignores(path, is_dir),
    {
        let base_chars = chars_of(self.base_path.as_str());
        if path_absolute != path_starts_at_root(base_chars.as_slice()) {
            return false;
        }
        let base_parts = components_of(base_chars.as_slice());
        if !starts_with_parts(path_parts, &base_parts) {
            return false;
        }
        if path_parts.len() == base_parts.len() {
            return false;
        }
        let rest = parts_from(path_parts, base_parts.len());
        assert(texts(base_parts@).len() == base_parts.len());
        self.decide(&rest, is_dir)
    }

    /// What the rules say of a path below the base directory, given by its
    /// segments.
    pub fn decide(&self, rest: &Vec<Vec<char>>, is_dir: bool) -> (ignored: bool)
        ensures
            ignored == verdict(pattern_specs(self.patterns@), texts(rest@), is_dir),
    {
        let ghost rules = pattern_specs(self.patterns@);
        let mut ignored = false;
        let mut i: usize = 0;
        assert(rules.take(0) =~= Seq::<PatternSpec>::empty());
        while i < self.patterns.len()
            invariant
                i <= self.patterns.len(),
                rules == pattern_specs(self.patterns@),
                ignored == verdict(rules.take(i as int), texts(rest@), is_dir),
            decreases self.patterns.len() - i,
        {
            let pattern = &self.patterns[i];
            proof {
                assert(rules.take(i + 1).drop_last() =~= rules.take(i as int));
                assert(rules.take(i + 1).last() == pattern@);
            }
            if !(pattern.is_directory_only && !is_dir) {
                let pattern_chars = chars_of(pattern.pattern.as_str());
                if Self::matches_parts(rest, pattern_chars.as_slice(), pattern.is_absolute) {
                    ignored = !pattern.is_negation;
                }
            }
            i += 1;
        }
        assert(rules.take(self.patterns.len() as int) =~= rules);
        ignored
    }
}

/// Whether two texts name the same path: both start at the root or neither
/// does, and their components are the same.
pub open spec fn same_path(a: Seq<char>, b: Seq<char>) -> bool {
    is_absolute(a) == is_absolute(b) && components(a) == components(b)
}

/// What a `GitignoreManager` stands for.
pub ghost struct ManagerSpec {
    /// The root that the manager was made for.
    pub root: Seq<char>,
    /// The ignore files registered so far, in the order in which they came.
    pub matchers: Seq<MatcherSpec>,
    /// The paths of those ignore files, in the same order.
    pub active: Seq<Seq<char>>,
}

impl ManagerSpec {
    /// Whether an ignore file is registered for the directory `dir`.
    pub open spec fn has_matcher(self, dir: Seq<char>) -> bool {
        exists|i: int| 0 <= i < self.matchers.len() && same_path(#[trigger] self.matchers[i].base, dir)
    }

    /// Whether the registered ignore file `i` has a say below the root: its
    /// directory is the root or lies below it.
    pub open spec fn in_scope(self, i: int) -> bool {
        relative_to(self.matchers[i].base, self.root) is Some
    }

    /// Whether the manager ignores `path`: some registered ignore file of
    /// the root or of a directory between the root and `path` ignores it.
    /// What an ignore file deeper down says cannot take the path back in.
    pub open spec fn ignores(self, path: Seq<char>, is_dir: bool) -> bool {
        exists|i: int|
            0 <= i < self.matchers.len() && #[trigger] self.in_scope(i) && self.matchers[i].ignores(
                path,
                is_dir,
            )
    }

    /// One ignore file for each directory, and the path of each on record.
    pub open spec fn wf(self) -> bool {
        &&& self.active.len() == self.matchers.len()
        &&& forall|i: int|
            0 <= i < self.matchers.len() ==> #[trigger] self.active[i] == joined(
                self.matchers[i].base,
                ignore_file_name(),
            )
        &&& forall|i: int, j: int|
            0 <= i < j < self.matchers.len() ==> !same_path(
                #[trigger] self.matchers[i].base,
                #[trigger] self.matchers[j].base,
            )
    }

    /// The manager after the ignore file of `dir` was looked for, with the
    /// content that was read from it, if any. A directory that has an
    /// ignore file on record keeps it.
    pub open spec fn checked(self, dir: Seq<char>, content: Option<Seq<char>>) -> ManagerSpec {
        match content {
            Some(text) if !self.has_matcher(dir) => ManagerSpec {
                root: self.root,
                matchers: self.matchers.push(MatcherSpec { base: dir, rules: parse_content(text) }),
                active: self.active.push(joined(dir, ignore_file_name())),
            },
            _ => self,
        }
    }
}

/// An ignore file at or below the root that ignores a path settles it: the
/// manager ignores the path, whatever an ignore file deeper down says.
pub proof fn lemma_ancestor_decides(manager: ManagerSpec, i: int, path: Seq<char>, is_dir: bool)
    requires
        0 <= i < manager.matchers.len(),
        manager.in_scope(i),
        manager.matchers[i].ignores(path, is_dir),
    ensures
        manager.ignores(path, is_dir),
{
}

/// A manager only grows: taking note of a directory keeps every ignore
/// file on record, in place, and keeps every path ignored that was.
pub proof fn lemma_checked_grows(
    manager: ManagerSpec,
    dir: Seq<char>,
    content: Option<Seq<char>>,
    path: Seq<char>,
    is_dir: bool,
)
    ensures
        manager.matchers.is_prefix_of(manager.checked(dir, content).matchers),
        manager.active.is_prefix_of(manager.checked(dir, content).active),
        manager.checked(dir, content).root == manager.root,
        manager.ignores(path, is_dir) ==> manager.checked(dir, content).ignores(path, is_dir),
        manager.has_matcher(dir) ==> manager.checked(dir, content) == manager,
{
    let after = manager.checked(dir, content);
    if manager.ignores(path, is_dir) {
        let i = choose|i: int|
            0 <= i < manager.matchers.len() && #[trigger] manager.in_scope(i)
                && manager.matchers[i].ignores(path, is_dir);
        assert(after.matchers[i] == manager.matchers[i]);
        assert(after.in_scope(i));
    }
}

/// The views of a sequence of matchers.
pub open spec fn matcher_specs(matchers: Seq<GitignoreMatcher>) -> Seq<MatcherSpec> {
    Seq::new(matchers.len(), |i: int| matchers[i]@)
}

/// The ignore files found below one root.
pub struct GitignoreManager {
    matchers: Vec<GitignoreMatcher>,
    active_gitignores: Vec<String>,
    root_path: String,
}

impl View for GitignoreManager {
    type V = ManagerSpec;

    closed spec fn view(&self) -> ManagerSpec {
        ManagerSpec {
            root: self.root_path@,
            matchers: matcher_specs(self.matchers@),
            active: string_views(self.active_gitignores@),
        }
    }
}

impl GitignoreManager {
    /// A manager for the root `root_path`. `content` is what was read from
    /// the ignore file of the root, `None` where there is none or it cannot
    /// be read.
    pub fn new(root_path: &str, content: Option<&str>) -> (manager: Self)
        ensures
            manager@.wf(),
            manager@ == (ManagerSpec {
                root: root_path@,
                matchers: Seq::empty(),
                active: Seq::empty(),
            }).checked(root_path@, match content {
                Some(text) => Some(text@),
                None => None,
            }),
    {
        let mut manager = GitignoreManager {
            matchers: Vec::new(),
            active_gitignores: Vec::new(),
            root_path: root_path.to_owned(),
        };
        assert(manager@.matchers =~= Seq::empty());
        assert(manager@.active =~= Seq::empty());
        manager.check_directory(root_path, content);
        manager
    }

    /// Tells whether an ignore file is on record for the directory.
    pub fn has_matcher(&self, dir_path: &str) -> (found: bool)
        ensures
            found == self@.has_matcher(dir_path@),
    {
        let dir_chars = chars_of(dir_path);
        let dir_absolute = path_starts_at_root(dir_chars.as_slice());
        let dir_parts = components_of(dir_chars.as_slice());
        let mut i: usize = 0;
        while i < self.matchers.len()
            invariant
                i <= self.matchers.len(),
                dir_absolute == is_absolute(dir_path@),
                texts(dir_parts@) == components(dir_path@),
                forall|k: int| 0 <= k < i ==> !same_path(#[trigger] self@.matchers[k].base, dir_path@),
            decreases self.matchers.len() - i,
        {
            let base_chars = chars_of(self.matchers[i].base_path.as_str());
            assert(self@.matchers[i as int].base == base_chars@);
            if path_starts_at_root(base_chars.as_slice()) == dir_absolute {
                let base_parts = components_of(base_chars.as_slice());
                if base_parts.len() == dir_parts.len() && starts_with_parts(&base_parts, &dir_parts) {
                    assert(texts(base_parts@) =~= texts(dir_parts@));
                    return true;
                }
            }
            i += 1;
        }
        false
    }

    /// Takes note of the ignore file of a directory. `content` is what was
    /// read from it, `None` where there is none or it cannot be read. A
    /// directory that has an ignore file on record keeps it.
    pub fn check_directory(&mut self, dir_path: &str, content: Option<&str>)
        requires
            old(self)@.wf(),
        ensures
            final(self)@.wf(),
            final(self)@ == old(self)@.checked(dir_path@, match content {
                Some(text) => Some(text@),
                None => None,
            }),
    {
        match content {
            Some(text) => {
                if !self.has_matcher(dir_path) {
                    let ghost before = self@;
                    let matcher = GitignoreMatcher::new(text, dir_path);
                    let dir_chars = chars_of(dir_path);
                    let file = ignore_file_in(dir_chars.as_slice());
                    self.matchers.push(matcher);
                    self.active_gitignores.push(file);
                    assert(self@.matchers =~= before.matchers.push(matcher@));
                    assert(self@.active =~= before.active.push(joined(dir_path@, ignore_file_name())));
                }
            },
            None => {},
        }
    }

    /// Tells whether `path`, which is a directory if `is_dir` says so, is
    /// ignored by an ignore file of the root or of a directory between the
    /// root and the path.
    pub fn should_ignore(&self, path: &str, is_dir: bool) -> (ignored: bool)
        ensures
            ignored == self@.ignores(path@, is_dir),
    {
        let path_chars = chars_of(path);
        let path_absolute = path_starts_at_root(path_chars.as_slice());
        let path_parts = components_of(path_chars.as_slice());
        let root_chars = chars_of(self.root_path.as_str());
        let root_absolute = path_starts_at_root(root_chars.as_slice());
        let root_parts = components_of(root_chars.as_slice());
        let mut i: usize = 0;
        while i < self.matchers.len()
            invariant
                i <= self.matchers.len(),
                path_absolute == is_absolute(path@),
                texts(path_parts@) == components(path@),
                root_absolute == is_absolute(self@.root),
                texts(root_parts@) == components(self@.root),
                forall|k: int|
                    0 <= k < i ==> !(#[trigger] self@.in_scope(k) && self@.matchers[k].ignores(
                        path@,
                        is_dir,
                    )),
            decreases self.matchers.len() - i,
        {
            let matcher = &self.matchers[i];
            assert(self@.matchers[i as int] == matcher@);
            let base_chars = chars_of(matcher.base_path.as_str());
            if path_starts_at_root(base_chars.as_slice()) == root_absolute {
                let base_parts = components_of(base_chars.as_slice());
                if starts_with_parts(&base_parts, &root_parts) {
                    assert(self@.in_scope(i as int));
                    if matcher.ignores_parts(path_absolute, &path_parts, is_dir) {
                        assert(matcher@.ignores(path@, is_dir));
                        return true;
                    }
                    assert(!matcher@.ignores(path@, is_dir));
                }
            }
            i += 1;
        }
        false
    }

    /// The paths of the ignore files on record, in the order in which they
    /// were found.
    pub fn active_gitignores(&self) -> (files: Vec<String>)
        ensures
            string_views(files@) == self@.active,
    {
        let mut files: Vec<String> = Vec::new();
        let mut i: usize = 0;
        while i < self.active_gitignores.len()
            invariant
                i <= self.active_gitignores.len(),
                string_views(files@) == self@.active.take(i as int),
            decreases self.active_gitignores.len() - i,
        {
            let ghost before = files@;
            files.push(self.active_gitignores[i].clone());
            assert(string_views(files@) =~= string_views(before).push(
                self.active_gitignores@[i as int]@,
            ));
            assert(string_views(files@) =~= self@.active.take(i + 1));
            i += 1;
        }
        assert(self@.active.take(self.active_gitignores.len() as int) =~= self@.active);
        files
    }

    /// Tells whether any ignore file is on record.
    pub fn has_active_gitignores(&self) -> (active: bool)
        ensures
            active == (self@.active.len() > 0),
    {
        self.active_gitignores.len() > 0
    }

    /// The root that the manager was made for.
    pub fn root_path(&self) -> (root: String)
        ensures
            root@ == self@.root,
    {
        self.root_path.clone()
    }
}

/// Tells whether `pattern` holds a slash.
fn contains_slash(pattern: &[char]) -> (found: bool)
    ensures
        found == pattern@.contains('/'),
{
    let mut k: usize = 0;
    while k < pattern.len()
        invariant
            k <= pattern.len(),
            forall|d: int| 0 <= d < k ==> pattern@[d] != '/',
        decreases pattern.len() - k,
    {
        if pattern[k] == '/' {
            return true;
        }
        k += 1;
    }
    false
}

/// Tells whether a pattern segment is `**`.
fn is_double_star(part: &Vec<char>) -> (is: bool)
    ensures
        is == (part@ == double_star()),
{
    if part.len() == 2 && part[0] == '*' && part[1] == '*' {
        assert(part@ =~= double_star());
        true
    } else {
        false
    }
}

/// The parts from index `from` on.
fn parts_from(parts: &Vec<Vec<char>>, from: usize) -> (rest: Vec<Vec<char>>)
    requires
        from <= parts.len(),
    ensures
        texts(rest@) == texts(parts@).skip(from as int),
{
    let mut rest: Vec<Vec<char>> = Vec::new();
    let mut i: usize = from;
    while i < parts.len()
        invariant
            from <= i <= parts.len(),
            texts(rest@) == texts(parts@).subrange(from as int, i as int),
        decreases parts.len() - i,
    {
        let ghost before = rest@;
        rest.push(copy_chars(parts[i].as_slice()));
        assert(texts(rest@) =~= texts(before).push(parts@[i as int]@));
        assert(texts(rest@) =~= texts(parts@).subrange(from as int, i + 1));
        i += 1;
    }
    assert(texts(parts@).subrange(from as int, parts.len() as int) =~= texts(parts@).skip(
        from as int,
    ));
    rest
}

/// Splits a relative path into its segments.
pub fn segments_of(path: &[char]) -> (parts: Vec<Vec<char>>)
    ensures
        texts(parts@) == segments(path@),
{
    let pieces = split_chars(path, '/');
    let mut parts: Vec<Vec<char>> = Vec::new();
    let mut i: usize = 0;
    assert(texts(pieces@).take(0) =~= Seq::<Seq<char>>::empty());
    while i < pieces.len()
        invariant
            i <= pieces.len(),
            texts(parts@) == non_empty(texts(pieces@).take(i as int)),
        decreases pieces.len() - i,
    {
        let ghost before = parts@;
        proof {
            assert(texts(pieces@).take(i + 1).drop_last() =~= texts(pieces@).take(i as int));
            assert(texts(pieces@).take(i + 1).last() == pieces@[i as int]@);
        }
        if pieces[i].len() > 0 {
            parts.push(copy_chars(pieces[i].as_slice()));
            assert(texts(parts@) =~= texts(before).push(pieces@[i as int]@));
        }
        i += 1;
    }
    assert(texts(pieces@).take(pieces.len() as int) =~= texts(pieces@));
    parts
}

} // verus!
