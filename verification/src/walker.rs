//! The walker: breadth-first traversal under a size limit.
//!
//! The walker does not read the file system. It is driven: the driver hands
//! it an event, and the walker answers with the next thing to read. What
//! the walker decides at each step is `WalkerSpec::stepped`.

use vstd::prelude::*;
use vstd::string::StringExecFns;
use std::collections::VecDeque;
use crate::config::Config;
use crate::file_processor::{formatted_block, ContentSpec, FileContent, FileProcessor};
use crate::format::ByteFormatter;
use crate::gitignore::{GitignoreManager, ManagerSpec};
use crate::glob::{glob_matches, GlobMatcher};
use crate::path::{components, components_of, is_hidden, is_hidden_path};
use crate::stats::{StatsCollector, StatsSpec};
use crate::order::chars_leq;
use crate::text::{
    byte_len, chars_equal, chars_of, joined_with, push_str, string_of, string_views, texts,
};
use crate::walk_model::{
    entry_leq, entry_order, kind_rank, lemma_consistent_frame, lemma_emitted_consistent,
    lemma_entry_order_total, lemma_inspected_running, lemma_stepped_wf,
    lemma_with_file_consistent,
    is_file_block, noted_ignore_files, truncation_marker, ActionSpec, EntrySpec, EventSpec, InfoSpec,
    OptionsSpec, PathKind, PhaseSpec, WalkerSpec,
};

verus! {

/// The options of a walk.
#[derive(Clone)]
pub struct WalkOptions {
    /// Take in hidden, ignored and binary entries too.
    pub include_all: bool,
    /// The most bytes that the output may collect.
    pub max_size: usize,
    /// The largest file that is taken in.
    pub max_file_size: usize,
    /// Wildcard patterns; a path with a component that one of them matches
    /// is left out.
    pub exclude_patterns: Vec<String>,
}

impl View for WalkOptions {
    type V = OptionsSpec;

    open spec fn view(&self) -> OptionsSpec {
        OptionsSpec {
            include_all: self.include_all,
            max_size: self.max_size as nat,
            max_file_size: self.max_file_size as nat,
            exclude_patterns: string_views(self.exclude_patterns@),
        }
    }
}

impl Default for WalkOptions {
    fn default() -> (options: Self)
        ensures
            options@ == (OptionsSpec {
                include_all: false,
                max_size: Config::DEFAULT_MAX_SIZE as nat,
                max_file_size: Config::DEFAULT_MAX_FILE_SIZE as nat,
                exclude_patterns: Seq::empty(),
            }),
    {
        let options = WalkOptions {
            include_all: false,
            max_size: Config::DEFAULT_MAX_SIZE,
            max_file_size: Config::DEFAULT_MAX_FILE_SIZE,
            exclude_patterns: Vec::new(),
        };
        assert(options@.exclude_patterns =~= Seq::empty());
        options
    }
}

/// What a walk gives.
pub struct WalkResult {
    /// The blocks of all files taken in, a blank line between each two.
    pub content: String,
    /// What the walk counted.
    pub stats: StatsCollector,
    /// Whether the size limit ended the walk.
    pub truncated: bool,
}

/// What inspecting a path found.
pub struct PathInfo {
    /// The canonical form of the path: absolute, without symbolic links.
    pub canonical: String,
    /// What the path leads to.
    pub kind: PathKind,
    /// The size of the file, where it is known.
    pub size: Option<usize>,
}

impl View for PathInfo {
    type V = InfoSpec;

    open spec fn view(&self) -> InfoSpec {
        InfoSpec { canonical: self.canonical@, kind: self.kind, size: self.size }
    }
}

/// An entry of a directory.
pub struct DirEntry {
    /// The path of the entry.
    pub path: String,
    /// What the path leads to.
    pub kind: PathKind,
    /// The size of the file, where it is known.
    pub size: Option<usize>,
}

impl View for DirEntry {
    type V = EntrySpec;

    open spec fn view(&self) -> EntrySpec {
        EntrySpec { path: self.path@, kind: self.kind, size: self.size }
    }
}

/// The views of a sequence of entries.
pub open spec fn entry_views(entries: Seq<DirEntry>) -> Seq<EntrySpec> {
    Seq::new(entries.len(), |i: int| entries[i]@)
}

/// The views of a sequence of managers.
pub open spec fn manager_views(managers: Seq<GitignoreManager>) -> Seq<ManagerSpec> {
    Seq::new(managers.len(), |i: int| managers[i]@)
}

/// What the walker asks the driver to do next.
pub enum WalkAction {
    /// Find the canonical form of the path and what it leads to.
    Inspect(String),
    /// List the entries of the directory, and read its ignore file if
    /// `read_ignore_file` says so.
    ReadDirectory { path: String, read_ignore_file: bool },
    /// Read the first `limit` bytes of the file.
    ReadPrefix { path: String, limit: usize },
    /// Read the file as text.
    ReadText(String),
    /// Nothing: the walk is over.
    Finished,
}

impl View for WalkAction {
    type V = ActionSpec;

    open spec fn view(&self) -> ActionSpec {
        match self {
            WalkAction::Inspect(path) => ActionSpec::Inspect(path@),
            WalkAction::ReadDirectory { path, read_ignore_file } => ActionSpec::ReadDirectory {
                path: path@,
                read_ignore_file: *read_ignore_file,
            },
            WalkAction::ReadPrefix { path, limit } => ActionSpec::ReadPrefix {
                path: path@,
                limit: *limit as nat,
            },
            WalkAction::ReadText(path) => ActionSpec::ReadText(path@),
            WalkAction::Finished => ActionSpec::Finished,
        }
    }
}

/// What the driver hands to the walker.
pub enum WalkEvent {
    /// The walk is to begin, or to go on after more roots were added.
    Start,
    /// What inspecting the path found, `None` where the path has no
    /// canonical form.
    Inspected(Option<PathInfo>),
    /// The entries of the directory, in any order, none where it cannot be
    /// read; and the content of its ignore file where that was asked for
    /// and could be read.
    Directory { ignore_file: Option<String>, entries: Vec<DirEntry> },
    /// The first bytes of the file, `None` where it cannot be opened or
    /// read.
    Prefix(Option<Vec<u8>>),
    /// The text of the file, `None` where it cannot be read as text.
    Text(Option<String>),
}

impl View for WalkEvent {
    type V = EventSpec;

    open spec fn view(&self) -> EventSpec {
        match self {
            WalkEvent::Start => EventSpec::Start,
            WalkEvent::Inspected(info) => EventSpec::Inspected(
                match info {
                    Some(found) => Some(found@),
                    None => None,
                },
            ),
            WalkEvent::Directory { ignore_file, entries } => EventSpec::Directory {
                ignore_file: match ignore_file {
                    Some(content) => Some(content@),
                    None => None,
                },
                entries: entry_views(entries@),
            },
            WalkEvent::Prefix(prefix) => EventSpec::Prefix(
                match prefix {
                    Some(bytes) => Some(bytes@),
                    None => None,
                },
            ),
            WalkEvent::Text(text) => EventSpec::Text(
                match text {
                    Some(content) => Some(content@),
                    None => None,
                },
            ),
        }
    }
}

/// What the walker waits for.
enum Phase {
    Idle,
    Inspecting(String),
    Listing(String),
    ReadingPrefix(String),
    ReadingText(String),
}

impl View for Phase {
    type V = PhaseSpec;

    closed spec fn view(&self) -> PhaseSpec {
        match self {
            Phase::Idle => PhaseSpec::Idle,
            Phase::Inspecting(path) => PhaseSpec::Inspecting(path@),
            Phase::Listing(path) => PhaseSpec::Listing(path@),
            Phase::ReadingPrefix(path) => PhaseSpec::ReadingPrefix(path@),
            Phase::ReadingText(path) => PhaseSpec::ReadingText(path@),
        }
    }
}

/// Walks directory trees breadth first.
pub struct DirectoryWalker {
    contents: Vec<String>,
    total_size: usize,
    truncated: bool,
    stats: StatsCollector,
    options: WalkOptions,
    gitignore_managers: Vec<GitignoreManager>,
    root_paths: Vec<String>,
    visited_paths: Vec<String>,
    queue: VecDeque<String>,
    pending: VecDeque<DirEntry>,
    phase: Phase,
}

impl View for DirectoryWalker {
    type V = WalkerSpec;

    closed spec fn view(&self) -> WalkerSpec {
        WalkerSpec {
            contents: string_views(self.contents@),
            total_size: self.total_size as nat,
            truncated: self.truncated,
            stats: self.stats@,
            options: self.options@,
            managers: manager_views(self.gitignore_managers@),
            roots: string_views(self.root_paths@),
            visited: string_views(self.visited_paths@),
            queue: string_views(self.queue@),
            pending: entry_views(self.pending@),
            phase: self.phase@,
        }
    }
}

impl DirectoryWalker {
    /// What holds of a walker at every moment.
    pub closed spec fn inv(&self) -> bool {
        &&& self@.consistent()
        &&& self.stats.wf()
        &&& forall|m: int|
            0 <= m < self.gitignore_managers.len() ==> (#[trigger] self.gitignore_managers[m])@.wf()
    }

    /// What holds of a walker between steps.
    pub open spec fn wf(&self) -> bool {
        &&& self.inv()
        &&& self@.wf()
    }

    /// A walker with the given options and no root yet.
    pub fn new(options: WalkOptions) -> (walker: Self)
        ensures
            walker.wf(),
            walker@ == WalkerSpec::fresh(options@),
    {
        let walker = DirectoryWalker {
            contents: Vec::new(),
            total_size: 0,
            truncated: false,
            stats: StatsCollector::new(),
            options,
            gitignore_managers: Vec::new(),
            root_paths: Vec::new(),
            visited_paths: Vec::new(),
            queue: VecDeque::new(),
            pending: VecDeque::new(),
            phase: Phase::Idle,
        };
        proof {
            let fresh = WalkerSpec::fresh(options@);
            assert(walker@.contents =~= fresh.contents);
            assert(walker@.managers =~= fresh.managers);
            assert(walker@.roots =~= fresh.roots);
            assert(walker@.visited =~= fresh.visited);
            assert(walker@.queue =~= fresh.queue);
            assert(walker@.pending =~= fresh.pending);
        }
        walker
    }

    /// Adds a root to walk. `ignore_file` is the content of the ignore
    /// file of the root, `None` where there is none or it cannot be read.
    pub fn add_root(&mut self, path: &str, ignore_file: Option<&str>)
        requires
            old(self).wf(),
        ensures
            final(self).wf(),
            final(self)@ == old(self)@.with_root(path@, match ignore_file {
                Some(content) => Some(content@),
                None => None,
            }),
    {
        let ghost before = self@;
        let gitignore = GitignoreManager::new(path, ignore_file);
        if gitignore.has_active_gitignores() {
            self.stats.set_gitignore_active(gitignore.active_gitignores());
        }
        self.root_paths.push(path.to_owned());
        self.queue.push_back(path.to_owned());
        self.gitignore_managers.push(gitignore);
        proof {
            let after = before.with_root(path@, match ignore_file {
                Some(content) => Some(content@),
                None => None,
            });
            assert(self@.roots =~= after.roots);
            assert(self@.queue =~= after.queue);
            assert(self@.managers =~= after.managers);
            assert(self@.stats == after.stats);
            lemma_consistent_frame(before, self@);
            assert forall|m: int| 0 <= m < self.gitignore_managers.len() implies (
            #[trigger] self.gitignore_managers[m])@.wf() by {
                if m < old(self).gitignore_managers.len() {
                    assert(self.gitignore_managers[m] == old(self).gitignore_managers[m]);
                }
            }
        }
    }

    /// Hands a block to the output: the block is taken where it fits under
    /// the size limit; else the truncation marker is, and the walk is over.
    fn emit(&mut self, block: String)
        requires
            old(self).inv(),
            is_file_block(block@),
        ensures
            final(self).inv(),
            final(self)@ == old(self)@.emitted(block@),
    {
        if self.truncated {
            return ;
        }
        let ghost before = self@;
        proof {
            lemma_emitted_consistent(before, block@);
        }
        let size = block.as_str().as_bytes().len();
        let attempted: u128 = self.total_size as u128 + size as u128;
        if attempted > self.options.max_size as u128 {
            let mut marker: Vec<char> = Vec::new();
            push_str(&mut marker, "\n--- TRUNCATED: Size limit of ");
            ByteFormatter::push_as_unit(&mut marker, self.options.max_size);
            push_str(&mut marker, " reached ---\n--- ");
            ByteFormatter::push_size(&mut marker, self.total_size);
            push_str(&mut marker, " collected, ");
            ByteFormatter::push_amount(&mut marker, attempted);
            push_str(&mut marker, " would exceed limit ---");
            assert(marker@ =~= truncation_marker(
                before.options.max_size,
                before.total_size,
                attempted as nat,
            ));
            self.contents.push(string_of(marker.as_slice()));
            self.truncated = true;
            assert(self@.contents =~= before.emitted(block@).contents);
        } else {
            self.total_size = attempted as usize;
            self.contents.push(block);
            assert(self@.contents =~= before.emitted(block@).contents);
        }
    }

    /// Takes in a file that was found to be `content`: a text file is
    /// counted and handed to the output; a binary file is counted, and
    /// handed to the output with `include_all` only; an unreadable file is
    /// counted.
    pub fn process_file(&mut self, path: &str, content: FileContent)
        requires
            old(self).inv(),
        ensures
            final(self).inv(),
            final(self)@ == old(self)@.with_file(path@, content@),
    {
        let ghost before = self@;
        proof {
            lemma_with_file_consistent(before, path@, content@);
        }
        proof {
            let counted = match content@ {
                ContentSpec::Text(text) => WalkerSpec {
                    stats: before.stats.with_text_file(
                        path@,
                        byte_len(formatted_block(path@, content@)->0),
                    ),
                    ..before
                },
                ContentSpec::Binary => WalkerSpec {
                    stats: before.stats.with_binary_file(path@),
                    ..before
                },
                ContentSpec::Unreadable => WalkerSpec {
                    stats: before.stats.with_unreadable_file(),
                    ..before
                },
            };
            lemma_consistent_frame(before, counted);
        }
        match content {
            FileContent::Text(_) => {
                match FileProcessor::format_content(path, content) {
                    Some(block) => {
                        self.stats.record_text_file(path, block.as_str().as_bytes().len());
                        self.emit(block);
                    },
                    None => {},
                }
            },
            FileContent::Binary => {
                self.stats.record_binary_file(path);
                if self.options.include_all {
                    match FileProcessor::format_content(path, content) {
                        Some(block) => {
                            self.emit(block);
                        },
                        None => {},
                    }
                }
            },
            FileContent::Unreadable => {
                self.stats.record_unreadable_file();
            },
        }
    }

    /// Tells whether an exclude pattern matches a component of the path.
    pub fn is_excluded(&self, path: &str) -> (excluded: bool)
        ensures
            excluded == self@.excluded(path@),
    {
        let path_chars = chars_of(path);
        let parts = components_of(path_chars.as_slice());
        let ghost patterns = self@.options.exclude_patterns;
        let mut p: usize = 0;
        while p < self.options.exclude_patterns.len()
            invariant
                p <= self.options.exclude_patterns.len(),
                patterns == self@.options.exclude_patterns,
                texts(parts@) == components(path@),
                forall|i: int, c: int|
                    0 <= i < p && 0 <= c < parts.len() ==> !#[trigger] glob_matches(
                        #[trigger] components(path@)[c],
                        patterns[i],
                    ),
            decreases self.options.exclude_patterns.len() - p,
        {
            let pattern = chars_of(self.options.exclude_patterns[p].as_str());
            assert(pattern@ == patterns[p as int]);
            let mut c: usize = 0;
            while c < parts.len()
                invariant
                    c <= parts.len(),
                    p < self.options.exclude_patterns.len(),
                    patterns == self@.options.exclude_patterns,
                    pattern@ == patterns[p as int],
                    texts(parts@) == components(path@),
                    forall|d: int|
                        0 <= d < c ==> !glob_matches(#[trigger] components(path@)[d], pattern@),
                decreases parts.len() - c,
            {
                assert(texts(parts@)[c as int] == parts@[c as int]@);
                if GlobMatcher::matches_chars(parts[c].as_slice(), pattern.as_slice()) {
                    assert(glob_matches(components(path@)[c as int], patterns[p as int]));
                    return true;
                }
                c += 1;
            }
            p += 1;
        }
        false
    }

    /// Tells whether the path, which is a directory if `is_dir` says so,
    /// is left out by the ignore files of some root or by the exclude
    /// patterns.
    pub fn should_ignore(&self, path: &str, is_dir: bool) -> (ignored: bool)
        ensures
            ignored == self@.ignored(path@, is_dir),
    {
        let mut m: usize = 0;
        while m < self.gitignore_managers.len()
            invariant
                m <= self.gitignore_managers.len(),
                forall|k: int| 0 <= k < m ==> !(#[trigger] self@.managers[k]).ignores(path@, is_dir),
            decreases self.gitignore_managers.len() - m,
        {
            assert(self@.managers[m as int] == self.gitignore_managers@[m as int]@);
            if self.gitignore_managers[m].should_ignore(path, is_dir) {
                return true;
            }
            m += 1;
        }
        self.is_excluded(path)
    }

    /// Tells whether a path of the given kind is taken in, and counts one
    /// that is not: as ignored, or else as hidden.
    pub fn should_process(&mut self, path: &str, kind: PathKind) -> (passes: bool)
        requires
            old(self).inv(),
        ensures
            final(self).inv(),
            passes == old(self)@.passes(path@, kind),
            final(self)@ == (WalkerSpec {
                stats: old(self)@.screened_stats(path@, kind),
                ..old(self)@
            }),
    {
        if self.options.include_all {
            return true;
        }
        let is_dir = match kind {
            PathKind::Directory => true,
            _ => false,
        };
        if self.should_ignore(path, is_dir) {
            match kind {
                PathKind::File => self.stats.record_gitignored_file(),
                PathKind::Directory => self.stats.record_gitignored_directory(),
                PathKind::Other => {},
            }
            proof {
                lemma_consistent_frame(old(self)@, self@);
            }
            return false;
        }
        let path_chars = chars_of(path);
        if is_hidden_path(path_chars.as_slice()) {
            match kind {
                PathKind::File => self.stats.record_skipped_file(),
                PathKind::Directory => self.stats.record_skipped_directory(),
                PathKind::Other => {},
            }
            proof {
                lemma_consistent_frame(old(self)@, self@);
            }
            return false;
        }
        true
    }

    /// Goes on to the next halt of the walk and names what is to be read
    /// there: the first bytes of the next file of the directory at hand
    /// that is not over the size limit, else the next path of the queue.
    pub fn advance(&mut self) -> (action: WalkAction)
        requires
            old(self).inv(),
        ensures
            final(self).inv(),
            (final(self)@, action@) == old(self)@.advanced(),
    {
        loop
            invariant
                self.inv(),
                self@.advanced() == old(self)@.advanced(),
            decreases self.pending.len(),
        {
            let ghost before = self@;
            if self.truncated {
                self.phase = Phase::Idle;
                proof {
                    lemma_consistent_frame(before, self@);
                }
                return WalkAction::Finished;
            }
            match self.pending.pop_front() {
                Some(file) => {
                    assert(self@.pending =~= before.pending.skip(1));
                    assert(file@ == before.pending[0]);
                    let too_large = match file.size {
                        Some(size) => size > self.options.max_file_size,
                        None => false,
                    };
                    if too_large {
                        self.stats.record_skipped_large_file();
                        proof {
                            lemma_consistent_frame(before, self@);
                        }
                    } else {
                        self.phase = Phase::ReadingPrefix(file.path.clone());
                        proof {
                            lemma_consistent_frame(before, self@);
                        }
                        return WalkAction::ReadPrefix {
                            path: file.path,
                            limit: Config::BINARY_CHECK_BUFFER_SIZE,
                        };
                    }
                },
                None => {
                    assert(self@.pending =~= before.pending);
                    match self.queue.pop_front() {
                        Some(path) => {
                            assert(self@.queue =~= before.queue.skip(1));
                            assert(path@ == before.queue[0]);
                            self.phase = Phase::Inspecting(path.clone());
                            proof {
                                lemma_consistent_frame(before, self@);
                            }
                            return WalkAction::Inspect(path);
                        },
                        None => {
                            assert(self@.queue =~= before.queue);
                            self.phase = Phase::Idle;
                            proof {
                                lemma_consistent_frame(before, self@);
                            }
                            return WalkAction::Finished;
                        },
                    }
                },
            }
        }
    }

    /// Tells whether the canonical path was met before.
    fn has_visited(&self, canonical: &String) -> (visited: bool)
        ensures
            visited == self@.visited.contains(canonical@),
    {
        let mut i: usize = 0;
        while i < self.visited_paths.len()
            invariant
                i <= self.visited_paths.len(),
                forall|k: int| 0 <= k < i ==> self@.visited[k] != canonical@,
            decreases self.visited_paths.len() - i,
        {
            if self.visited_paths[i] == *canonical {
                assert(self@.visited[i as int] == canonical@);
                return true;
            }
            i += 1;
        }
        false
    }

    /// Takes in a path from the queue, given what inspecting it found,
    /// `None` where it has no canonical form. Tells whether the path is a
    /// directory whose entries are to be listed.
    pub fn process_path_bfs(&mut self, path: &str, info: Option<PathInfo>) -> (list: bool)
        requires
            old(self).inv(),
        ensures
            final(self).inv(),
            (final(self)@, list) == old(self)@.inspected(path@, match info {
                Some(found) => Some(found@),
                None => None,
            }),
    {
        let ghost before = self@;
        let found = match info {
            Some(found) => found,
            None => {
                return false;
            },
        };
        if self.has_visited(&found.canonical) {
            return false;
        }
        let kind = found.kind;
        let size = found.size;
        self.visited_paths.push(found.canonical);
        let ghost seen = WalkerSpec { visited: before.visited.push(found@.canonical), ..before };
        proof {
            assert(self@.visited =~= seen.visited);
            assert(seen.visited.no_duplicates());
            assert(seen.consistent()) by {
                if before.truncated {
                    let attempted = choose|attempted: nat|
                        attempted > before.options.max_size && before.contents.last()
                            == #[trigger] truncation_marker(
                            before.options.max_size,
                            before.total_size,
                            attempted,
                        );
                    assert(seen.contents.last() == truncation_marker(
                        seen.options.max_size,
                        seen.total_size,
                        attempted,
                    ));
                }
            }
        }
        if !self.should_process(path, kind) {
            return false;
        }
        match kind {
            PathKind::File => {
                self.pending.push_back(DirEntry { path: path.to_owned(), kind, size });
                proof {
                    assert(self@.pending =~= seen.pending.push(
                        EntrySpec { path: path@, kind, size },
                    ));
                    lemma_consistent_frame(seen, self@);
                }
                false
            },
            PathKind::Directory => true,
            PathKind::Other => false,
        }
    }

    /// Tells whether some manager has no ignore file on record for the
    /// directory.
    pub fn wants_ignore_file(&self, dir: &str) -> (wanted: bool)
        ensures
            wanted == self@.wants_ignore_file(dir@),
    {
        let mut m: usize = 0;
        while m < self.gitignore_managers.len()
            invariant
                m <= self.gitignore_managers.len(),
                forall|k: int| 0 <= k < m ==> (#[trigger] self@.managers[k]).has_matcher(dir@),
            decreases self.gitignore_managers.len() - m,
        {
            assert(self@.managers[m as int] == self.gitignore_managers@[m as int]@);
            if !self.gitignore_managers[m].has_matcher(dir) {
                return true;
            }
            m += 1;
        }
        false
    }

    /// What the walker waits for, as the action that it asked for.
    pub fn awaited_action(&self) -> (action: WalkAction)
        ensures
            action@ == self@.awaited(),
    {
        match &self.phase {
            Phase::Idle => WalkAction::Finished,
            Phase::Inspecting(path) => WalkAction::Inspect(path.clone()),
            Phase::Listing(path) => WalkAction::ReadDirectory {
                path: path.clone(),
                read_ignore_file: self.wants_ignore_file(path.as_str()),
            },
            Phase::ReadingPrefix(path) => WalkAction::ReadPrefix {
                path: path.clone(),
                limit: Config::BINARY_CHECK_BUFFER_SIZE,
            },
            Phase::ReadingText(path) => WalkAction::ReadText(path.clone()),
        }
    }
}

impl DirectoryWalker {
    /// Lets every manager take note of the ignore file of a directory,
    /// whose content is given where it was read, and puts on record the
    /// ignore files in use.
    pub fn note_ignore_file(&mut self, dir: &str, content: Option<&str>)
        requires
            old(self).inv(),
        ensures
            final(self).inv(),
            final(self)@ == old(self)@.with_ignore_file(dir@, match content {
                Some(text) => Some(text@),
                None => None,
            }),
    {
        let ghost before = self@;
        let ghost read = match content {
            Some(text) => Some(text@),
            None => None,
        };
        let ghost checked = Seq::new(
            before.managers.len(),
            |k: int| before.managers[k].checked(dir@, read),
        );
        let count = self.gitignore_managers.len();
        let mut m: usize = 0;
        assert(checked.take(0) =~= Seq::<ManagerSpec>::empty());
        while m < count
            invariant
                m <= count,
                count == self.gitignore_managers.len(),
                count == before.managers.len(),
                before == old(self)@,
                old(self).inv(),
                checked == Seq::new(
                    before.managers.len(),
                    |k: int| before.managers[k].checked(dir@, read),
                ),
                read == (match content {
                    Some(text) => Some(text@),
                    None => None,
                }),
                forall|k: int| 0 <= k < m ==> (#[trigger] self.gitignore_managers[k])@ == checked[k],
                forall|k: int|
                    m <= k < count ==> (#[trigger] self.gitignore_managers[k])@ == before.managers[k],
                forall|k: int| 0 <= k < count ==> (#[trigger] self.gitignore_managers[k])@.wf(),
                self.stats.wf(),
                self.stats@ == (StatsSpec {
                    gitignore_files: noted_ignore_files(
                        before.stats.gitignore_files,
                        checked.take(m as int),
                    ),
                    ..before.stats
                }),
                self.contents == old(self).contents,
                self.total_size == old(self).total_size,
                self.truncated == old(self).truncated,
                self.options == old(self).options,
                self.root_paths == old(self).root_paths,
                self.visited_paths == old(self).visited_paths,
                self.queue == old(self).queue,
                self.pending == old(self).pending,
                self.phase == old(self).phase,
            decreases count - m,
        {
            let ghost managers_before = self.gitignore_managers@;
            assert(before.managers[m as int] == old(self).gitignore_managers@[m as int]@);
            self.gitignore_managers[m].check_directory(dir, content);
            assert(self.gitignore_managers@[m as int]@ == checked[m as int]);
            assert(forall|k: int|
                0 <= k < count && k != m ==> self.gitignore_managers@[k] == managers_before[k]);
            proof {
                assert(checked.take(m + 1).drop_last() =~= checked.take(m as int));
                assert(checked.take(m + 1).last() == checked[m as int]);
            }
            if self.gitignore_managers[m].has_active_gitignores() {
                let files = self.gitignore_managers[m].active_gitignores();
                self.stats.set_gitignore_active(files);
            }
            m += 1;
        }
        proof {
            assert(checked.take(count as int) =~= checked);
            assert(self@.managers =~= checked);
            lemma_consistent_frame(before, self@);
        }
    }

    /// Looks at the entries of a directory one after the other: an entry
    /// that is not taken in is counted as such; a file that is taken in
    /// joins the files to read, a directory the end of the queue.
    pub fn take_entries(&mut self, entries: &Vec<DirEntry>)
        requires
            old(self).inv(),
        ensures
            final(self).inv(),
            final(self)@ == old(self)@.with_entries(entry_views(entries@)),
    {
        let ghost before = self@;
        let ghost all = entry_views(entries@);
        let mut i: usize = 0;
        assert(all.take(0) =~= Seq::<EntrySpec>::empty());
        while i < entries.len()
            invariant
                i <= entries.len(),
                all == entry_views(entries@),
                self.inv(),
                self@ == before.with_entries(all.take(i as int)),
            decreases entries.len() - i,
        {
            let ghost start = self@;
            let entry = &entries[i];
            proof {
                assert(all.take(i + 1).drop_last() =~= all.take(i as int));
                assert(all.take(i + 1).last() == entry@);
            }
            if self.should_process(entry.path.as_str(), entry.kind) {
                match entry.kind {
                    PathKind::File => {
                        self.pending.push_back(
                            DirEntry { path: entry.path.clone(), kind: entry.kind, size: entry.size },
                        );
                        proof {
                            assert(self@.pending =~= start.pending.push(entry@));
                            lemma_consistent_frame(start, self@);
                        }
                    },
                    PathKind::Directory => {
                        self.queue.push_back(entry.path.clone());
                        proof {
                            assert(self@.queue =~= start.queue.push(entry@.path));
                            lemma_consistent_frame(start, self@);
                        }
                    },
                    PathKind::Other => {},
                }
            }
            assert(self@ == start.with_entry(entry@));
            i += 1;
        }
        assert(all.take(entries.len() as int) =~= all);
    }

    /// Takes in a directory, given the content of its ignore file and its
    /// entries in any order: the directory is counted, the ignore file is
    /// taken note of, and the entries are looked at in their order.
    pub fn process_directory_bfs(
        &mut self,
        path: &str,
        ignore_file: Option<String>,
        entries: Vec<DirEntry>,
    )
        requires
            old(self).inv(),
        ensures
            final(self).inv(),
            final(self)@ == old(self)@.listed(path@, match ignore_file {
                Some(content) => Some(content@),
                None => None,
            }, entry_views(entries@)),
    {
        let ghost before = self@;
        self.stats.record_directory();
        proof {
            lemma_consistent_frame(before, self@);
        }
        match &ignore_file {
            Some(content) => self.note_ignore_file(path, Some(content.as_str())),
            None => self.note_ignore_file(path, None),
        }
        let sorted = sort_entries(entries);
        self.take_entries(&sorted);
    }

    /// One step of the walk: takes in what the driver read and names what
    /// it is to read next. An event that the walker does not wait for
    /// changes nothing, and the walker asks again for what it waits for.
    pub fn step(&mut self, event: WalkEvent) -> (action: WalkAction)
        requires
            old(self).wf(),
        ensures
            final(self).wf(),
            (final(self)@, action@) == old(self)@.stepped(event@),
    {
        let ghost before = self@;
        proof {
            lemma_stepped_wf(before, event@);
        }
        match event {
            WalkEvent::Start => {
                if let Phase::Idle = &self.phase {
                    return self.advance();
                }
            },
            WalkEvent::Inspected(info) => {
                if let Phase::Inspecting(waiting) = &self.phase {
                    let path = waiting.clone();
                    if self.process_path_bfs(path.as_str(), info) {
                        let ghost inspected = self@;
                        let read_ignore_file = self.wants_ignore_file(path.as_str());
                        self.phase = Phase::Listing(path.clone());
                        proof {
                            lemma_consistent_frame(inspected, self@);
                            lemma_inspected_running(
                                before,
                                path@,
                                event@->Inspected_0,
                            );
                        }
                        return WalkAction::ReadDirectory { path, read_ignore_file };
                    }
                    return self.advance();
                }
            },
            WalkEvent::Directory { ignore_file, entries } => {
                if let Phase::Listing(waiting) = &self.phase {
                    let path = waiting.clone();
                    self.process_directory_bfs(path.as_str(), ignore_file, entries);
                    return self.advance();
                }
            },
            WalkEvent::Prefix(prefix) => {
                if let Phase::ReadingPrefix(waiting) = &self.phase {
                    let path = waiting.clone();
                    let binary = match &prefix {
                        Some(bytes) => FileProcessor::is_binary(bytes.as_slice()),
                        None => false,
                    };
                    if binary {
                        self.process_file(path.as_str(), FileContent::Binary);
                        return self.advance();
                    }
                    self.phase = Phase::ReadingText(path.clone());
                    proof {
                        lemma_consistent_frame(before, self@);
                    }
                    return WalkAction::ReadText(path);
                }
            },
            WalkEvent::Text(text) => {
                if let Phase::ReadingText(waiting) = &self.phase {
                    let path = waiting.clone();
                    self.process_file(path.as_str(), FileProcessor::text_content(text));
                    return self.advance();
                }
            },
        }
        self.awaited_action()
    }

    /// Ends the walk: the blocks, a blank line between each two, with the
    /// statistics and whether the size limit ended the walk.
    pub fn finish(self) -> (result: WalkResult)
        ensures
            result.content@ == self@.content(),
            result.truncated == self@.truncated,
            result.stats@ == self@.stats,
    {
        let ghost blocks = string_views(self.contents@);
        let mut content = String::new();
        let mut i: usize = 0;
        assert(blocks.take(0) =~= Seq::<Seq<char>>::empty());
        while i < self.contents.len()
            invariant
                i <= self.contents.len(),
                blocks == string_views(self.contents@),
                content@ == joined_with(blocks.take(i as int), "\n\n"@),
            decreases self.contents.len() - i,
        {
            proof {
                assert(blocks.take(i + 1).drop_last() =~= blocks.take(i as int));
                assert(blocks.take(i + 1).last() == self.contents@[i as int]@);
            }
            let ghost so_far = content@;
            if i > 0 {
                content.append("\n\n");
            }
            content.append(self.contents[i].as_str());
            assert(content@ =~= joined_with(blocks.take(i + 1), "\n\n"@));
            i += 1;
        }
        assert(blocks.take(self.contents.len() as int) =~= blocks);
        WalkResult { content, stats: self.stats, truncated: self.truncated }
    }
}

/// The number that stands for a kind in the order of entries.
fn rank_of(kind: PathKind) -> (rank: u8)
    ensures
        rank == kind_rank(kind),
{
    match kind {
        PathKind::File => 0,
        PathKind::Directory => 1,
        PathKind::Other => 2,
    }
}

/// Tells whether entry `a` comes before entry `b` or equals it.
pub fn entry_comes_first(a: &DirEntry, b: &DirEntry) -> (first: bool)
    ensures
        first == entry_leq(a@, b@),
{
    let a_path = chars_of(a.path.as_str());
    let b_path = chars_of(b.path.as_str());
    if !chars_equal(a_path.as_slice(), b_path.as_slice()) {
        return chars_leq(a_path.as_slice(), b_path.as_slice());
    }
    let a_rank = rank_of(a.kind);
    let b_rank = rank_of(b.kind);
    if a_rank != b_rank {
        return a_rank < b_rank;
    }
    match (a.size, b.size) {
        (None, _) => true,
        (Some(_), None) => false,
        (Some(x), Some(y)) => x <= y,
    }
}

/// Puts the entries of a directory in their order.
pub fn sort_entries(entries: Vec<DirEntry>) -> (sorted: Vec<DirEntry>)
    ensures
        entry_views(sorted@) == entry_views(entries@).sort_by(entry_order()),
{
    broadcast use {vstd::multiset::group_multiset_axioms, vstd::seq_lib::group_to_multiset_ensures};

    let ghost all = entry_views(entries@);
    let ghost leq = entry_order();
    let mut rest = entries;
    let mut sorted: Vec<DirEntry> = Vec::new();
    proof {
        lemma_entry_order_total();
        assert(entry_views(sorted@) =~= Seq::<EntrySpec>::empty());
        assert(entry_views(sorted@).to_multiset().add(entry_views(rest@).to_multiset())
            =~= all.to_multiset());
    }
    while rest.len() > 0
        invariant
            leq == entry_order(),
            vstd::relations::total_ordering(leq),
            vstd::relations::sorted_by(entry_views(sorted@), leq),
            entry_views(sorted@).to_multiset().add(entry_views(rest@).to_multiset())
                == all.to_multiset(),
        decreases rest.len(),
    {
        let ghost rest_before = entry_views(rest@);
        let ghost sorted_before = entry_views(sorted@);
        let entry = rest.pop().unwrap();
        proof {
            assert(entry_views(rest@) =~= rest_before.drop_last());
            assert(rest_before =~= entry_views(rest@).push(entry@));
        }
        let mut at: usize = sorted.len();
        while at > 0 && !entry_comes_first(&sorted[at - 1], &entry)
            invariant
                at <= sorted.len(),
                leq == entry_order(),
                vstd::relations::total_ordering(leq),
                sorted_before == entry_views(sorted@),
                forall|k: int| at <= k < sorted.len() ==> leq(entry@, #[trigger] sorted_before[k]),
            decreases at,
        {
            assert(!leq(sorted_before[at - 1], entry@));
            assert(leq(entry@, sorted_before[at - 1]));
            at -= 1;
        }
        proof {
            if at > 0 {
                assert(leq(sorted_before[at - 1], entry@));
            }
        }
        sorted.insert(at, entry);
        proof {
            let after = entry_views(sorted@);
            assert(after =~= sorted_before.insert(at as int, entry@));
            assert forall|i: int, j: int| 0 <= i < j < after.len() implies #[trigger] leq(
                after[i],
                after[j],
            ) by {
                if j < at {
                    assert(leq(sorted_before[i], sorted_before[j]));
                } else if j == at {
                    assert(after[i] == sorted_before[i]);
                    if i < at - 1 {
                        assert(leq(sorted_before[i], sorted_before[at - 1]));
                    }
                } else if i < at {
                    assert(leq(sorted_before[i], sorted_before[j - 1]));
                } else if i == at {
                    assert(leq(entry@, sorted_before[j - 1]));
                } else {
                    assert(leq(sorted_before[i - 1], sorted_before[j - 1]));
                }
            }
            vstd::seq_lib::to_multiset_insert(sorted_before, at as int, entry@);
            vstd::seq_lib::to_multiset_build(entry_views(rest@), entry@);
            assert(after.to_multiset().add(entry_views(rest@).to_multiset())
                =~= sorted_before.to_multiset().add(rest_before.to_multiset()));
        }
    }
    proof {
        assert(entry_views(rest@) =~= Seq::<EntrySpec>::empty());
        assert(entry_views(sorted@).to_multiset() =~= all.to_multiset());
        all.lemma_sort_by_ensures(leq);
        vstd::seq_lib::lemma_sorted_unique(entry_views(sorted@), all.sort_by(leq), leq);
    }
    sorted
}

} // verus!
