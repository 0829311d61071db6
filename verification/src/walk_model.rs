//! The walk as a state machine, in mathematical terms.
//!
//! A walk goes on in steps. Each step takes what the driver read from the
//! file system, decides, and names the next thing to read. All that the
//! walker decides is written down here as functions on its model; the
//! executable walker is proved to follow them.

use vstd::prelude::*;
use crate::file_processor::{binary_prefix, block_header, formatted_block, ContentSpec};
use crate::format::{formatted_as_unit, formatted_size};
use crate::gitignore::ManagerSpec;
use crate::glob::glob_matches;
use crate::order::{
    lemma_text_leq_antisymmetric, lemma_text_leq_reflexive, lemma_text_leq_total,
    lemma_text_leq_transitive, text_leq,
};
use crate::path::{components, is_hidden};
use crate::stats::{counted_path, StatsSpec};
use crate::text::{byte_len, joined_with, lemma_byte_len_add};

verus! {

/// What a path leads to.
#[derive(Clone, Copy, Debug)]
pub enum PathKind {
    /// A regular file.
    File,
    /// A directory.
    Directory,
    /// Anything else, or nothing.
    Other,
}

/// An entry of a directory: its path, what it leads to, and the size of the
/// file where that is known.
pub ghost struct EntrySpec {
    pub path: Seq<char>,
    pub kind: PathKind,
    pub size: Option<usize>,
}

/// What inspecting a path found: its canonical form, what it leads to, and
/// the size of the file where that is known.
pub ghost struct InfoSpec {
    pub canonical: Seq<char>,
    pub kind: PathKind,
    pub size: Option<usize>,
}

/// The options of a walk.
pub ghost struct OptionsSpec {
    pub include_all: bool,
    pub max_size: nat,
    pub max_file_size: nat,
    pub exclude_patterns: Seq<Seq<char>>,
}

/// What the walker waits for.
pub ghost enum PhaseSpec {
    /// Nothing: the walk has not begun or has come to its end.
    Idle,
    /// What inspecting the path finds.
    Inspecting(Seq<char>),
    /// The entries of the directory.
    Listing(Seq<char>),
    /// The first bytes of the file.
    ReadingPrefix(Seq<char>),
    /// The text of the file.
    ReadingText(Seq<char>),
}

/// What the walker asks the driver to do next.
pub ghost enum ActionSpec {
    Inspect(Seq<char>),
    ReadDirectory { path: Seq<char>, read_ignore_file: bool },
    ReadPrefix { path: Seq<char>, limit: nat },
    ReadText(Seq<char>),
    Finished,
}

/// What the driver hands to the walker.
pub ghost enum EventSpec {
    Start,
    Inspected(Option<InfoSpec>),
    Directory { ignore_file: Option<Seq<char>>, entries: Seq<EntrySpec> },
    Prefix(Option<Seq<u8>>),
    Text(Option<Seq<char>>),
}

/// The number that stands for a kind in the order of entries.
pub open spec fn kind_rank(kind: PathKind) -> int {
    match kind {
        PathKind::File => 0,
        PathKind::Directory => 1,
        PathKind::Other => 2,
    }
}

/// The number that stands for a size in the order of entries.
pub open spec fn size_rank(size: Option<usize>) -> int {
    match size {
        None => -1,
        Some(n) => n as int,
    }
}

/// The order in which the entries of a directory are gone through: by
/// path; entries of one path, which no directory has, by kind and size.
pub open spec fn entry_leq(a: EntrySpec, b: EntrySpec) -> bool {
    if a.path != b.path {
        text_leq(a.path, b.path)
    } else if kind_rank(a.kind) != kind_rank(b.kind) {
        kind_rank(a.kind) < kind_rank(b.kind)
    } else {
        size_rank(a.size) <= size_rank(b.size)
    }
}

/// The order of entries as a relation.
pub open spec fn entry_order() -> spec_fn(EntrySpec, EntrySpec) -> bool {
    |a: EntrySpec, b: EntrySpec| entry_leq(a, b)
}

/// The block that ends a truncated output: it names the limit, the bytes
/// collected and the bytes that the next block would have brought them to.
pub open spec fn truncation_marker(max_size: nat, collected: nat, attempted: nat) -> Seq<char> {
    "\n--- TRUNCATED: Size limit of "@ + formatted_as_unit(max_size) + " reached ---\n--- "@
        + formatted_size(collected) + " collected, "@ + formatted_size(attempted)
        + " would exceed limit ---"@
}

/// Whether a block is the block of a file.
pub open spec fn is_file_block(block: Seq<char>) -> bool {
    exists|path: Seq<char>, content: ContentSpec| #[trigger]
        formatted_block(path, content) == Some(block)
}

/// Whether a block is a truncation marker.
pub open spec fn is_marker(block: Seq<char>) -> bool {
    exists|max_size: nat, collected: nat, attempted: nat| block == #[trigger] truncation_marker(
        max_size,
        collected,
        attempted,
    )
}

/// The ignore files on record after the managers were gone through: those
/// of the last manager that has any.
pub open spec fn noted_ignore_files(noted: Seq<Seq<char>>, managers: Seq<ManagerSpec>) -> Seq<
    Seq<char>,
>
    decreases managers.len(),
{
    if managers.len() == 0 {
        noted
    } else if managers.last().active.len() > 0 {
        managers.last().active
    } else {
        noted_ignore_files(noted, managers.drop_last())
    }
}

/// The state of a walk.
pub ghost struct WalkerSpec {
    /// The blocks of the output so far.
    pub contents: Seq<Seq<char>>,
    /// The bytes of the blocks collected, the marker not counted.
    pub total_size: nat,
    /// Whether the size limit has ended the walk.
    pub truncated: bool,
    pub stats: StatsSpec,
    pub options: OptionsSpec,
    /// One manager of ignore files for each root.
    pub managers: Seq<ManagerSpec>,
    pub roots: Seq<Seq<char>>,
    /// The canonical forms of the paths taken from the queue so far.
    pub visited: Seq<Seq<char>>,
    /// The paths still to visit, first in, first out.
    pub queue: Seq<Seq<char>>,
    /// The files of the directory at hand that are still to be read.
    pub pending: Seq<EntrySpec>,
    pub phase: PhaseSpec,
}

impl WalkerSpec {
    /// A walker that has no root yet.
    pub open spec fn fresh(options: OptionsSpec) -> WalkerSpec {
        WalkerSpec {
            contents: Seq::empty(),
            total_size: 0,
            truncated: false,
            stats: StatsSpec::empty(),
            options,
            managers: Seq::empty(),
            roots: Seq::empty(),
            visited: Seq::empty(),
            queue: Seq::empty(),
            pending: Seq::empty(),
            phase: PhaseSpec::Idle,
        }
    }

    /// The walker with one more root, whose ignore file had the given
    /// content, if there was one to read.
    pub open spec fn with_root(self, path: Seq<char>, ignore_file: Option<Seq<char>>) -> WalkerSpec {
        let manager = (ManagerSpec { root: path, matchers: Seq::empty(), active: Seq::empty() }).checked(
            path,
            ignore_file,
        );
        WalkerSpec {
            roots: self.roots.push(path),
            queue: self.queue.push(path),
            managers: self.managers.push(manager),
            stats: StatsSpec {
                gitignore_files: if manager.active.len() > 0 {
                    manager.active
                } else {
                    self.stats.gitignore_files
                },
                ..self.stats
            },
            ..self
        }
    }

    /// Whether an exclude pattern of the options matches a component of
    /// the path.
    pub open spec fn excluded(self, path: Seq<char>) -> bool {
        exists|p: int, c: int|
            0 <= p < self.options.exclude_patterns.len() && 0 <= c < components(path).len()
                && #[trigger] glob_matches(
                #[trigger] components(path)[c],
                self.options.exclude_patterns[p],
            )
    }

    /// Whether the ignore files of some root ignore the path.
    pub open spec fn ignored_by_manager(self, path: Seq<char>, is_dir: bool) -> bool {
        exists|m: int| 0 <= m < self.managers.len() && (#[trigger] self.managers[m]).ignores(path, is_dir)
    }

    /// Whether the path is left out by the ignore files or by the exclude
    /// patterns.
    pub open spec fn ignored(self, path: Seq<char>, is_dir: bool) -> bool {
        self.ignored_by_manager(path, is_dir) || self.excluded(path)
    }

    /// Whether a path of the given kind is taken in: with `include_all`
    /// every path is; else a path is unless it is ignored or hidden.
    pub open spec fn passes(self, path: Seq<char>, kind: PathKind) -> bool {
        self.options.include_all || (!self.ignored(path, kind is Directory) && !is_hidden(path))
    }

    /// The statistics after a path of the given kind was looked at: one
    /// that is ignored counts as ignored, one that is hidden and not
    /// ignored counts as skipped, each as a file or as a directory.
    pub open spec fn screened_stats(self, path: Seq<char>, kind: PathKind) -> StatsSpec {
        if self.options.include_all {
            self.stats
        } else if self.ignored(path, kind is Directory) {
            match kind {
                PathKind::File => self.stats.with_gitignored_file(),
                PathKind::Directory => self.stats.with_gitignored_directory(),
                PathKind::Other => self.stats,
            }
        } else if is_hidden(path) {
            match kind {
                PathKind::File => self.stats.with_skipped_file(),
                PathKind::Directory => self.stats.with_skipped_directory(),
                PathKind::Other => self.stats,
            }
        } else {
            self.stats
        }
    }

    /// The walker after a block was handed to the output: the block is
    /// taken where it fits under the size limit; else the truncation marker
    /// is, and the walk is over. A truncated output takes nothing more.
    pub open spec fn emitted(self, block: Seq<char>) -> WalkerSpec {
        let attempted = self.total_size + byte_len(block);
        if self.truncated {
            self
        } else if attempted > self.options.max_size {
            WalkerSpec {
                contents: self.contents.push(
                    truncation_marker(self.options.max_size, self.total_size, attempted),
                ),
                truncated: true,
                ..self
            }
        } else {
            WalkerSpec { contents: self.contents.push(block), total_size: attempted, ..self }
        }
    }

    /// The walker after the file at `path` was found to be `content`. A
    /// text file is counted with the size of its block and handed to the
    /// output. A binary file is counted, and handed to the output with
    /// `include_all` only. An unreadable file is counted.
    pub open spec fn with_file(self, path: Seq<char>, content: ContentSpec) -> WalkerSpec {
        match content {
            ContentSpec::Text(text) => {
                let block = formatted_block(path, content)->0;
                (WalkerSpec { stats: self.stats.with_text_file(path, byte_len(block)), ..self }).emitted(
                    block,
                )
            },
            ContentSpec::Binary => {
                let counted = WalkerSpec { stats: self.stats.with_binary_file(path), ..self };
                if self.options.include_all {
                    counted.emitted(formatted_block(path, content)->0)
                } else {
                    counted
                }
            },
            ContentSpec::Unreadable => WalkerSpec {
                stats: self.stats.with_unreadable_file(),
                ..self
            },
        }
    }

    /// Whether a file of that size is over the limit for one file.
    pub open spec fn too_large(self, size: Option<usize>) -> bool {
        size matches Some(n) && n > self.options.max_file_size
    }

    /// The walker at its next halt, and what it asks for there. A
    /// truncated walk is over. Else the files of the directory at hand come
    /// first, in order: one over the size limit is counted and passed over,
    /// of the next the first bytes are asked for. Then the next path of
    /// the queue is to be inspected. With nothing left the walk is over.
    pub open spec fn advanced(self) -> (WalkerSpec, ActionSpec)
        decreases self.pending.len(),
    {
        if self.truncated {
            (WalkerSpec { phase: PhaseSpec::Idle, ..self }, ActionSpec::Finished)
        } else if self.pending.len() > 0 {
            let file = self.pending[0];
            let rest = WalkerSpec { pending: self.pending.skip(1), ..self };
            if self.too_large(file.size) {
                (WalkerSpec { stats: self.stats.with_skipped_large_file(), ..rest }).advanced()
            } else {
                (
                    WalkerSpec { phase: PhaseSpec::ReadingPrefix(file.path), ..rest },
                    ActionSpec::ReadPrefix { path: file.path, limit: 8192 },
                )
            }
        } else if self.queue.len() > 0 {
            (
                WalkerSpec {
                    queue: self.queue.skip(1),
                    phase: PhaseSpec::Inspecting(self.queue[0]),
                    ..self
                },
                ActionSpec::Inspect(self.queue[0]),
            )
        } else {
            (WalkerSpec { phase: PhaseSpec::Idle, ..self }, ActionSpec::Finished)
        }
    }

    /// Whether some manager has no ignore file on record for the
    /// directory, so that the file is worth reading.
    pub open spec fn wants_ignore_file(self, dir: Seq<char>) -> bool {
        exists|m: int| 0 <= m < self.managers.len() && !(#[trigger] self.managers[m]).has_matcher(dir)
    }

    /// The walker after the path taken from the queue was inspected, and
    /// whether its entries are to be listed. A path that has no canonical
    /// form, or one whose canonical form was met before, is passed over
    /// and leaves no trace. Else the canonical form is kept in mind; a path
    /// that is not taken in is counted as such; a file that is taken in is
    /// next to be read; a directory that is taken in is to be listed.
    pub open spec fn inspected(self, path: Seq<char>, info: Option<InfoSpec>) -> (WalkerSpec, bool) {
        match info {
            None => (self, false),
            Some(found) => if self.visited.contains(found.canonical) {
                (self, false)
            } else {
                let seen = WalkerSpec { visited: self.visited.push(found.canonical), ..self };
                if !seen.passes(path, found.kind) {
                    (WalkerSpec { stats: seen.screened_stats(path, found.kind), ..seen }, false)
                } else {
                    match found.kind {
                        PathKind::File => (
                            WalkerSpec {
                                pending: seen.pending.push(
                                    EntrySpec { path, kind: found.kind, size: found.size },
                                ),
                                ..seen
                            },
                            false,
                        ),
                        PathKind::Directory => (seen, true),
                        PathKind::Other => (seen, false),
                    }
                }
            },
        }
    }

    /// The walker after one entry of a directory was looked at: an entry
    /// that is not taken in is counted as such; a file that is taken in
    /// joins the files to read, a directory the end of the queue.
    pub open spec fn with_entry(self, entry: EntrySpec) -> WalkerSpec {
        if !self.passes(entry.path, entry.kind) {
            WalkerSpec { stats: self.screened_stats(entry.path, entry.kind), ..self }
        } else {
            match entry.kind {
                PathKind::File => WalkerSpec { pending: self.pending.push(entry), ..self },
                PathKind::Directory => WalkerSpec { queue: self.queue.push(entry.path), ..self },
                PathKind::Other => self,
            }
        }
    }

    /// The walker after the entries were looked at one after the other.
    pub open spec fn with_entries(self, entries: Seq<EntrySpec>) -> WalkerSpec
        decreases entries.len(),
    {
        if entries.len() == 0 {
            self
        } else {
            self.with_entries(entries.drop_last()).with_entry(entries.last())
        }
    }

    /// The walker after every manager took note of the ignore file of the
    /// directory `dir`.
    pub open spec fn with_ignore_file(self, dir: Seq<char>, ignore_file: Option<Seq<char>>) -> WalkerSpec {
        let managers = Seq::new(
            self.managers.len(),
            |m: int| self.managers[m].checked(dir, ignore_file),
        );
        WalkerSpec {
            managers,
            stats: StatsSpec {
                gitignore_files: noted_ignore_files(self.stats.gitignore_files, managers),
                ..self.stats
            },
            ..self
        }
    }

    /// The walker after the directory `dir` was listed: the directory is
    /// counted, its ignore file is taken note of, and its entries are
    /// looked at in their order, whatever the order in which they came.
    pub open spec fn listed(
        self,
        dir: Seq<char>,
        ignore_file: Option<Seq<char>>,
        entries: Seq<EntrySpec>,
    ) -> WalkerSpec {
        (WalkerSpec { stats: self.stats.with_directory(), ..self }).with_ignore_file(
            dir,
            ignore_file,
        ).with_entries(entries.sort_by(entry_order()))
    }

    /// What the walker waits for, as the action that it asked for.
    pub open spec fn awaited(self) -> ActionSpec {
        match self.phase {
            PhaseSpec::Idle => ActionSpec::Finished,
            PhaseSpec::Inspecting(path) => ActionSpec::Inspect(path),
            PhaseSpec::Listing(path) => ActionSpec::ReadDirectory {
                path,
                read_ignore_file: self.wants_ignore_file(path),
            },
            PhaseSpec::ReadingPrefix(path) => ActionSpec::ReadPrefix { path, limit: 8192 },
            PhaseSpec::ReadingText(path) => ActionSpec::ReadText(path),
        }
    }

    /// One step of the walk: the walker after the event, and what it asks
    /// for next. An event that the walker does not wait for changes
    /// nothing, and the walker asks again for what it waits for.
    pub open spec fn stepped(self, event: EventSpec) -> (WalkerSpec, ActionSpec) {
        match (self.phase, event) {
            (PhaseSpec::Idle, EventSpec::Start) => self.advanced(),
            (PhaseSpec::Inspecting(path), EventSpec::Inspected(info)) => {
                let (next, list) = self.inspected(path, info);
                if list {
                    (
                        WalkerSpec { phase: PhaseSpec::Listing(path), ..next },
                        ActionSpec::ReadDirectory {
                            path,
                            read_ignore_file: next.wants_ignore_file(path),
                        },
                    )
                } else {
                    next.advanced()
                }
            },
            (PhaseSpec::Listing(path), EventSpec::Directory { ignore_file, entries }) => self.listed(
                path,
                ignore_file,
                entries,
            ).advanced(),
            (PhaseSpec::ReadingPrefix(path), EventSpec::Prefix(prefix)) => {
                if prefix matches Some(bytes) && binary_prefix(bytes) {
                    self.with_file(path, ContentSpec::Binary).advanced()
                } else {
                    (
                        WalkerSpec { phase: PhaseSpec::ReadingText(path), ..self },
                        ActionSpec::ReadText(path),
                    )
                }
            },
            (PhaseSpec::ReadingText(path), EventSpec::Text(text)) => self.with_file(
                path,
                match text {
                    Some(content) => ContentSpec::Text(content),
                    None => ContentSpec::Unreadable,
                },
            ).advanced(),
            _ => (self, self.awaited()),
        }
    }

    /// The walker after a sequence of events, each taken in by one step.
    pub open spec fn run(self, events: Seq<EventSpec>) -> WalkerSpec
        decreases events.len(),
    {
        if events.len() == 0 {
            self
        } else {
            self.run(events.drop_last()).stepped(events.last()).0
        }
    }

    /// Whether the walker waits for an event of this kind.
    pub open spec fn awaits(self, event: EventSpec) -> bool {
        match (self.phase, event) {
            (PhaseSpec::Idle, EventSpec::Start) => true,
            (PhaseSpec::Inspecting(_), EventSpec::Inspected(_)) => true,
            (PhaseSpec::Listing(_), EventSpec::Directory { .. }) => true,
            (PhaseSpec::ReadingPrefix(_), EventSpec::Prefix(_)) => true,
            (PhaseSpec::ReadingText(_), EventSpec::Text(_)) => true,
            _ => false,
        }
    }

    /// The steps that the walker owes at most for what it has at hand:
    /// four for each path in the queue, three for each file to read, and
    /// up to three for what it waits for.
    pub open spec fn owed(self) -> nat {
        4 * self.queue.len() + 3 * self.pending.len() + match self.phase {
            PhaseSpec::Idle => 0nat,
            PhaseSpec::Inspecting(_) => 3nat,
            PhaseSpec::Listing(_) => 1nat,
            PhaseSpec::ReadingPrefix(_) => 2nat,
            PhaseSpec::ReadingText(_) => 1nat,
        }
    }

    /// Whether each of the events is one that the walker waits for when it
    /// comes, and none is answered by the end of the walk: the events of a
    /// walk that is still under way.
    pub open spec fn under_way(self, events: Seq<EventSpec>) -> bool
        decreases events.len(),
    {
        events.len() == 0 || (self.under_way(events.drop_last()) && self.run(
            events.drop_last(),
        ).awaits(events.last()) && !(self.run(events.drop_last()).stepped(events.last()).1
            is Finished))
    }

    /// The output: the blocks with a blank line between each two.
    pub open spec fn content(self) -> Seq<char> {
        joined_with(self.contents, "\n\n"@)
    }

    /// The bytes of all blocks.
    pub open spec fn blocks_size(blocks: Seq<Seq<char>>) -> nat
        decreases blocks.len(),
    {
        if blocks.len() == 0 {
            0
        } else {
            Self::blocks_size(blocks.drop_last()) + byte_len(blocks.last())
        }
    }

    /// What holds of a walker at every moment: the output holds blocks of
    /// files, whose bytes are the bytes collected, and they keep to the
    /// size limit; a truncated output ends with the marker, which follows
    /// the blocks of files; no canonical path is kept in mind twice.
    pub open spec fn consistent(self) -> bool {
        &&& self.total_size <= self.options.max_size
        &&& self.visited.no_duplicates()
        &&& if self.truncated {
            &&& self.contents.len() > 0
            &&& self.total_size == Self::blocks_size(self.contents.drop_last())
            &&& forall|i: int|
                0 <= i < self.contents.len() - 1 ==> is_file_block(#[trigger] self.contents[i])
            &&& exists|attempted: nat|
                attempted > self.options.max_size && self.contents.last() == #[trigger] truncation_marker(
                    self.options.max_size,
                    self.total_size,
                    attempted,
                )
        } else {
            &&& self.total_size == Self::blocks_size(self.contents)
            &&& forall|i: int| 0 <= i < self.contents.len() ==> is_file_block(#[trigger] self.contents[i])
        }
    }

    /// The directories that were gone through or are about to be.
    pub open spec fn directories_entered(self) -> nat {
        if self.phase is Listing {
            self.stats.directories_processed + 1
        } else {
            self.stats.directories_processed
        }
    }

    /// What holds of a walker between steps: it is consistent, a truncated
    /// walk is over, and the directories gone through do not outnumber
    /// the canonical paths met. As no canonical path is met twice, no
    /// directory is gone through twice, by whatever links it is reached.
    pub open spec fn wf(self) -> bool {
        &&& self.consistent()
        &&& self.truncated ==> self.phase is Idle
        &&& self.directories_entered() <= self.visited.len()
    }
}

/// Whether a walker is consistent rests on its output, its size, its limit
/// and the paths it keeps in mind, and on nothing else.
pub proof fn lemma_consistent_frame(before: WalkerSpec, after: WalkerSpec)
    requires
        before.consistent(),
        after.contents == before.contents,
        after.total_size == before.total_size,
        after.truncated == before.truncated,
        after.options.max_size == before.options.max_size,
        after.visited == before.visited,
    ensures
        after.consistent(),
{
    if before.truncated {
        let attempted = choose|attempted: nat|
            attempted > before.options.max_size && before.contents.last() == #[trigger] truncation_marker(
                before.options.max_size,
                before.total_size,
                attempted,
            );
        assert(after.contents.last() == truncation_marker(
            after.options.max_size,
            after.total_size,
            attempted,
        ));
    }
}

/// Handing a block to the output keeps the walker consistent: the bytes
/// collected never pass the size limit, and an output holds at most one
/// truncation marker, which is its last block.
pub proof fn lemma_emitted_consistent(walker: WalkerSpec, block: Seq<char>)
    requires
        walker.consistent(),
        is_file_block(block),
    ensures
        walker.emitted(block).consistent(),
        walker.emitted(block).total_size <= walker.options.max_size,
        walker.emitted(block).truncated <==> walker.truncated || walker.total_size + byte_len(block)
            > walker.options.max_size,
{
    let after = walker.emitted(block);
    let attempted = walker.total_size + byte_len(block);
    if walker.truncated {
        assert(after == walker);
    } else if attempted > walker.options.max_size {
        assert(after.contents.drop_last() =~= walker.contents);
        assert(after.contents.last() == truncation_marker(
            walker.options.max_size,
            walker.total_size,
            attempted,
        ));
        assert forall|i: int| 0 <= i < after.contents.len() - 1 implies is_file_block(
            #[trigger] after.contents[i],
        ) by {
            assert(after.contents[i] == walker.contents[i]);
        }
        assert(after.consistent());
    } else {
        assert(after.contents.drop_last() =~= walker.contents);
        assert(after.contents.last() == block);
        assert(WalkerSpec::blocks_size(after.contents) == WalkerSpec::blocks_size(walker.contents)
            + byte_len(block));
        assert forall|i: int| 0 <= i < after.contents.len() implies is_file_block(
            #[trigger] after.contents[i],
        ) by {
            if i < walker.contents.len() {
                assert(after.contents[i] == walker.contents[i]);
            }
        }
        assert(after.consistent());
    }
}

/// Taking a file in keeps the walker consistent.
pub proof fn lemma_with_file_consistent(walker: WalkerSpec, path: Seq<char>, content: ContentSpec)
    requires
        walker.consistent(),
    ensures
        walker.with_file(path, content).consistent(),
{
    match content {
        ContentSpec::Text(text) => {
            let block = formatted_block(path, content)->0;
            let counted = WalkerSpec {
                stats: walker.stats.with_text_file(path, byte_len(block)),
                ..walker
            };
            lemma_consistent_frame(walker, counted);
            assert(formatted_block(path, content) == Some(block));
            lemma_emitted_consistent(counted, block);
        },
        ContentSpec::Binary => {
            let counted = WalkerSpec { stats: walker.stats.with_binary_file(path), ..walker };
            lemma_consistent_frame(walker, counted);
            assert(formatted_block(path, content) == Some(formatted_block(path, content)->0));
            lemma_emitted_consistent(counted, formatted_block(path, content)->0);
        },
        ContentSpec::Unreadable => {
            lemma_consistent_frame(walker, walker.with_file(path, content));
        },
    }
}

/// The order of entries is a total order: it holds of every entry and
/// itself, of no two different entries both ways, it passes on, and it
/// holds of any two entries one way or the other.
pub proof fn lemma_entry_order_total()
    ensures
        vstd::relations::total_ordering(entry_order()),
{
    let leq = entry_order();
    assert forall|a: EntrySpec| #[trigger] leq(a, a) by {
        lemma_text_leq_reflexive(a.path);
    }
    assert forall|a: EntrySpec, b: EntrySpec| #[trigger] leq(a, b) && #[trigger] leq(b, a) implies a
        == b by {
        if a.path != b.path {
            lemma_text_leq_antisymmetric(a.path, b.path);
        }
    }
    assert forall|a: EntrySpec, b: EntrySpec, c: EntrySpec| #[trigger]
        leq(a, b) && #[trigger] leq(b, c) implies leq(a, c) by {
        if a.path != b.path && b.path != c.path {
            lemma_text_leq_transitive(a.path, b.path, c.path);
            if a.path == c.path {
                lemma_text_leq_antisymmetric(a.path, b.path);
            }
        }
    }
    assert forall|a: EntrySpec, b: EntrySpec| #[trigger] leq(a, b) || #[trigger] leq(b, a) by {
        lemma_text_leq_total(a.path, b.path);
    }
}

/// A path that is to be listed leaves the walk running: inspecting a path
/// never truncates the output.
pub proof fn lemma_inspected_running(walker: WalkerSpec, path: Seq<char>, info: Option<InfoSpec>)
    ensures
        walker.inspected(path, info).0.truncated == walker.truncated,
{
}

/// Whether two events tell the same of the file system: they are equal,
/// or they list the same entries of a directory in two orders.
pub open spec fn same_reading(a: EventSpec, b: EventSpec) -> bool {
    match (a, b) {
        (
            EventSpec::Directory { ignore_file: ignore_a, entries: entries_a },
            EventSpec::Directory { ignore_file: ignore_b, entries: entries_b },
        ) => ignore_a == ignore_b && entries_a.to_multiset() == entries_b.to_multiset(),
        _ => a == b,
    }
}

/// The entries of a directory are gone through in their order, whatever
/// the order in which they were listed: two listings of the same entries
/// are put in the same order, which is sorted.
pub proof fn lemma_listing_order(a: Seq<EntrySpec>, b: Seq<EntrySpec>)
    requires
        a.to_multiset() == b.to_multiset(),
    ensures
        a.sort_by(entry_order()) == b.sort_by(entry_order()),
        vstd::relations::sorted_by(a.sort_by(entry_order()), entry_order()),
        a.sort_by(entry_order()).to_multiset() == a.to_multiset(),
{
    lemma_entry_order_total();
    a.lemma_sort_by_ensures(entry_order());
    b.lemma_sort_by_ensures(entry_order());
    vstd::seq_lib::lemma_sorted_unique(
        a.sort_by(entry_order()),
        b.sort_by(entry_order()),
        entry_order(),
    );
}

/// A step does not depend on the order in which a directory was listed.
pub proof fn lemma_step_ignores_listing_order(walker: WalkerSpec, a: EventSpec, b: EventSpec)
    requires
        same_reading(a, b),
    ensures
        walker.stepped(a) == walker.stepped(b),
{
    match (a, b) {
        (
            EventSpec::Directory { ignore_file: ignore_a, entries: entries_a },
            EventSpec::Directory { ignore_file: ignore_b, entries: entries_b },
        ) => {
            lemma_listing_order(entries_a, entries_b);
        },
        _ => {},
    }
}

/// A walk is determined by what is read: two walks that start alike and
/// are told the same of the file system, directories listed in any order,
/// end alike, with the same output and the same counts.
pub proof fn lemma_walk_deterministic(walker: WalkerSpec, a: Seq<EventSpec>, b: Seq<EventSpec>)
    requires
        a.len() == b.len(),
        forall|i: int| 0 <= i < a.len() ==> same_reading(#[trigger] a[i], b[i]),
    ensures
        walker.run(a) == walker.run(b),
    decreases a.len(),
{
    if a.len() > 0 {
        assert forall|i: int| 0 <= i < a.drop_last().len() implies same_reading(
            #[trigger] a.drop_last()[i],
            b.drop_last()[i],
        ) by {
            assert(same_reading(a[i], b[i]));
        }
        lemma_walk_deterministic(walker, a.drop_last(), b.drop_last());
        assert(same_reading(a[a.len() - 1], b[a.len() - 1]));
        lemma_step_ignores_listing_order(walker.run(a.drop_last()), a.last(), b.last());
    }
}

/// A path whose canonical form was met before is passed over and leaves no
/// trace, and a path that was inspected has its canonical form kept in
/// mind: however often a canonical path comes up, it is taken in once.
pub proof fn lemma_visited_once(
    walker: WalkerSpec,
    path: Seq<char>,
    found: InfoSpec,
    later_path: Seq<char>,
    later: InfoSpec,
)
    requires
        later.canonical == found.canonical,
    ensures
        walker.visited.contains(found.canonical) ==> walker.inspected(path, Some(found)) == (
            walker,
            false,
        ),
        walker.inspected(path, Some(found)).0.visited.contains(found.canonical),
        walker.inspected(path, Some(found)).0.inspected(later_path, Some(later)) == (
            walker.inspected(path, Some(found)).0,
            false,
        ),
        walker.inspected(path, None) == (walker, false),
{
    if !walker.visited.contains(found.canonical) {
        let seen = walker.visited.push(found.canonical);
        assert(seen[seen.len() - 1] == found.canonical);
        assert(seen.contains(found.canonical));
    }
}

/// A directory is listed only when its canonical form comes up for the
/// first time, and that form is kept in mind from then on: no directory is
/// listed twice, by whatever paths and links it is reached.
pub proof fn lemma_listing_needs_new_path(walker: WalkerSpec, path: Seq<char>, info: Option<InfoSpec>)
    requires
        walker.phase == PhaseSpec::Inspecting(path),
        walker.stepped(EventSpec::Inspected(info)).1 is ReadDirectory,
    ensures
        info matches Some(found) && found.kind is Directory && !walker.visited.contains(
            found.canonical,
        ) && walker.stepped(EventSpec::Inspected(info)).0.visited == walker.visited.push(
            found.canonical,
        ),
{
    let (next, list) = walker.inspected(path, info);
    if !list {
        lemma_advanced_never_reads_text(next);
    }
}

/// What a walker keeps in mind it never forgets: every step keeps the
/// canonical paths met so far, in place.
pub proof fn lemma_visited_grows(walker: WalkerSpec, event: EventSpec)
    ensures
        walker.visited.is_prefix_of(walker.stepped(event).0.visited),
{
    let after = walker.stepped(event).0;
    match (walker.phase, event) {
        (PhaseSpec::Idle, EventSpec::Start) => {
            lemma_advanced_keeps_output(walker);
        },
        (PhaseSpec::Inspecting(path), EventSpec::Inspected(info)) => {
            let (next, list) = walker.inspected(path, info);
            assert(walker.visited.is_prefix_of(next.visited));
            lemma_advanced_keeps_output(next);
        },
        (PhaseSpec::Listing(path), EventSpec::Directory { ignore_file, entries }) => {
            let listed = walker.listed(path, ignore_file, entries);
            let noted = (WalkerSpec { stats: walker.stats.with_directory(), ..walker }).with_ignore_file(
                path,
                ignore_file,
            );
            lemma_with_entries_keeps(noted, entries.sort_by(entry_order()));
            lemma_advanced_keeps_output(listed);
        },
        (PhaseSpec::ReadingPrefix(path), EventSpec::Prefix(prefix)) => {
            lemma_advanced_keeps_output(walker.with_file(path, ContentSpec::Binary));
        },
        (PhaseSpec::ReadingText(path), EventSpec::Text(text)) => {
            lemma_advanced_keeps_output(
                walker.with_file(
                    path,
                    match text {
                        Some(content) => ContentSpec::Text(content),
                        None => ContentSpec::Unreadable,
                    },
                ),
            );
        },
        _ => {},
    }
}

/// Looking at the entries of a directory adds to the files to read and to
/// the queue and to the counts, and touches nothing else.
pub proof fn lemma_with_entries_keeps(walker: WalkerSpec, entries: Seq<EntrySpec>)
    ensures
        walker.with_entries(entries).visited == walker.visited,
        walker.with_entries(entries).contents == walker.contents,
        walker.with_entries(entries).total_size == walker.total_size,
        walker.with_entries(entries).truncated == walker.truncated,
        walker.with_entries(entries).options == walker.options,
        walker.with_entries(entries).managers == walker.managers,
        walker.with_entries(entries).phase == walker.phase,
        walker.with_entries(entries).stats.directories_processed
            == walker.stats.directories_processed,
        walker.pending.is_prefix_of(walker.with_entries(entries).pending),
        walker.queue.is_prefix_of(walker.with_entries(entries).queue),
    decreases entries.len(),
{
    if entries.len() > 0 {
        lemma_with_entries_keeps(walker, entries.drop_last());
    }
}

/// Going on to the next halt leaves the output as it is.
pub proof fn lemma_advanced_keeps_output(walker: WalkerSpec)
    ensures
        walker.advanced().0.contents == walker.contents,
        walker.advanced().0.total_size == walker.total_size,
        walker.advanced().0.truncated == walker.truncated,
        walker.advanced().0.options == walker.options,
        walker.advanced().0.visited == walker.visited,
        walker.advanced().0.stats.directories_processed == walker.stats.directories_processed,
        !(walker.advanced().0.phase is Listing),
        walker.truncated ==> walker.advanced().0.phase is Idle,
        walker.truncated ==> walker.advanced().1 is Finished,
    decreases walker.pending.len(),
{
    if !walker.truncated && walker.pending.len() > 0 && walker.too_large(walker.pending[0].size) {
        lemma_advanced_keeps_output(
            WalkerSpec {
                stats: walker.stats.with_skipped_large_file(),
                pending: walker.pending.skip(1),
                ..walker
            },
        );
    }
}

/// A file over the size limit adds nothing to the output and is counted
/// once as passed over for its size, and as nothing else: the walk goes on
/// as if the file had not been listed, but for that count. The count goes
/// up by one unless it stands at the largest number already.
pub proof fn lemma_large_file_skipped(walker: WalkerSpec)
    requires
        !walker.truncated,
        walker.pending.len() > 0,
        walker.too_large(walker.pending[0].size),
    ensures
        walker.advanced() == (WalkerSpec {
            stats: walker.stats.with_skipped_large_file(),
            pending: walker.pending.skip(1),
            ..walker
        }).advanced(),
        walker.advanced().0.contents == walker.contents,
        walker.advanced().0.total_size == walker.total_size,
        walker.advanced().0.truncated == walker.truncated,
        walker.stats.with_skipped_large_file() == (StatsSpec {
            skipped_large_files: walker.stats.with_skipped_large_file().skipped_large_files,
            ..walker.stats
        }),
        walker.stats.skipped_large_files < usize::MAX
            ==> walker.stats.with_skipped_large_file().skipped_large_files
            == walker.stats.skipped_large_files + 1,
{
    lemma_advanced_keeps_output(walker);
}

/// A hidden path that no rule ignores is not taken in unless
/// `include_all` is set, and is counted once, as a skipped file or as a
/// skipped directory, and as nothing else; a hidden directory is not
/// listed and none of its entries joins the queue. The count goes up by
/// one unless it stands at the largest number already.
pub proof fn lemma_hidden_path_skipped(walker: WalkerSpec, path: Seq<char>, kind: PathKind)
    requires
        !walker.options.include_all,
        is_hidden(path),
        !walker.ignored(path, kind is Directory),
    ensures
        !walker.passes(path, kind),
        kind is File ==> walker.screened_stats(path, kind) == (StatsSpec {
            skipped_files: walker.screened_stats(path, kind).skipped_files,
            ..walker.stats
        }) && (walker.stats.skipped_files < usize::MAX ==> walker.screened_stats(
            path,
            kind,
        ).skipped_files == walker.stats.skipped_files + 1),
        kind is Directory ==> walker.screened_stats(path, kind) == (StatsSpec {
            skipped_directories: walker.screened_stats(path, kind).skipped_directories,
            ..walker.stats
        }) && (walker.stats.skipped_directories < usize::MAX ==> walker.screened_stats(
            path,
            kind,
        ).skipped_directories == walker.stats.skipped_directories + 1),
        forall|size: Option<usize>|
            #![trigger walker.with_entry(EntrySpec { path, kind, size })]
            walker.with_entry(EntrySpec { path, kind, size }) == (WalkerSpec {
                stats: walker.screened_stats(path, kind),
                ..walker
            }),
        forall|found: InfoSpec|
            #![trigger walker.inspected(path, Some(found))]
            found.kind == kind ==> !walker.inspected(path, Some(found)).1 && walker.inspected(
                path,
                Some(found),
            ).0.queue == walker.queue && walker.inspected(path, Some(found)).0.pending
                == walker.pending,
{
}

/// Inspecting a path keeps the walker consistent.
pub proof fn lemma_inspected_consistent(walker: WalkerSpec, path: Seq<char>, info: Option<InfoSpec>)
    requires
        walker.consistent(),
    ensures
        walker.inspected(path, info).0.consistent(),
        walker.inspected(path, info).0.truncated == walker.truncated,
        walker.inspected(path, info).0.phase == walker.phase,
        walker.inspected(path, info).0.stats.directories_processed
            == walker.stats.directories_processed,
        walker.inspected(path, info).0.visited.len() >= walker.visited.len(),
        walker.inspected(path, info).1 ==> walker.inspected(path, info).0.visited.len()
            == walker.visited.len() + 1,
{
    match info {
        None => {},
        Some(found) => {
            if !walker.visited.contains(found.canonical) {
                let seen = WalkerSpec { visited: walker.visited.push(found.canonical), ..walker };
                assert(seen.visited.no_duplicates());
                lemma_consistent_frame(
                    walker,
                    WalkerSpec { visited: walker.visited, ..walker.inspected(path, info).0 },
                );
            }
        },
    }
}

/// Looking at the entries of a directory keeps the walker consistent.
pub proof fn lemma_with_entries_consistent(walker: WalkerSpec, entries: Seq<EntrySpec>)
    requires
        walker.consistent(),
    ensures
        walker.with_entries(entries).consistent(),
        walker.with_entries(entries).truncated == walker.truncated,
{
    lemma_with_entries_keeps(walker, entries);
    lemma_consistent_frame(walker, walker.with_entries(entries));
}

/// Every step keeps the walker well formed: at every halt the bytes
/// collected keep to the size limit, a truncated walk is over and its
/// output ends with the one marker, and no canonical path is kept in mind
/// twice.
pub proof fn lemma_stepped_wf(walker: WalkerSpec, event: EventSpec)
    requires
        walker.wf(),
    ensures
        walker.stepped(event).0.wf(),
{
    let after = walker.stepped(event).0;
    match (walker.phase, event) {
        (PhaseSpec::Idle, EventSpec::Start) => {
            lemma_advanced_keeps_output(walker);
            lemma_consistent_frame(walker, after);
        },
        (PhaseSpec::Inspecting(path), EventSpec::Inspected(info)) => {
            let (next, list) = walker.inspected(path, info);
            lemma_inspected_consistent(walker, path, info);
            if list {
                lemma_consistent_frame(next, after);
            } else {
                lemma_advanced_keeps_output(next);
                lemma_consistent_frame(next, after);
            }
        },
        (PhaseSpec::Listing(path), EventSpec::Directory { ignore_file, entries }) => {
            let counted = WalkerSpec { stats: walker.stats.with_directory(), ..walker };
            lemma_consistent_frame(walker, counted);
            let noted = counted.with_ignore_file(path, ignore_file);
            lemma_consistent_frame(counted, noted);
            lemma_with_entries_consistent(noted, entries.sort_by(entry_order()));
            lemma_with_entries_keeps(noted, entries.sort_by(entry_order()));
            let listed = walker.listed(path, ignore_file, entries);
            assert(listed.stats.directories_processed <= walker.stats.directories_processed + 1);
            lemma_advanced_keeps_output(listed);
            lemma_consistent_frame(listed, after);
        },
        (PhaseSpec::ReadingPrefix(path), EventSpec::Prefix(prefix)) => {
            if prefix matches Some(bytes) && binary_prefix(bytes) {
                let taken = walker.with_file(path, ContentSpec::Binary);
                lemma_with_file_consistent(walker, path, ContentSpec::Binary);
                lemma_with_file_keeps(walker, path, ContentSpec::Binary);
                lemma_advanced_keeps_output(taken);
                lemma_consistent_frame(taken, after);
            } else {
                lemma_consistent_frame(walker, after);
            }
        },
        (PhaseSpec::ReadingText(path), EventSpec::Text(text)) => {
            let content = match text {
                Some(content) => ContentSpec::Text(content),
                None => ContentSpec::Unreadable,
            };
            let taken = walker.with_file(path, content);
            lemma_with_file_consistent(walker, path, content);
            lemma_with_file_keeps(walker, path, content);
            lemma_advanced_keeps_output(taken);
            lemma_consistent_frame(taken, after);
        },
        _ => {},
    }
}

/// A walk is well formed from its first step to its last: a fresh walker
/// is, adding a root keeps it so, and so does every step.
pub proof fn lemma_run_wf(
    options: OptionsSpec,
    walker: WalkerSpec,
    root: Seq<char>,
    ignore_file: Option<Seq<char>>,
    events: Seq<EventSpec>,
)
    requires
        walker.wf(),
    ensures
        WalkerSpec::fresh(options).wf(),
        walker.with_root(root, ignore_file).wf(),
        walker.run(events).wf(),
    decreases events.len(),
{
    assert(WalkerSpec::fresh(options).visited.no_duplicates());
    lemma_consistent_frame(walker, walker.with_root(root, ignore_file));
    if events.len() > 0 {
        lemma_run_wf(options, walker, root, ignore_file, events.drop_last());
        lemma_stepped_wf(walker.run(events.drop_last()), events.last());
    }
}

/// Taking a file in touches the output and the counts of files, and
/// nothing else.
pub proof fn lemma_with_file_keeps(walker: WalkerSpec, path: Seq<char>, content: ContentSpec)
    ensures
        walker.with_file(path, content).visited == walker.visited,
        walker.with_file(path, content).queue == walker.queue,
        walker.with_file(path, content).pending == walker.pending,
        walker.with_file(path, content).phase == walker.phase,
        walker.with_file(path, content).options == walker.options,
        walker.with_file(path, content).managers == walker.managers,
        walker.with_file(path, content).stats.directories_processed
            == walker.stats.directories_processed,
{
}

/// Once the size limit has ended a walk, no step adds to the output, and
/// every step says that the walk is over: the marker stays the last block,
/// and the one marker.
pub proof fn lemma_truncated_walk_is_over(walker: WalkerSpec, event: EventSpec)
    requires
        walker.wf(),
        walker.truncated,
    ensures
        walker.stepped(event).1 is Finished,
        walker.stepped(event).0.contents == walker.contents,
        walker.stepped(event).0.total_size == walker.total_size,
        walker.stepped(event).0.truncated,
{
    lemma_advanced_keeps_output(walker);
}

/// The blank line between two blocks takes up two bytes.
pub proof fn lemma_blank_line_size()
    ensures
        byte_len("\n\n"@) == 2,
{
    reveal_strlit("\n\n");
    let text = "\n\n"@;
    let rest = text.drop_first();
    assert(text.len() == 2);
    assert(rest.len() == 1);
    assert(rest.drop_first().len() == 0);
    assert(vstd::utf8::encode_utf8(rest.drop_first()).len() == 0);
    assert(vstd::utf8::has_width_1_encoding(rest[0] as u32));
    assert(vstd::utf8::encode_scalar(rest[0] as u32).len() == 1);
    assert(vstd::utf8::encode_utf8(rest).len() == 1);
    assert(vstd::utf8::has_width_1_encoding(text[0] as u32));
    assert(vstd::utf8::encode_scalar(text[0] as u32).len() == 1);
}

/// The bytes of the output: those of its blocks, and two for each blank
/// line between two blocks.
pub proof fn lemma_content_size(walker: WalkerSpec)
    ensures
        walker.contents.len() == 0 ==> byte_len(walker.content()) == 0,
        walker.contents.len() > 0 ==> byte_len(walker.content()) == WalkerSpec::blocks_size(
            walker.contents,
        ) + 2 * (walker.contents.len() - 1),
    decreases walker.contents.len(),
{
    let blocks = walker.contents;
    let sep = "\n\n"@;
    lemma_blank_line_size();
    if blocks.len() == 0 {
    } else if blocks.len() == 1 {
        assert(blocks.drop_last().len() == 0);
        assert(WalkerSpec::blocks_size(blocks.drop_last()) == 0);
        assert(blocks.last() == blocks[0]);
    } else {
        let fewer = WalkerSpec { contents: blocks.drop_last(), ..walker };
        lemma_content_size(fewer);
        let front = joined_with(blocks.drop_last(), sep);
        assert(fewer.content() == front);
        assert(walker.content() == front + sep + blocks.last());
        lemma_byte_len_add(front, sep);
        lemma_byte_len_add(front + sep, blocks.last());
    }
}

/// The size of a truncated output: the bytes collected, which keep to the
/// size limit, the marker, and two for the blank line behind each block
/// collected. Where the bytes collected and the blank lines together keep
/// to the limit, the output is no longer than the limit and the marker.
pub proof fn lemma_truncated_content_size(walker: WalkerSpec)
    requires
        walker.consistent(),
        walker.truncated,
    ensures
        byte_len(walker.content()) == walker.total_size + byte_len(walker.contents.last()) + 2 * (
        walker.contents.len() - 1),
        walker.total_size <= walker.options.max_size,
        walker.total_size + 2 * (walker.contents.len() - 1) <= walker.options.max_size
            ==> byte_len(walker.content()) <= walker.options.max_size + byte_len(
            walker.contents.last(),
        ),
{
    lemma_content_size(walker);
}

/// Hidden entries are left out unless `include_all` is set, and with it
/// every entry is taken in: a hidden directory is then listed, so that
/// what lies below it is met too.
pub proof fn lemma_hidden_entries(walker: WalkerSpec, path: Seq<char>, kind: PathKind)
    ensures
        !walker.options.include_all && is_hidden(path) ==> !walker.passes(path, kind),
        walker.options.include_all ==> walker.passes(path, kind),
        !walker.passes(path, kind) ==> walker.with_entry(
            EntrySpec { path, kind, size: None },
        ).pending == walker.pending && walker.with_entry(
            EntrySpec { path, kind, size: None },
        ).queue == walker.queue,
        walker.options.include_all && kind is Directory ==> walker.with_entry(
            EntrySpec { path, kind, size: None },
        ).queue == walker.queue.push(path),
{
}

/// A file with a zero byte among its first 8192 bytes is binary: it is
/// counted as binary whatever the options say, and its block, which holds a
/// marker in place of the content, goes to the output with `include_all`
/// only. Its text is not asked for.
pub proof fn lemma_binary_file(walker: WalkerSpec, path: Seq<char>, bytes: Seq<u8>)
    requires
        walker.phase == PhaseSpec::ReadingPrefix(path),
        binary_prefix(bytes),
    ensures
        walker.stepped(EventSpec::Prefix(Some(bytes))) == walker.with_file(
            path,
            ContentSpec::Binary,
        ).advanced(),
        walker.with_file(path, ContentSpec::Binary).stats == walker.stats.with_binary_file(path),
        !walker.options.include_all ==> walker.with_file(path, ContentSpec::Binary).contents
            == walker.contents,
        walker.options.include_all ==> walker.with_file(path, ContentSpec::Binary) == (WalkerSpec {
            stats: walker.stats.with_binary_file(path),
            ..walker
        }).emitted(block_header(path) + "<BINARY_FILE>"@),
        !(walker.stepped(EventSpec::Prefix(Some(bytes))).1 is ReadText),
{
    let taken = walker.with_file(path, ContentSpec::Binary);
    lemma_advanced_never_reads_text(taken);
}

/// What a binary file does to the output and to the counts. Without
/// `include_all` the output stays as it is. With it, and where the block
/// fits under the size limit, the block is the last of the output and its
/// bytes are collected. Either way the file is counted as processed and
/// as binary, its extension is counted, and nothing else is; each count
/// goes up by one unless it stands at the largest number already.
pub proof fn lemma_binary_file_counts(walker: WalkerSpec, path: Seq<char>)
    requires
        !walker.truncated,
    ensures
        ({
            let taken = walker.with_file(path, ContentSpec::Binary);
            let block = block_header(path) + "<BINARY_FILE>"@;
            &&& !walker.options.include_all ==> taken.contents == walker.contents
                && taken.total_size == walker.total_size && !taken.truncated
            &&& walker.options.include_all && walker.total_size + byte_len(block)
                <= walker.options.max_size ==> taken.contents == walker.contents.push(block)
                && taken.total_size == walker.total_size + byte_len(block) && !taken.truncated
            &&& taken.stats == (StatsSpec {
                files_processed: taken.stats.files_processed,
                binary_files: taken.stats.binary_files,
                extensions: counted_path(walker.stats.extensions, path),
                ..walker.stats
            })
            &&& walker.stats.binary_files < usize::MAX ==> taken.stats.binary_files
                == walker.stats.binary_files + 1
            &&& walker.stats.files_processed < usize::MAX ==> taken.stats.files_processed
                == walker.stats.files_processed + 1
        }),
{
}

/// What a text file does to the output and to the counts. Where its
/// block fits under the size limit, the block is the last of the output
/// and its bytes are collected. The file is counted as processed and as
/// text, with the bytes of its block and its extension, and nothing else
/// is counted.
pub proof fn lemma_text_file_counts(walker: WalkerSpec, path: Seq<char>, text: Seq<char>)
    requires
        !walker.truncated,
    ensures
        ({
            let taken = walker.with_file(path, ContentSpec::Text(text));
            let block = block_header(path) + text;
            &&& walker.total_size + byte_len(block) <= walker.options.max_size ==> taken.contents
                == walker.contents.push(block) && taken.total_size == walker.total_size
                + byte_len(block) && !taken.truncated
            &&& walker.total_size + byte_len(block) > walker.options.max_size ==> taken.truncated
                && taken.total_size == walker.total_size && taken.contents.drop_last()
                == walker.contents
            &&& taken.stats == walker.stats.with_text_file(path, byte_len(block))
            &&& walker.stats.text_files < usize::MAX ==> taken.stats.text_files
                == walker.stats.text_files + 1
            &&& walker.stats.total_bytes + byte_len(block) <= usize::MAX ==> taken.stats.total_bytes
                == walker.stats.total_bytes + byte_len(block)
        }),
{
    let taken = walker.with_file(path, ContentSpec::Text(text));
    let block = block_header(path) + text;
    if walker.total_size + byte_len(block) > walker.options.max_size {
        assert(taken.contents.drop_last() =~= walker.contents);
    }
}

/// Going on to the next halt never asks for the text of a file: the first
/// bytes of a file are asked for first.
pub proof fn lemma_advanced_never_reads_text(walker: WalkerSpec)
    ensures
        !(walker.advanced().1 is ReadText),
        !(walker.advanced().1 is ReadDirectory),
    decreases walker.pending.len(),
{
    if !walker.truncated && walker.pending.len() > 0 && walker.too_large(walker.pending[0].size) {
        lemma_advanced_never_reads_text(
            WalkerSpec {
                stats: walker.stats.with_skipped_large_file(),
                pending: walker.pending.skip(1),
                ..walker
            },
        );
    }
}

/// The block of a file is no truncation marker: the one begins with the
/// header of the file, the other with a line break.
pub proof fn lemma_file_block_is_no_marker(block: Seq<char>)
    requires
        is_file_block(block),
    ensures
        !is_marker(block),
{
    reveal_strlit("--- ");
    reveal_strlit("\n--- TRUNCATED: Size limit of ");
    let (path, content) = choose|path: Seq<char>, content: ContentSpec| #[trigger]
        formatted_block(path, content) == Some(block);
    assert(block[0] == '-');
    if is_marker(block) {
        let (max_size, collected, attempted) = choose|max_size: nat, collected: nat, attempted: nat|
            block == #[trigger] truncation_marker(max_size, collected, attempted);
        assert(truncation_marker(max_size, collected, attempted)[0] == '\n');
    }
}

/// The output holds a truncation marker only where the size limit has
/// ended the walk, and then as its last block: a walk is truncated if and
/// only if its output holds the marker, and it holds one.
pub proof fn lemma_marker_marks_truncation(walker: WalkerSpec, i: int)
    requires
        walker.consistent(),
        0 <= i < walker.contents.len(),
    ensures
        is_marker(walker.contents[i]) <==> walker.truncated && i == walker.contents.len() - 1,
{
    if walker.truncated && i == walker.contents.len() - 1 {
        let attempted = choose|attempted: nat|
            attempted > walker.options.max_size && walker.contents.last() == #[trigger] truncation_marker(
                walker.options.max_size,
                walker.total_size,
                attempted,
            );
        assert(walker.contents[i] == truncation_marker(
            walker.options.max_size,
            walker.total_size,
            attempted,
        ));
    } else {
        lemma_file_block_is_no_marker(walker.contents[i]);
    }
}

/// The entries that an event lists.
pub open spec fn entries_listed(event: EventSpec) -> nat {
    match event {
        EventSpec::Directory { entries, .. } => entries.len(),
        _ => 0,
    }
}

/// The entries that a sequence of events lists in all.
pub open spec fn all_entries_listed(events: Seq<EventSpec>) -> nat
    decreases events.len(),
{
    if events.len() == 0 {
        0
    } else {
        all_entries_listed(events.drop_last()) + entries_listed(events.last())
    }
}

/// Going on to the next halt pays one step of what is owed for the queue
/// and the files to read, unless the walk is over.
pub proof fn lemma_advanced_owed(walker: WalkerSpec)
    ensures
        walker.advanced().0.owed() <= 4 * walker.queue.len() + 3 * walker.pending.len(),
        !(walker.advanced().1 is Finished) ==> walker.advanced().0.owed() + 1 <= 4
            * walker.queue.len() + 3 * walker.pending.len(),
    decreases walker.pending.len(),
{
    if !walker.truncated && walker.pending.len() > 0 && walker.too_large(walker.pending[0].size) {
        lemma_advanced_owed(
            WalkerSpec {
                stats: walker.stats.with_skipped_large_file(),
                pending: walker.pending.skip(1),
                ..walker
            },
        );
    }
}

/// Each entry that is looked at adds four steps at most to what is owed.
pub proof fn lemma_with_entries_owed(walker: WalkerSpec, entries: Seq<EntrySpec>)
    ensures
        4 * walker.with_entries(entries).queue.len() + 3 * walker.with_entries(
            entries,
        ).pending.len() <= 4 * walker.queue.len() + 3 * walker.pending.len() + 4 * entries.len(),
    decreases entries.len(),
{
    if entries.len() > 0 {
        lemma_with_entries_owed(walker, entries.drop_last());
    }
}

/// Every step that takes in what the walker waits for, and that is not
/// the last, pays one step of what is owed; only a listing adds to what is
/// owed, and four steps at most for each entry listed.
pub proof fn lemma_step_pays(walker: WalkerSpec, event: EventSpec)
    requires
        walker.awaits(event),
        !(walker.stepped(event).1 is Finished),
    ensures
        walker.stepped(event).0.owed() + 1 <= walker.owed() + 4 * entries_listed(event),
{
    match (walker.phase, event) {
        (PhaseSpec::Idle, EventSpec::Start) => {
            lemma_advanced_owed(walker);
        },
        (PhaseSpec::Inspecting(path), EventSpec::Inspected(info)) => {
            let (next, list) = walker.inspected(path, info);
            if !list {
                lemma_advanced_owed(next);
            }
        },
        (PhaseSpec::Listing(path), EventSpec::Directory { ignore_file, entries }) => {
            let noted = (WalkerSpec { stats: walker.stats.with_directory(), ..walker }).with_ignore_file(
                path,
                ignore_file,
            );
            let sorted = entries.sort_by(entry_order());
            lemma_listing_order(entries, entries);
            vstd::seq_lib::to_multiset_len(entries);
            vstd::seq_lib::to_multiset_len(sorted);
            lemma_with_entries_owed(noted, sorted);
            lemma_advanced_owed(walker.listed(path, ignore_file, entries));
        },
        (PhaseSpec::ReadingPrefix(path), EventSpec::Prefix(prefix)) => {
            lemma_with_file_keeps(walker, path, ContentSpec::Binary);
            lemma_advanced_owed(walker.with_file(path, ContentSpec::Binary));
        },
        (PhaseSpec::ReadingText(path), EventSpec::Text(text)) => {
            let content = match text {
                Some(content) => ContentSpec::Text(content),
                None => ContentSpec::Unreadable,
            };
            lemma_with_file_keeps(walker, path, content);
            lemma_advanced_owed(walker.with_file(path, content));
        },
        _ => {},
    }
}

/// A walk ends: it takes no more steps than it owes at its start and four
/// for each entry that is listed on the way. As no directory is listed
/// twice, a walk of a tree with finitely many directories, each with
/// finitely many entries, lists finitely many entries and so comes to its
/// end after finitely many steps, links and cycles of links or not.
pub proof fn lemma_walk_ends(walker: WalkerSpec, events: Seq<EventSpec>)
    requires
        walker.under_way(events),
    ensures
        events.len() + walker.run(events).owed() <= walker.owed() + 4 * all_entries_listed(events),
    decreases events.len(),
{
    if events.len() > 0 {
        lemma_walk_ends(walker, events.drop_last());
        lemma_step_pays(walker.run(events.drop_last()), events.last());
    }
}

} // verus!
