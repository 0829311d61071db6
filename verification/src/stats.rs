//! The statistics of one walk.
//!
//! A collector counts what the walk met and renders a summary. Counters
//! stop at the largest number that they can hold.

use vstd::prelude::*;
use std::time::{Duration, Instant};
use crate::format::{fixed_point, push_fixed_point, rounded_div, rounded_quotient};
use crate::path::{extension, extension_of};
use crate::text::{
    chars_equal, chars_of, decimal, joined_with, push_decimal, push_joined, push_str, string_of,
    string_views, texts,
};

verus! {

/// A point in time. Nothing is known of it but that it was taken.
#[verifier::external_type_specification]
#[verifier::external_body]
pub struct ExInstant(std::time::Instant);

/// The lower-case form of a text.
pub uninterp spec fn lowercase(text: Seq<char>) -> Seq<char>;

/// The lower-case form of a text.
///
/// Trusted: wraps `str::to_lowercase`, which returns the lower-case
/// equivalent of the string as a new string; the result depends on the
/// characters of the string alone.
#[verifier::external_body]
fn to_lowercase(text: &str) -> (lower: String)
    ensures
        lower@ == lowercase(text@),
{
    text.to_lowercase()
}

/// The present moment.
///
/// Trusted: wraps `Instant::now`. Nothing is claimed of the result.
#[verifier::external_body]
fn now() -> Instant {
    Instant::now()
}

/// The nanoseconds in a span of time.
///
/// Trusted: wraps `Duration::as_nanos`. Nothing is claimed of the result.
#[verifier::external_body]
fn nanos_of(span: &Duration) -> u128 {
    span.as_nanos()
}

/// A counter after one more was counted.
pub open spec fn bumped(count: nat) -> nat {
    if count < usize::MAX {
        count + 1
    } else {
        count
    }
}

/// A counter after `more` were counted.
pub open spec fn raised(count: nat, more: nat) -> nat {
    if count + more <= usize::MAX {
        count + more
    } else {
        usize::MAX as nat
    }
}

/// How often an extension was met.
pub struct ExtensionCount {
    pub extension: String,
    pub count: usize,
}

impl View for ExtensionCount {
    type V = (Seq<char>, nat);

    open spec fn view(&self) -> (Seq<char>, nat) {
        (self.extension@, self.count as nat)
    }
}

/// The views of a sequence of extension counts.
pub open spec fn extension_views(counts: Seq<ExtensionCount>) -> Seq<(Seq<char>, nat)> {
    Seq::new(counts.len(), |i: int| counts[i]@)
}

/// The counts after the extension `ext` was met once more: its count goes
/// up by one, and an extension met for the first time comes last.
pub open spec fn counted(counts: Seq<(Seq<char>, nat)>, ext: Seq<char>) -> Seq<(Seq<char>, nat)>
    decreases counts.len(),
{
    if counts.len() == 0 {
        seq![(ext, 1nat)]
    } else if counts[0].0 == ext {
        seq![(ext, bumped(counts[0].1))] + counts.skip(1)
    } else {
        seq![counts[0]] + counted(counts.skip(1), ext)
    }
}

/// How often the extension `ext` was met.
pub open spec fn count_of(counts: Seq<(Seq<char>, nat)>, ext: Seq<char>) -> nat
    decreases counts.len(),
{
    if counts.len() == 0 {
        0
    } else if counts[0].0 == ext {
        counts[0].1
    } else {
        count_of(counts.skip(1), ext)
    }
}

/// Whether no extension stands twice among the counts.
pub open spec fn distinct_extensions(counts: Seq<(Seq<char>, nat)>) -> bool {
    forall|i: int, j: int|
        0 <= i < j < counts.len() ==> (#[trigger] counts[i]).0 != (#[trigger] counts[j]).0
}

/// The counts after the file at `path` was counted: the lower-case form of
/// its extension is met once more, if the path has an extension.
pub open spec fn counted_path(counts: Seq<(Seq<char>, nat)>, path: Seq<char>) -> Seq<
    (Seq<char>, nat),
> {
    match extension(path) {
        Some(ext) => counted(counts, lowercase(ext)),
        None => counts,
    }
}

/// What a `StatsCollector` has counted.
pub ghost struct StatsSpec {
    pub files_processed: nat,
    pub directories_processed: nat,
    pub binary_files: nat,
    pub text_files: nat,
    pub unreadable_files: nat,
    pub skipped_files: nat,
    pub skipped_directories: nat,
    pub skipped_large_files: nat,
    pub gitignored_files: nat,
    pub gitignored_directories: nat,
    /// The ignore files in use.
    pub gitignore_files: Seq<Seq<char>>,
    /// The extensions met, lower case, each with its count, in the order in
    /// which they were first met.
    pub extensions: Seq<(Seq<char>, nat)>,
    /// The bytes of all text counted.
    pub total_bytes: nat,
}

impl StatsSpec {
    /// A collector that has counted nothing.
    pub open spec fn empty() -> StatsSpec {
        StatsSpec {
            files_processed: 0,
            directories_processed: 0,
            binary_files: 0,
            text_files: 0,
            unreadable_files: 0,
            skipped_files: 0,
            skipped_directories: 0,
            skipped_large_files: 0,
            gitignored_files: 0,
            gitignored_directories: 0,
            gitignore_files: Seq::empty(),
            extensions: Seq::empty(),
            total_bytes: 0,
        }
    }

    /// After a text file of `size` bytes at `path` was counted.
    pub open spec fn with_text_file(self, path: Seq<char>, size: nat) -> StatsSpec {
        StatsSpec {
            files_processed: bumped(self.files_processed),
            text_files: bumped(self.text_files),
            total_bytes: raised(self.total_bytes, size),
            extensions: counted_path(self.extensions, path),
            ..self
        }
    }

    /// After a binary file at `path` was counted.
    pub open spec fn with_binary_file(self, path: Seq<char>) -> StatsSpec {
        StatsSpec {
            files_processed: bumped(self.files_processed),
            binary_files: bumped(self.binary_files),
            extensions: counted_path(self.extensions, path),
            ..self
        }
    }

    /// After an unreadable file was counted.
    pub open spec fn with_unreadable_file(self) -> StatsSpec {
        StatsSpec {
            files_processed: bumped(self.files_processed),
            unreadable_files: bumped(self.unreadable_files),
            ..self
        }
    }

    /// After a directory was counted.
    pub open spec fn with_directory(self) -> StatsSpec {
        StatsSpec { directories_processed: bumped(self.directories_processed), ..self }
    }

    /// After a hidden file was passed over.
    pub open spec fn with_skipped_file(self) -> StatsSpec {
        StatsSpec { skipped_files: bumped(self.skipped_files), ..self }
    }

    /// After a hidden directory was passed over.
    pub open spec fn with_skipped_directory(self) -> StatsSpec {
        StatsSpec { skipped_directories: bumped(self.skipped_directories), ..self }
    }

    /// After an ignored file was passed over.
    pub open spec fn with_gitignored_file(self) -> StatsSpec {
        StatsSpec { gitignored_files: bumped(self.gitignored_files), ..self }
    }

    /// After an ignored directory was passed over.
    pub open spec fn with_gitignored_directory(self) -> StatsSpec {
        StatsSpec { gitignored_directories: bumped(self.gitignored_directories), ..self }
    }

    /// After a file over the size limit was passed over.
    pub open spec fn with_skipped_large_file(self) -> StatsSpec {
        StatsSpec { skipped_large_files: bumped(self.skipped_large_files), ..self }
    }

    /// Every counter fits a `usize`, and no extension is counted twice.
    pub open spec fn wf(self) -> bool {
        &&& self.files_processed <= usize::MAX
        &&& self.directories_processed <= usize::MAX
        &&& self.binary_files <= usize::MAX
        &&& self.text_files <= usize::MAX
        &&& self.unreadable_files <= usize::MAX
        &&& self.skipped_files <= usize::MAX
        &&& self.skipped_directories <= usize::MAX
        &&& self.skipped_large_files <= usize::MAX
        &&& self.gitignored_files <= usize::MAX
        &&& self.gitignored_directories <= usize::MAX
        &&& self.total_bytes <= usize::MAX
        &&& distinct_extensions(self.extensions)
        &&& forall|i: int| 0 <= i < self.extensions.len() ==> (#[trigger] self.extensions[i]).1 <= usize::MAX
    }
}

/// Counting an extension that stands at `at`, and nowhere before, raises
/// its count there.
pub proof fn lemma_counted_found(counts: Seq<(Seq<char>, nat)>, ext: Seq<char>, at: int)
    requires
        0 <= at < counts.len(),
        counts[at].0 == ext,
        forall|k: int| 0 <= k < at ==> (#[trigger] counts[k]).0 != ext,
    ensures
        counted(counts, ext) == counts.update(at, (ext, bumped(counts[at].1))),
    decreases at,
{
    if at == 0 {
        assert(counted(counts, ext) =~= counts.update(at, (ext, bumped(counts[at].1))));
    } else {
        let rest = counts.skip(1);
        assert(counts[0].0 != ext);
        assert forall|k: int| 0 <= k < at - 1 implies (#[trigger] rest[k]).0 != ext by {
            assert(counts[k + 1].0 != ext);
        }
        lemma_counted_found(rest, ext, at - 1);
        assert(counted(counts, ext) =~= counts.update(at, (ext, bumped(counts[at].1))));
    }
}

/// Counting an extension that stands nowhere puts it last, with a count
/// of one.
pub proof fn lemma_counted_new(counts: Seq<(Seq<char>, nat)>, ext: Seq<char>)
    requires
        forall|k: int| 0 <= k < counts.len() ==> (#[trigger] counts[k]).0 != ext,
    ensures
        counted(counts, ext) == counts.push((ext, 1nat)),
    decreases counts.len(),
{
    if counts.len() == 0 {
        assert(counted(counts, ext) =~= counts.push((ext, 1nat)));
    } else {
        let rest = counts.skip(1);
        assert(counts[0].0 != ext);
        assert forall|k: int| 0 <= k < rest.len() implies (#[trigger] rest[k]).0 != ext by {
            assert(counts[k + 1].0 != ext);
        }
        lemma_counted_new(rest, ext);
        assert(counted(counts, ext) =~= counts.push((ext, 1nat)));
    }
}

/// The counts with one more entry, which goes behind every entry that
/// counts at least as much.
pub open spec fn inserted(sorted: Seq<(Seq<char>, nat)>, item: (Seq<char>, nat)) -> Seq<
    (Seq<char>, nat),
>
    decreases sorted.len(),
{
    if sorted.len() == 0 {
        seq![item]
    } else if sorted.last().1 >= item.1 {
        sorted.push(item)
    } else {
        inserted(sorted.drop_last(), item).push(sorted.last())
    }
}

/// The counts from the most frequent extension down; of two that are as
/// frequent, the one met first comes first.
pub open spec fn ranked(counts: Seq<(Seq<char>, nat)>) -> Seq<(Seq<char>, nat)>
    decreases counts.len(),
{
    if counts.len() == 0 {
        Seq::empty()
    } else {
        inserted(ranked(counts.drop_last()), counts.last())
    }
}

/// Where an entry goes: behind `at` entries, of which the last counts at
/// least as much, and before the others, which count less.
pub proof fn lemma_inserted_at(sorted: Seq<(Seq<char>, nat)>, item: (Seq<char>, nat), at: int)
    requires
        0 <= at <= sorted.len(),
        at > 0 ==> sorted[at - 1].1 >= item.1,
        forall|k: int| at <= k < sorted.len() ==> (#[trigger] sorted[k]).1 < item.1,
    ensures
        inserted(sorted, item) == sorted.insert(at, item),
    decreases sorted.len() - at,
{
    if at == sorted.len() {
        assert(sorted.push(item) =~= sorted.insert(at, item));
    } else {
        assert(sorted.last().1 < item.1);
        let front = sorted.drop_last();
        assert forall|k: int| at <= k < front.len() implies (#[trigger] front[k]).1 < item.1 by {
            assert(sorted[k].1 < item.1);
        }
        lemma_inserted_at(front, item, at);
        assert(front.insert(at, item).push(sorted.last()) =~= sorted.insert(at, item));
    }
}

/// Whether the counts go down, or stay, from each entry to the next.
pub open spec fn counts_descend(counts: Seq<(Seq<char>, nat)>) -> bool {
    forall|i: int, j: int| 0 <= i < j < counts.len() ==> (#[trigger] counts[i]).1 >= (
    #[trigger] counts[j]).1
}

/// Behind how many entries a new entry goes.
pub open spec fn place_of(sorted: Seq<(Seq<char>, nat)>, item: (Seq<char>, nat)) -> int
    decreases sorted.len(),
{
    if sorted.len() == 0 || sorted.last().1 >= item.1 {
        sorted.len() as int
    } else {
        place_of(sorted.drop_last(), item)
    }
}

/// A new entry goes behind the entries that count at least as much and
/// before those that count less, and the counts still descend.
pub proof fn lemma_inserted(sorted: Seq<(Seq<char>, nat)>, item: (Seq<char>, nat))
    requires
        counts_descend(sorted),
    ensures
        0 <= place_of(sorted, item) <= sorted.len(),
        inserted(sorted, item) == sorted.insert(place_of(sorted, item), item),
        forall|k: int| 0 <= k < place_of(sorted, item) ==> (#[trigger] sorted[k]).1 >= item.1,
        forall|k: int| place_of(sorted, item) <= k < sorted.len() ==> (#[trigger] sorted[k]).1 < item.1,
        counts_descend(inserted(sorted, item)),
        inserted(sorted, item).to_multiset() == sorted.to_multiset().insert(item),
    decreases sorted.len(),
{
    let at = place_of(sorted, item);
    if sorted.len() == 0 || sorted.last().1 >= item.1 {
        assert forall|k: int| 0 <= k < at implies (#[trigger] sorted[k]).1 >= item.1 by {
            if k < sorted.len() - 1 {
                assert(sorted[k].1 >= sorted[sorted.len() - 1].1);
            }
        }
    } else {
        let front = sorted.drop_last();
        assert(counts_descend(front)) by {
            assert forall|i: int, j: int| 0 <= i < j < front.len() implies (#[trigger] front[i]).1
                >= (#[trigger] front[j]).1 by {
                assert(sorted[i].1 >= sorted[j].1);
            }
        }
        lemma_inserted(front, item);
        assert forall|k: int| 0 <= k < at implies (#[trigger] sorted[k]).1 >= item.1 by {
            assert(front[k].1 >= item.1);
        }
        assert forall|k: int| at <= k < sorted.len() implies (#[trigger] sorted[k]).1 < item.1 by {
            if k < front.len() {
                assert(front[k].1 < item.1);
            }
        }
    }
    lemma_inserted_at(sorted, item, at);
    let after = sorted.insert(at, item);
    assert forall|i: int, j: int| 0 <= i < j < after.len() implies (#[trigger] after[i]).1 >= (
    #[trigger] after[j]).1 by {
        if j < at {
            assert(sorted[i].1 >= sorted[j].1);
        } else if j == at {
            assert(sorted[i].1 >= item.1);
        } else if i < at {
            assert(sorted[i].1 >= sorted[j - 1].1);
        } else if i == at {
            assert(sorted[j - 1].1 < item.1);
        } else {
            assert(sorted[i - 1].1 >= sorted[j - 1].1);
        }
    }
    vstd::seq_lib::to_multiset_insert(sorted, at, item);
}

/// The ranking holds the counts that it was made of, each once, and they
/// descend.
pub proof fn lemma_ranked(counts: Seq<(Seq<char>, nat)>)
    ensures
        counts_descend(ranked(counts)),
        ranked(counts).to_multiset() == counts.to_multiset(),
        ranked(counts).len() == counts.len(),
    decreases counts.len(),
{
    broadcast use {vstd::multiset::group_multiset_axioms, vstd::seq_lib::group_to_multiset_ensures};

    if counts.len() > 0 {
        lemma_ranked(counts.drop_last());
        lemma_inserted(ranked(counts.drop_last()), counts.last());
        assert(counts =~= counts.drop_last().push(counts.last()));
        vstd::seq_lib::to_multiset_build(counts.drop_last(), counts.last());
    }
}

/// How many extensions the summary names at most.
pub const TOP_EXTENSIONS: usize = 10;

/// The first line of the summary.
pub open spec fn summary_line(stats: StatsSpec, nanos: nat) -> Seq<char> {
    "Processed "@ + decimal(stats.files_processed) + " files and "@ + decimal(
        stats.directories_processed,
    ) + " directories in "@ + fixed_point(rounded_quotient(nanos, 10_000_000), 2) + "s"@
}

/// The line that names the ignore files in use.
pub open spec fn gitignore_line(stats: StatsSpec) -> Seq<char> {
    "Using .gitignore: "@ + joined_with(stats.gitignore_files, ", "@)
}

/// The line that tells the kinds of files apart.
pub open spec fn files_line(stats: StatsSpec) -> Seq<char> {
    "Files: "@ + decimal(stats.text_files) + " text, "@ + decimal(stats.binary_files)
        + " binary, "@ + decimal(stats.unreadable_files) + " unreadable"@
}

/// The files that were passed over, binary ones among them.
pub open spec fn skipped_files_total(stats: StatsSpec) -> nat {
    stats.skipped_files + stats.binary_files + stats.gitignored_files + stats.skipped_large_files
}

/// The directories that were passed over.
pub open spec fn skipped_directories_total(stats: StatsSpec) -> nat {
    stats.skipped_directories + stats.gitignored_directories
}

/// A number and what it counts.
pub open spec fn reason(count: nat, what: Seq<char>) -> Seq<Seq<char>> {
    if count > 0 {
        seq![decimal(count) + what]
    } else {
        Seq::empty()
    }
}

/// Why entries were passed over, each reason with its number.
pub open spec fn skip_reasons(stats: StatsSpec) -> Seq<Seq<char>> {
    reason(stats.skipped_files + stats.binary_files, " hidden/binary"@) + reason(
        stats.skipped_large_files,
        " too large"@,
    ) + reason(stats.gitignored_files + stats.gitignored_directories, " gitignored"@)
}

/// The line on what was passed over.
pub open spec fn skipped_line(stats: StatsSpec) -> Seq<char> {
    "Skipped: "@ + decimal(skipped_files_total(stats)) + " files, "@ + decimal(
        skipped_directories_total(stats),
    ) + " directories ("@ + joined_with(skip_reasons(stats), ", "@) + ")"@
}

/// An extension with its count.
pub open spec fn extension_entry(entry: (Seq<char>, nat)) -> Seq<char> {
    "."@ + entry.0 + " ("@ + decimal(entry.1) + ")"@
}

/// The most frequent extensions, ten at most, each with its count.
pub open spec fn top_entries(counts: Seq<(Seq<char>, nat)>) -> Seq<Seq<char>> {
    let top = if counts.len() <= TOP_EXTENSIONS {
        ranked(counts)
    } else {
        ranked(counts).take(TOP_EXTENSIONS as int)
    };
    Seq::new(top.len(), |i: int| extension_entry(top[i]))
}

/// The line on the most frequent extensions.
pub open spec fn extensions_line(stats: StatsSpec) -> Seq<char> {
    "Top extensions: "@ + joined_with(top_entries(stats.extensions), ", "@)
}

/// The line on the speed of the walk, which took `nanos` nanoseconds.
pub open spec fn speed_line(stats: StatsSpec, nanos: nat) -> Seq<char> {
    "Speed: "@ + decimal(rounded_quotient(stats.files_processed * 1_000_000_000, nanos))
        + " files/sec, "@ + fixed_point(
        rounded_quotient(stats.total_bytes * 100_000_000_000, nanos * 1_048_576),
        2,
    ) + " MB/sec"@
}

/// A line, where it is due.
pub open spec fn line_if(due: bool, line: Seq<char>) -> Seq<Seq<char>> {
    if due {
        seq![line]
    } else {
        Seq::empty()
    }
}

/// The lines of the summary of a walk that took `nanos` nanoseconds.
pub open spec fn stats_lines(stats: StatsSpec, nanos: nat) -> Seq<Seq<char>> {
    seq![summary_line(stats, nanos)] + line_if(
        stats.gitignore_files.len() > 0,
        gitignore_line(stats),
    ) + line_if(stats.files_processed > 0, files_line(stats)) + line_if(
        skipped_files_total(stats) > 0 || skipped_directories_total(stats) > 0,
        skipped_line(stats),
    ) + line_if(stats.extensions.len() > 0, extensions_line(stats)) + line_if(
        nanos > 0,
        speed_line(stats, nanos),
    )
}

/// The summary of a walk that took `nanos` nanoseconds.
pub open spec fn stats_text(stats: StatsSpec, nanos: nat) -> Seq<char> {
    joined_with(stats_lines(stats, nanos), "\n"@)
}

/// Collects the statistics of one walk.
pub struct StatsCollector {
    files_processed: usize,
    directories_processed: usize,
    binary_files: usize,
    text_files: usize,
    unreadable_files: usize,
    skipped_files: usize,
    skipped_directories: usize,
    skipped_large_files: usize,
    gitignored_files: usize,
    gitignored_directories: usize,
    gitignore_files: Vec<String>,
    extensions: Vec<ExtensionCount>,
    total_bytes: usize,
    start_time: Instant,
}

impl View for StatsCollector {
    type V = StatsSpec;

    closed spec fn view(&self) -> StatsSpec {
        StatsSpec {
            files_processed: self.files_processed as nat,
            directories_processed: self.directories_processed as nat,
            binary_files: self.binary_files as nat,
            text_files: self.text_files as nat,
            unreadable_files: self.unreadable_files as nat,
            skipped_files: self.skipped_files as nat,
            skipped_directories: self.skipped_directories as nat,
            skipped_large_files: self.skipped_large_files as nat,
            gitignored_files: self.gitignored_files as nat,
            gitignored_directories: self.gitignored_directories as nat,
            gitignore_files: string_views(self.gitignore_files@),
            extensions: extension_views(self.extensions@),
            total_bytes: self.total_bytes as nat,
        }
    }
}

impl Default for StatsCollector {
    fn default() -> (stats: Self)
        ensures
            stats@ == StatsSpec::empty(),
            stats.wf(),
    {
        Self::new()
    }
}

impl StatsCollector {
    /// Whether no extension is counted twice.
    pub closed spec fn wf(&self) -> bool {
        distinct_extensions(extension_views(self.extensions@))
    }

    /// What follows from `wf`: the model is well formed.
    pub proof fn lemma_wf(&self)
        requires
            self.wf(),
        ensures
            self@.wf(),
    {
    }

    /// A collector that has counted nothing; its clock starts now.
    pub fn new() -> (stats: Self)
        ensures
            stats@ == StatsSpec::empty(),
            stats.wf(),
    {
        let stats = StatsCollector {
            files_processed: 0,
            directories_processed: 0,
            binary_files: 0,
            text_files: 0,
            unreadable_files: 0,
            skipped_files: 0,
            skipped_directories: 0,
            skipped_large_files: 0,
            gitignored_files: 0,
            gitignored_directories: 0,
            gitignore_files: Vec::new(),
            extensions: Vec::new(),
            total_bytes: 0,
            start_time: now(),
        };
        assert(stats@.gitignore_files =~= Seq::empty());
        assert(stats@.extensions =~= Seq::empty());
        stats
    }

    /// Counts the extension of `path`, in lower case, if it has one.
    fn count_extension(&mut self, path: &str)
        requires
            old(self).wf(),
        ensures
            final(self).wf(),
            final(self)@ == (StatsSpec {
                extensions: counted_path(old(self)@.extensions, path@),
                ..old(self)@
            }),
    {
        let path_chars = chars_of(path);
        match extension_of(path_chars.as_slice()) {
            Some(ext) => {
                let raw = string_of(ext.as_slice());
                self.record_extension(to_lowercase(raw.as_str()));
            },
            None => {},
        }
    }

    /// Counts an extension, which is taken as it is given: its count goes
    /// up by one, and an extension met for the first time comes last with
    /// a count of one.
    pub fn record_extension(&mut self, extension: String)
        requires
            old(self).wf(),
        ensures
            final(self).wf(),
            final(self)@ == (StatsSpec {
                extensions: counted(old(self)@.extensions, extension@),
                ..old(self)@
            }),
    {
        let wanted = chars_of(extension.as_str());
        let ghost before = extension_views(self.extensions@);
        let mut i: usize = 0;
        while i < self.extensions.len()
            invariant
                i <= self.extensions.len(),
                self.wf(),
                *self == *old(self),
                before == extension_views(self.extensions@),
                extension@ == wanted@,
                forall|k: int| 0 <= k < i ==> (#[trigger] before[k]).0 != wanted@,
            decreases self.extensions.len() - i,
        {
            let entry_chars = chars_of(self.extensions[i].extension.as_str());
            assert(before[i as int].0 == entry_chars@);
            if chars_equal(entry_chars.as_slice(), wanted.as_slice()) {
                let count = self.extensions[i].count.saturating_add(1);
                proof {
                    lemma_counted_found(before, wanted@, i as int);
                }
                self.extensions.set(i, ExtensionCount { extension, count });
                assert(extension_views(self.extensions@) =~= before.update(
                    i as int,
                    (wanted@, bumped(before[i as int].1)),
                ));
                assert(distinct_extensions(extension_views(self.extensions@))) by {
                    let after = extension_views(self.extensions@);
                    assert forall|a: int, b: int| 0 <= a < b < after.len() implies (
                    #[trigger] after[a]).0 != (#[trigger] after[b]).0 by {
                        assert(after[a].0 == before[a].0);
                        assert(after[b].0 == before[b].0);
                    }
                }
                return ;
            }
            i += 1;
        }
        proof {
            lemma_counted_new(before, wanted@);
        }
        self.extensions.push(ExtensionCount { extension, count: 1 });
        assert(extension_views(self.extensions@) =~= before.push((wanted@, 1nat)));
        assert(distinct_extensions(extension_views(self.extensions@))) by {
            let after = extension_views(self.extensions@);
            assert forall|a: int, b: int| 0 <= a < b < after.len() implies (#[trigger] after[a]).0
                != (#[trigger] after[b]).0 by {
                assert(after[a] == before[a]);
                if b < before.len() {
                    assert(after[b] == before[b]);
                }
            }
        }
    }

    /// Counts a text file of `size` bytes at `path`.
    pub fn record_text_file(&mut self, path: &str, size: usize)
        requires
            old(self).wf(),
        ensures
            final(self).wf(),
            final(self)@ == old(self)@.with_text_file(path@, size as nat),
    {
        self.files_processed = self.files_processed.saturating_add(1);
        self.text_files = self.text_files.saturating_add(1);
        self.total_bytes = self.total_bytes.saturating_add(size);
        self.count_extension(path);
    }

    /// Counts a binary file at `path`.
    pub fn record_binary_file(&mut self, path: &str)
        requires
            old(self).wf(),
        ensures
            final(self).wf(),
            final(self)@ == old(self)@.with_binary_file(path@),
    {
        self.files_processed = self.files_processed.saturating_add(1);
        self.binary_files = self.binary_files.saturating_add(1);
        self.count_extension(path);
    }

    /// Counts a file that could not be read.
    pub fn record_unreadable_file(&mut self)
        ensures
            final(self).wf() == old(self).wf(),
            final(self)@ == old(self)@.with_unreadable_file(),
    {
        self.files_processed = self.files_processed.saturating_add(1);
        self.unreadable_files = self.unreadable_files.saturating_add(1);
    }

    /// Counts a directory that was gone through.
    pub fn record_directory(&mut self)
        ensures
            final(self).wf() == old(self).wf(),
            final(self)@ == old(self)@.with_directory(),
    {
        self.directories_processed = self.directories_processed.saturating_add(1);
    }

    /// Counts a hidden file that was passed over.
    pub fn record_skipped_file(&mut self)
        ensures
            final(self).wf() == old(self).wf(),
            final(self)@ == old(self)@.with_skipped_file(),
    {
        self.skipped_files = self.skipped_files.saturating_add(1);
    }

    /// Counts a hidden directory that was passed over.
    pub fn record_skipped_directory(&mut self)
        ensures
            final(self).wf() == old(self).wf(),
            final(self)@ == old(self)@.with_skipped_directory(),
    {
        self.skipped_directories = self.skipped_directories.saturating_add(1);
    }

    /// Counts an ignored file.
    pub fn record_gitignored_file(&mut self)
        ensures
            final(self).wf() == old(self).wf(),
            final(self)@ == old(self)@.with_gitignored_file(),
    {
        self.gitignored_files = self.gitignored_files.saturating_add(1);
    }

    /// Counts an ignored directory.
    pub fn record_gitignored_directory(&mut self)
        ensures
            final(self).wf() == old(self).wf(),
            final(self)@ == old(self)@.with_gitignored_directory(),
    {
        self.gitignored_directories = self.gitignored_directories.saturating_add(1);
    }

    /// Counts a file that was passed over for its size.
    pub fn record_skipped_large_file(&mut self)
        ensures
            final(self).wf() == old(self).wf(),
            final(self)@ == old(self)@.with_skipped_large_file(),
    {
        self.skipped_large_files = self.skipped_large_files.saturating_add(1);
    }

    /// Puts on record which ignore files are in use.
    pub fn set_gitignore_active(&mut self, gitignore_files: Vec<String>)
        ensures
            final(self).wf() == old(self).wf(),
            final(self)@ == (StatsSpec {
                gitignore_files: string_views(gitignore_files@),
                ..old(self)@
            }),
    {
        self.gitignore_files = gitignore_files;
    }

    /// The time since the collector was made.
    ///
    /// Trusted: wraps `Instant::elapsed`. The result depends on the clock,
    /// so nothing is claimed of it.
    #[verifier::external_body]
    pub fn elapsed(&self) -> Duration {
        self.start_time.elapsed()
    }
}

/// Appends a number and what it counts to the reasons, unless it is zero.
fn push_reason(reasons: &mut Vec<Vec<char>>, count: u128, what: &str)
    ensures
        texts(final(reasons)@) == texts(old(reasons)@) + reason(count as nat, what@),
{
    if count > 0 {
        let mut entry: Vec<char> = Vec::new();
        push_decimal(&mut entry, count);
        push_str(&mut entry, what);
        assert(entry@ =~= decimal(count as nat) + what@);
        reasons.push(entry);
    }
    assert(texts(reasons@) =~= texts(old(reasons)@) + reason(count as nat, what@));
}

/// Appends a line to the lines where it is due.
fn push_line(lines: &mut Vec<Vec<char>>, due: bool, line: Vec<char>)
    ensures
        texts(final(lines)@) == texts(old(lines)@) + line_if(due, line@),
{
    if due {
        lines.push(line);
    }
    assert(texts(lines@) =~= texts(old(lines)@) + line_if(due, line@));
}

/// A quotient of a walk's speed, rounded; zero where the time is so long
/// that the quotient rounds to zero for every count.
fn rate(num: u128, nanos: u128, per: u128) -> (rounded: u128)
    requires
        nanos > 0,
        num < 0x20_0000_0000_0000_0000_0000_0000,
        per == 1 || per == 1_048_576,
    ensures
        rounded == rounded_quotient(num as nat, (nanos * per) as nat),
{
    if nanos > 0x40_0000_0000_0000_0000_0000_0000 {
        proof {
            let den = nanos * per;
            assert(den >= nanos) by (nonlinear_arith)
                requires
                    den == nanos * per,
                    per >= 1,
                    nanos > 0,
            ;
            vstd::arithmetic::div_mod::lemma_basic_div(num as int, den as int);
            vstd::arithmetic::div_mod::lemma_small_mod(num as nat, den as nat);
        }
        0
    } else {
        rounded_div(num, nanos * per)
    }
}

impl StatsCollector {
    /// The first line of the summary.
    fn summary_line_of(&self, nanos: u128) -> (line: Vec<char>)
        ensures
            line@ == summary_line(self@, nanos as nat),
    {
        let mut line: Vec<char> = Vec::new();
        push_str(&mut line, "Processed ");
        push_decimal(&mut line, self.files_processed as u128);
        push_str(&mut line, " files and ");
        push_decimal(&mut line, self.directories_processed as u128);
        push_str(&mut line, " directories in ");
        push_fixed_point(&mut line, rounded_div(nanos, 10_000_000), 2);
        push_str(&mut line, "s");
        assert(line@ =~= summary_line(self@, nanos as nat));
        line
    }

    /// The line that names the ignore files in use.
    fn gitignore_line_of(&self) -> (line: Vec<char>)
        ensures
            line@ == gitignore_line(self@),
    {
        let mut names: Vec<Vec<char>> = Vec::new();
        let mut i: usize = 0;
        while i < self.gitignore_files.len()
            invariant
                i <= self.gitignore_files.len(),
                texts(names@) == self@.gitignore_files.take(i as int),
            decreases self.gitignore_files.len() - i,
        {
            let ghost before = names@;
            names.push(chars_of(self.gitignore_files[i].as_str()));
            assert(texts(names@) =~= texts(before).push(self.gitignore_files@[i as int]@));
            assert(texts(names@) =~= self@.gitignore_files.take(i + 1));
            i += 1;
        }
        assert(self@.gitignore_files.take(self.gitignore_files.len() as int)
            =~= self@.gitignore_files);
        let mut line: Vec<char> = Vec::new();
        push_str(&mut line, "Using .gitignore: ");
        push_joined(&mut line, &names, ", ");
        line
    }

    /// The line that tells the kinds of files apart.
    fn files_line_of(&self) -> (line: Vec<char>)
        ensures
            line@ == files_line(self@),
    {
        let mut line: Vec<char> = Vec::new();
        push_str(&mut line, "Files: ");
        push_decimal(&mut line, self.text_files as u128);
        push_str(&mut line, " text, ");
        push_decimal(&mut line, self.binary_files as u128);
        push_str(&mut line, " binary, ");
        push_decimal(&mut line, self.unreadable_files as u128);
        push_str(&mut line, " unreadable");
        assert(line@ =~= files_line(self@));
        line
    }

    /// The line on what was passed over.
    fn skipped_line_of(&self) -> (line: Vec<char>)
        ensures
            line@ == skipped_line(self@),
    {
        let hidden: u128 = self.skipped_files as u128 + self.binary_files as u128;
        let ignored: u128 = self.gitignored_files as u128 + self.gitignored_directories as u128;
        let files: u128 = hidden + self.gitignored_files as u128 + self.skipped_large_files as u128;
        let directories: u128 = self.skipped_directories as u128
            + self.gitignored_directories as u128;
        let mut reasons: Vec<Vec<char>> = Vec::new();
        assert(texts(reasons@) =~= Seq::<Seq<char>>::empty());
        push_reason(&mut reasons, hidden, " hidden/binary");
        push_reason(&mut reasons, self.skipped_large_files as u128, " too large");
        push_reason(&mut reasons, ignored, " gitignored");
        assert(texts(reasons@) =~= skip_reasons(self@));
        let mut line: Vec<char> = Vec::new();
        push_str(&mut line, "Skipped: ");
        push_decimal(&mut line, files);
        push_str(&mut line, " files, ");
        push_decimal(&mut line, directories);
        push_str(&mut line, " directories (");
        push_joined(&mut line, &reasons, ", ");
        push_str(&mut line, ")");
        assert(line@ =~= skipped_line(self@));
        line
    }

    /// The places of the counts from the most frequent extension down.
    fn ranking(&self) -> (order: Vec<usize>)
        ensures
            order.len() == self.extensions.len(),
            forall|k: int| 0 <= k < order.len() ==> (#[trigger] order@[k]) < self.extensions.len(),
            Seq::new(order.len() as nat, |k: int| self@.extensions[order@[k] as int]) == ranked(
                self@.extensions,
            ),
    {
        let ghost counts = self@.extensions;
        let mut order: Vec<usize> = Vec::new();
        let mut i: usize = 0;
        assert(Seq::new(order.len() as nat, |k: int| counts[order@[k] as int]) =~= ranked(
            counts.take(0),
        ));
        while i < self.extensions.len()
            invariant
                i <= self.extensions.len(),
                counts == self@.extensions,
                order.len() == i,
                forall|k: int| 0 <= k < order.len() ==> (#[trigger] order@[k]) < i,
                Seq::new(order.len() as nat, |k: int| counts[order@[k] as int]) == ranked(
                    counts.take(i as int),
                ),
            decreases self.extensions.len() - i,
        {
            let ghost sorted = Seq::new(order.len() as nat, |k: int| counts[order@[k] as int]);
            let ghost before = order@;
            let count = self.extensions[i].count;
            assert(counts[i as int].1 == count);
            let mut at: usize = order.len();
            while at > 0 && self.extensions[order[at - 1]].count < count
                invariant
                    at <= order.len(),
                    order.len() == i,
                    i < self.extensions.len(),
                    counts == self@.extensions,
                    sorted == Seq::new(order.len() as nat, |k: int| counts[order@[k] as int]),
                    forall|k: int| 0 <= k < order.len() ==> (#[trigger] order@[k]) < i,
                    forall|k: int| at <= k < sorted.len() ==> (#[trigger] sorted[k]).1 < count,
                decreases at,
            {
                assert(sorted[at - 1].1 == self.extensions@[order@[at - 1] as int].count);
                at -= 1;
            }
            proof {
                if at > 0 {
                    assert(sorted[at - 1].1 == self.extensions@[order@[at - 1] as int].count);
                }
                lemma_inserted_at(sorted, counts[i as int], at as int);
                assert(counts.take(i + 1).drop_last() =~= counts.take(i as int));
                assert(counts.take(i + 1).last() == counts[i as int]);
            }
            order.insert(at, i);
            assert(Seq::new(order.len() as nat, |k: int| counts[order@[k] as int]) =~= sorted.insert(
                at as int,
                counts[i as int],
            ));
            i += 1;
        }
        assert(counts.take(self.extensions.len() as int) =~= counts);
        order
    }

    /// The line on the most frequent extensions.
    fn extensions_line_of(&self) -> (line: Vec<char>)
        ensures
            line@ == extensions_line(self@),
    {
        let order = self.ranking();
        let ghost all = ranked(self@.extensions);
        let shown: usize = if order.len() <= TOP_EXTENSIONS {
            order.len()
        } else {
            TOP_EXTENSIONS
        };
        let ghost top = if self@.extensions.len() <= TOP_EXTENSIONS {
            all
        } else {
            all.take(TOP_EXTENSIONS as int)
        };
        assert(all.len() == order.len());
        assert(top =~= all.take(shown as int));
        let mut entries: Vec<Vec<char>> = Vec::new();
        let mut k: usize = 0;
        while k < shown
            invariant
                k <= shown <= order.len(),
                order.len() == self.extensions.len(),
                all == ranked(self@.extensions),
                all == Seq::new(order.len() as nat, |k: int| self@.extensions[order@[k] as int]),
                forall|k: int|
                    0 <= k < order.len() ==> (#[trigger] order@[k]) < self.extensions.len(),
                entries.len() == k,
                forall|d: int| 0 <= d < k ==> (#[trigger] entries@[d])@ == extension_entry(all[d]),
            decreases shown - k,
        {
            let entry = &self.extensions[order[k]];
            assert(all[k as int] == entry@);
            let mut text: Vec<char> = Vec::new();
            push_str(&mut text, ".");
            push_str(&mut text, entry.extension.as_str());
            push_str(&mut text, " (");
            push_decimal(&mut text, entry.count as u128);
            push_str(&mut text, ")");
            assert(text@ =~= extension_entry(all[k as int]));
            entries.push(text);
            k += 1;
        }
        assert(texts(entries@) =~= top_entries(self@.extensions));
        let mut line: Vec<char> = Vec::new();
        push_str(&mut line, "Top extensions: ");
        push_joined(&mut line, &entries, ", ");
        line
    }

    /// The line on the speed of a walk that took `nanos` nanoseconds.
    fn speed_line_of(&self, nanos: u128) -> (line: Vec<char>)
        requires
            nanos > 0,
        ensures
            line@ == speed_line(self@, nanos as nat),
    {
        let files: u128 = self.files_processed as u128 * 1_000_000_000;
        let bytes: u128 = self.total_bytes as u128 * 100_000_000_000;
        let mut line: Vec<char> = Vec::new();
        push_str(&mut line, "Speed: ");
        push_decimal(&mut line, rate(files, nanos, 1));
        push_str(&mut line, " files/sec, ");
        push_fixed_point(&mut line, rate(bytes, nanos, 1_048_576), 2);
        push_str(&mut line, " MB/sec");
        assert(line@ =~= speed_line(self@, nanos as nat));
        line
    }

    /// The summary of a walk that took `elapsed_nanos` nanoseconds: what
    /// was processed, the ignore files in use, the kinds of files, what was
    /// passed over and why, the most frequent extensions and the speed.
    pub fn format_stats_after(&self, elapsed_nanos: u128) -> (text: String)
        ensures
            text@ == stats_text(self@, elapsed_nanos as nat),
    {
        let mut lines: Vec<Vec<char>> = Vec::new();
        let summary = self.summary_line_of(elapsed_nanos);
        lines.push(summary);
        assert(texts(lines@) =~= seq![summary_line(self@, elapsed_nanos as nat)]);
        if self.gitignore_files.len() > 0 {
            push_line(&mut lines, true, self.gitignore_line_of());
        } else {
            push_line(&mut lines, false, Vec::new());
        }
        if self.files_processed > 0 {
            push_line(&mut lines, true, self.files_line_of());
        } else {
            push_line(&mut lines, false, Vec::new());
        }
        if self.skipped_files > 0 || self.binary_files > 0 || self.gitignored_files > 0
            || self.skipped_large_files > 0 || self.skipped_directories > 0
            || self.gitignored_directories > 0 {
            push_line(&mut lines, true, self.skipped_line_of());
        } else {
            push_line(&mut lines, false, Vec::new());
        }
        if self.extensions.len() > 0 {
            push_line(&mut lines, true, self.extensions_line_of());
        } else {
            push_line(&mut lines, false, Vec::new());
        }
        if elapsed_nanos > 0 {
            push_line(&mut lines, true, self.speed_line_of(elapsed_nanos));
        } else {
            push_line(&mut lines, false, Vec::new());
        }
        assert(texts(lines@) =~= stats_lines(self@, elapsed_nanos as nat));
        let mut out: Vec<char> = Vec::new();
        push_joined(&mut out, &lines, "\n");
        string_of(out.as_slice())
    }

    /// The summary of the walk up to now.
    pub fn format_stats(&self) -> (text: String)
        ensures
            exists|nanos: nat| text@ == #[trigger] stats_text(self@, nanos),
    {
        let span = self.elapsed();
        let nanos = nanos_of(&span);
        self.format_stats_after(nanos)
    }
}

impl StatsCollector {
    /// The files counted, of every kind.
    pub fn files_processed(&self) -> (count: usize)
        ensures
            count == self@.files_processed,
    {
        self.files_processed
    }

    /// The directories gone through.
    pub fn directories_processed(&self) -> (count: usize)
        ensures
            count == self@.directories_processed,
    {
        self.directories_processed
    }

    /// The binary files counted.
    pub fn binary_files(&self) -> (count: usize)
        ensures
            count == self@.binary_files,
    {
        self.binary_files
    }

    /// The text files counted.
    pub fn text_files(&self) -> (count: usize)
        ensures
            count == self@.text_files,
    {
        self.text_files
    }

    /// The files that could not be read.
    pub fn unreadable_files(&self) -> (count: usize)
        ensures
            count == self@.unreadable_files,
    {
        self.unreadable_files
    }

    /// The hidden files passed over.
    pub fn skipped_files(&self) -> (count: usize)
        ensures
            count == self@.skipped_files,
    {
        self.skipped_files
    }

    /// The hidden directories passed over.
    pub fn skipped_directories(&self) -> (count: usize)
        ensures
            count == self@.skipped_directories,
    {
        self.skipped_directories
    }

    /// The files passed over for their size.
    pub fn skipped_large_files(&self) -> (count: usize)
        ensures
            count == self@.skipped_large_files,
    {
        self.skipped_large_files
    }

    /// The ignored files.
    pub fn gitignored_files(&self) -> (count: usize)
        ensures
            count == self@.gitignored_files,
    {
        self.gitignored_files
    }

    /// The ignored directories.
    pub fn gitignored_directories(&self) -> (count: usize)
        ensures
            count == self@.gitignored_directories,
    {
        self.gitignored_directories
    }

    /// The bytes of all text counted.
    pub fn total_bytes(&self) -> (count: usize)
        ensures
            count == self@.total_bytes,
    {
        self.total_bytes
    }

    /// The ignore files in use.
    pub fn gitignore_files(&self) -> (files: Vec<String>)
        ensures
            string_views(files@) == self@.gitignore_files,
    {
        let mut files: Vec<String> = Vec::new();
        let mut i: usize = 0;
        while i < self.gitignore_files.len()
            invariant
                i <= self.gitignore_files.len(),
                string_views(files@) == self@.gitignore_files.take(i as int),
            decreases self.gitignore_files.len() - i,
        {
            let ghost before = files@;
            files.push(self.gitignore_files[i].clone());
            assert(string_views(files@) =~= string_views(before).push(
                self.gitignore_files@[i as int]@,
            ));
            assert(string_views(files@) =~= self@.gitignore_files.take(i + 1));
            i += 1;
        }
        assert(self@.gitignore_files.take(self.gitignore_files.len() as int)
            =~= self@.gitignore_files);
        files
    }

    /// How often the extension, given in lower case, was met.
    pub fn extension_count(&self, ext: &str) -> (count: usize)
        ensures
            count == count_of(self@.extensions, ext@),
    {
        let ext_chars = chars_of(ext);
        let ghost counts = self@.extensions;
        let mut i: usize = 0;
        assert(counts.skip(0) =~= counts);
        while i < self.extensions.len()
            invariant
                i <= self.extensions.len(),
                counts == self@.extensions,
                ext_chars@ == ext@,
                count_of(counts, ext@) == count_of(counts.skip(i as int), ext@),
            decreases self.extensions.len() - i,
        {
            let entry_chars = chars_of(self.extensions[i].extension.as_str());
            assert(counts.skip(i as int)[0] == counts[i as int]);
            assert(counts[i as int].0 == entry_chars@);
            if chars_equal(entry_chars.as_slice(), ext_chars.as_slice()) {
                return self.extensions[i].count;
            }
            assert(counts.skip(i as int).skip(1) =~= counts.skip(i + 1));
            i += 1;
        }
        0
    }
}

} // verus!
