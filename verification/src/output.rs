//! Processing results: per-file outcomes and counters, and the line diff
//! shown for a changed file.

use vstd::prelude::*;
use crate::text::{chars_of, string_of};
use similar::{ChangeTag, TextDiff};

verus! {

/// Statistics about processing results
#[derive(Debug, Clone)]
pub struct ProcessingStats {
    pub total_files: usize,
    pub modified_files: usize,
    pub unchanged_files: usize,
    pub error_files: usize,
    pub skipped_files: usize,
}

impl Default for ProcessingStats {
    fn default() -> (r: Self)
        ensures
            r.total_files == 0,
            r.modified_files == 0,
            r.unchanged_files == 0,
            r.error_files == 0,
            r.skipped_files == 0,
    {
        ProcessingStats { total_files: 0, modified_files: 0, unchanged_files: 0, error_files: 0, skipped_files: 0 }
    }
}

impl ProcessingStats {
    /// Create a new stats tracker
    pub fn new() -> (r: Self)
        ensures
            r.total_files == 0,
            r.modified_files == 0,
            r.unchanged_files == 0,
            r.error_files == 0,
            r.skipped_files == 0,
    {
        Self::default()
    }

    /// Record a file that was modified
    pub fn record_modified(&mut self)
        requires
            old(self).total_files < usize::MAX,
            old(self).modified_files < usize::MAX,
        ensures
            final(self).total_files == old(self).total_files + 1,
            final(self).modified_files == old(self).modified_files + 1,
            final(self).unchanged_files == old(self).unchanged_files,
            final(self).error_files == old(self).error_files,
            final(self).skipped_files == old(self).skipped_files,
    {
        self.total_files += 1;
        self.modified_files += 1;
    }

    /// Record a file that was unchanged
    pub fn record_unchanged(&mut self)
        requires
            old(self).total_files < usize::MAX,
            old(self).unchanged_files < usize::MAX,
        ensures
            final(self).total_files == old(self).total_files + 1,
            final(self).modified_files == old(self).modified_files,
            final(self).unchanged_files == old(self).unchanged_files + 1,
            final(self).error_files == old(self).error_files,
            final(self).skipped_files == old(self).skipped_files,
    {
        self.total_files += 1;
        self.unchanged_files += 1;
    }

    /// Record a file that had an error
    pub fn record_error(&mut self)
        requires
            old(self).total_files < usize::MAX,
            old(self).error_files < usize::MAX,
        ensures
            final(self).total_files == old(self).total_files + 1,
            final(self).modified_files == old(self).modified_files,
            final(self).unchanged_files == old(self).unchanged_files,
            final(self).error_files == old(self).error_files + 1,
            final(self).skipped_files == old(self).skipped_files,
    {
        self.total_files += 1;
        self.error_files += 1;
    }

    /// Record a file that was skipped (skipped files are not counted in
    /// the total)
    pub fn record_skipped(&mut self)
        requires
            old(self).skipped_files < usize::MAX,
        ensures
            final(self).total_files == old(self).total_files,
            final(self).modified_files == old(self).modified_files,
            final(self).unchanged_files == old(self).unchanged_files,
            final(self).error_files == old(self).error_files,
            final(self).skipped_files == old(self).skipped_files + 1,
    {
        self.skipped_files += 1;
    }

    /// Whether the counters that `o` raises are below their maximum.
    pub fn has_room_for(&self, o: FileOutcome) -> (b: bool)
        ensures
            b == room_for(*self, o),
    {
        match o {
            FileOutcome::Skipped => self.skipped_files < usize::MAX,
            FileOutcome::ReadFailed | FileOutcome::WriteFailed => self.total_files < usize::MAX && self.error_files
                < usize::MAX,
            FileOutcome::Processed { needs_fixing } => self.total_files < usize::MAX && if needs_fixing {
                self.modified_files < usize::MAX
            } else {
                self.unchanged_files < usize::MAX
            },
        }
    }

    /// Count one outcome of a file: a skipped file raises `skipped_files`
    /// alone; a read or write failure raises `total_files` and
    /// `error_files`; a processed file raises `total_files` and
    /// `modified_files` when it needs fixing, else `unchanged_files`.
    pub fn record_outcome(&mut self, o: FileOutcome)
        requires
            room_for(*old(self), o),
        ensures
            *final(self) == recorded(*old(self), o),
    {
        match o {
            FileOutcome::Skipped => self.record_skipped(),
            FileOutcome::ReadFailed | FileOutcome::WriteFailed => self.record_error(),
            FileOutcome::Processed { needs_fixing } => if needs_fixing {
                self.record_modified()
            } else {
                self.record_unchanged()
            },
        }
    }
}

/// What became of one file, as far as the counters go. A file whose write
/// fails after processing is recorded as processed and then as a write
/// failure.
#[derive(Debug, Clone, Copy, PartialEq, Eq, Structural)]
pub enum FileOutcome {
    Skipped,
    ReadFailed,
    Processed { needs_fixing: bool },
    WriteFailed,
}

/// The counters that an outcome raises are below their maximum.
pub open spec fn room_for(s: ProcessingStats, o: FileOutcome) -> bool {
    match o {
        FileOutcome::Skipped => s.skipped_files < usize::MAX,
        FileOutcome::ReadFailed | FileOutcome::WriteFailed => s.total_files < usize::MAX && s.error_files < usize::MAX,
        FileOutcome::Processed { needs_fixing } => s.total_files < usize::MAX && if needs_fixing {
            s.modified_files < usize::MAX
        } else {
            s.unchanged_files < usize::MAX
        },
    }
}

/// The counters after recording an outcome.
pub open spec fn recorded(s: ProcessingStats, o: FileOutcome) -> ProcessingStats {
    match o {
        FileOutcome::Skipped => ProcessingStats { skipped_files: (s.skipped_files + 1) as usize, ..s },
        FileOutcome::ReadFailed | FileOutcome::WriteFailed => ProcessingStats {
            total_files: (s.total_files + 1) as usize,
            error_files: (s.error_files + 1) as usize,
            ..s
        },
        FileOutcome::Processed { needs_fixing } => if needs_fixing {
            ProcessingStats {
                total_files: (s.total_files + 1) as usize,
                modified_files: (s.modified_files + 1) as usize,
                ..s
            }
        } else {
            ProcessingStats {
                total_files: (s.total_files + 1) as usize,
                unchanged_files: (s.unchanged_files + 1) as usize,
                ..s
            }
        },
    }
}

/// Result of processing a single file
#[derive(Debug, Clone)]
pub enum FileResult {
    Modified { file: String, transformations: Option<Vec<String>> },
    Unchanged { file: String },
    Error { file: String, error: String },
    Skipped { file: String, reason: String },
}

impl FileResult {
    /// The path of the file the result is about.
    pub open spec fn file_spec(&self) -> Seq<char> {
        match self {
            FileResult::Modified { file, .. } => file@,
            FileResult::Unchanged { file } => file@,
            FileResult::Error { file, .. } => file@,
            FileResult::Skipped { file, .. } => file@,
        }
    }

    /// Get the file path from this result
    pub fn file_path(&self) -> (r: &str)
        ensures
            r@ == self.file_spec(),
    {
        match self {
            FileResult::Modified { file, .. } => file.as_str(),
            FileResult::Unchanged { file } => file.as_str(),
            FileResult::Error { file, .. } => file.as_str(),
            FileResult::Skipped { file, .. } => file.as_str(),
        }
    }

    /// Check if this result represents a modified file
    pub fn is_modified(&self) -> (b: bool)
        ensures
            b == (self is Modified),
    {
        match self {
            FileResult::Modified { .. } => true,
            _ => false,
        }
    }

    /// Check if this result represents an error
    pub fn is_error(&self) -> (b: bool)
        ensures
            b == (self is Error),
    {
        match self {
            FileResult::Error { .. } => true,
            _ => false,
        }
    }
}

/// Container for all file results
#[derive(Debug)]
pub struct ProcessingResults {
    pub files: Vec<FileResult>,
    pub stats: StatsOutput,
}

/// The counters as they are reported.
#[derive(Debug)]
pub struct StatsOutput {
    pub total: usize,
    pub modified: usize,
    pub unchanged: usize,
    pub errors: usize,
    pub skipped: usize,
}

impl StatsOutput {
    /// The counters of a stats tracker.
    pub fn from_stats(stats: &ProcessingStats) -> (r: Self)
        ensures
            r.total == stats.total_files,
            r.modified == stats.modified_files,
            r.unchanged == stats.unchanged_files,
            r.errors == stats.error_files,
            r.skipped == stats.skipped_files,
    {
        StatsOutput {
            total: stats.total_files,
            modified: stats.modified_files,
            unchanged: stats.unchanged_files,
            errors: stats.error_files,
            skipped: stats.skipped_files,
        }
    }
}

/// How the handling of one file ended.
#[derive(Debug, Clone, Copy, PartialEq, Eq, Structural)]
pub enum FileEnd {
    /// Over the size limit.
    Skipped,
    /// It could not be read.
    ReadFailed,
    /// Processed, and written where asked.
    Done { needs_fixing: bool },
    /// Processed, then writing it back failed.
    WriteFailed { needs_fixing: bool },
}

/// The outcomes a file's end is counted as, in order: a file whose write
/// fails counts as processed and then as a write failure.
pub open spec fn file_outcomes(e: FileEnd) -> Seq<FileOutcome> {
    match e {
        FileEnd::Skipped => seq![FileOutcome::Skipped],
        FileEnd::ReadFailed => seq![FileOutcome::ReadFailed],
        FileEnd::Done { needs_fixing } => seq![FileOutcome::Processed { needs_fixing }],
        FileEnd::WriteFailed { needs_fixing } => seq![
            FileOutcome::Processed { needs_fixing },
            FileOutcome::WriteFailed,
        ],
    }
}

/// The counters after recording the outcomes in order.
pub open spec fn recorded_all(s: ProcessingStats, os: Seq<FileOutcome>) -> ProcessingStats
    decreases os.len(),
{
    if os.len() == 0 {
        s
    } else {
        recorded(recorded_all(s, os.drop_last()), os.last())
    }
}

/// Every outcome in turn has room, after the ones before it.
pub open spec fn room_for_all(s: ProcessingStats, os: Seq<FileOutcome>) -> bool
    decreases os.len(),
{
    if os.len() == 0 {
        true
    } else {
        room_for_all(s, os.drop_last()) && room_for(recorded_all(s, os.drop_last()), os.last())
    }
}

proof fn lemma_one_outcome(s: ProcessingStats, o: FileOutcome)
    ensures
        room_for_all(s, seq![o]) == room_for(s, o),
        recorded_all(s, seq![o]) == recorded(s, o),
{
    let e = Seq::<FileOutcome>::empty();
    assert(recorded_all(s, e) == s);
    assert(room_for_all(s, e));
    assert(seq![o].drop_last() =~= e);
    assert(seq![o].last() == o);
}

proof fn lemma_two_outcomes(s: ProcessingStats, a: FileOutcome, b: FileOutcome)
    ensures
        room_for_all(s, seq![a, b]) == (room_for(s, a) && room_for(recorded(s, a), b)),
        recorded_all(s, seq![a, b]) == recorded(recorded(s, a), b),
{
    assert(seq![a, b].drop_last() =~= seq![a]);
    assert(seq![a, b].last() == b);
    lemma_one_outcome(s, a);
}

/// What one file's end adds to the counters: a skipped file raises only
/// `skipped_files`; a file that could not be read counts once in
/// `total_files` and `error_files`; a processed file counts once in
/// `total_files` and in `modified_files` or `unchanged_files` as it needs
/// fixing or not; a processed file whose write fails counts that way and
/// then once more in `total_files` and `error_files`.
pub proof fn law_file_counted(s: ProcessingStats, e: FileEnd)
    requires
        room_for_all(s, file_outcomes(e)),
    ensures
        ({
            let t = recorded_all(s, file_outcomes(e));
            let (total, modified, unchanged, errors, skipped): (int, int, int, int, int) = match e {
                FileEnd::Skipped => (0, 0, 0, 0, 1),
                FileEnd::ReadFailed => (1, 0, 0, 1, 0),
                FileEnd::Done { needs_fixing } => (1, if needs_fixing { 1 } else { 0 }, if needs_fixing { 0 } else { 1 }, 0, 0),
                FileEnd::WriteFailed { needs_fixing } => (2, if needs_fixing { 1 } else { 0 }, if needs_fixing { 0 } else { 1 }, 1, 0),
            };
            &&& t.total_files == s.total_files + total
            &&& t.modified_files == s.modified_files + modified
            &&& t.unchanged_files == s.unchanged_files + unchanged
            &&& t.error_files == s.error_files + errors
            &&& t.skipped_files == s.skipped_files + skipped
        }),
{
    match e {
        FileEnd::Skipped => lemma_one_outcome(s, FileOutcome::Skipped),
        FileEnd::ReadFailed => lemma_one_outcome(s, FileOutcome::ReadFailed),
        FileEnd::Done { needs_fixing } => lemma_one_outcome(s, FileOutcome::Processed { needs_fixing }),
        FileEnd::WriteFailed { needs_fixing } => lemma_two_outcomes(
            s,
            FileOutcome::Processed { needs_fixing },
            FileOutcome::WriteFailed,
        ),
    }
}

impl ProcessingStats {
    /// The counters have room for every outcome of the file's end.
    pub fn has_room_for_file(&self, e: FileEnd) -> (b: bool)
        ensures
            b == room_for_all(*self, file_outcomes(e)),
    {
        proof {
            match e {
                FileEnd::Skipped => lemma_one_outcome(*self, FileOutcome::Skipped),
                FileEnd::ReadFailed => lemma_one_outcome(*self, FileOutcome::ReadFailed),
                FileEnd::Done { needs_fixing } => lemma_one_outcome(*self, FileOutcome::Processed { needs_fixing }),
                FileEnd::WriteFailed { needs_fixing } => lemma_two_outcomes(
                    *self,
                    FileOutcome::Processed { needs_fixing },
                    FileOutcome::WriteFailed,
                ),
            }
        }
        match e {
            FileEnd::Skipped => self.has_room_for(FileOutcome::Skipped),
            FileEnd::ReadFailed => self.has_room_for(FileOutcome::ReadFailed),
            FileEnd::Done { needs_fixing } => self.has_room_for(FileOutcome::Processed { needs_fixing }),
            FileEnd::WriteFailed { needs_fixing } => {
                let p = FileOutcome::Processed { needs_fixing };
                if !self.has_room_for(p) {
                    return false;
                }
                let mut next = ProcessingStats {
                    total_files: self.total_files,
                    modified_files: self.modified_files,
                    unchanged_files: self.unchanged_files,
                    error_files: self.error_files,
                    skipped_files: self.skipped_files,
                };
                next.record_outcome(p);
                next.has_room_for(FileOutcome::WriteFailed)
            },
        }
    }

    /// Count the end of one file: each of its outcomes in order (see
    /// [`file_outcomes`]).
    pub fn record_file(&mut self, e: FileEnd)
        requires
            room_for_all(*old(self), file_outcomes(e)),
        ensures
            *final(self) == recorded_all(*old(self), file_outcomes(e)),
    {
        proof {
            match e {
                FileEnd::Skipped => lemma_one_outcome(*old(self), FileOutcome::Skipped),
                FileEnd::ReadFailed => lemma_one_outcome(*old(self), FileOutcome::ReadFailed),
                FileEnd::Done { needs_fixing } => lemma_one_outcome(*old(self), FileOutcome::Processed { needs_fixing }),
                FileEnd::WriteFailed { needs_fixing } => lemma_two_outcomes(
                    *old(self),
                    FileOutcome::Processed { needs_fixing },
                    FileOutcome::WriteFailed,
                ),
            }
        }
        match e {
            FileEnd::Skipped => self.record_outcome(FileOutcome::Skipped),
            FileEnd::ReadFailed => self.record_outcome(FileOutcome::ReadFailed),
            FileEnd::Done { needs_fixing } => self.record_outcome(FileOutcome::Processed { needs_fixing }),
            FileEnd::WriteFailed { needs_fixing } => {
                self.record_outcome(FileOutcome::Processed { needs_fixing });
                self.record_outcome(FileOutcome::WriteFailed);
            },
        }
    }
}

// ---------------------------------------------------------------------------
// Line diff
// ---------------------------------------------------------------------------

/// What a line of a diff does: kept, removed from the old text, or added
/// in the new one.
#[derive(Debug, Clone, Copy, PartialEq, Eq, Structural)]
pub enum DiffTag {
    Equal,
    Delete,
    Insert,
}

/// The line changes that `similar`'s line diff finds from `old` to `new`
/// (each line with its line ending), in order.
pub uninterp spec fn line_changes(old: Seq<char>, new: Seq<char>) -> Seq<(DiffTag, Seq<char>)>;

/// The changes, their text taken by its view.
pub open spec fn changes_view(v: Seq<(DiffTag, String)>) -> Seq<(DiffTag, Seq<char>)> {
    v.map_values(|p: (DiffTag, String)| (p.0, p.1@))
}

/// The text of the changes without those tagged `skip`, in order.
pub open spec fn side_text(cs: Seq<(DiffTag, Seq<char>)>, skip: DiffTag) -> Seq<char>
    decreases cs.len(),
{
    if cs.len() == 0 {
        Seq::empty()
    } else {
        side_text(cs.drop_last(), skip) + if cs.last().0 == skip {
            Seq::<char>::empty()
        } else {
            cs.last().1
        }
    }
}

/// The line diff of `similar` (`TextDiff::from_lines`, with its default
/// configuration: Myers' algorithm and no deadline, so the result depends
/// on the two texts alone). The changes are named [`line_changes`]; as the
/// source shows (lines are cut after each line ending and the operations
/// cover both texts in order), the kept and removed lines spell `old` and
/// the kept and added lines spell `new`. Which lines are matched is not
/// stated.
#[verifier::external_body]
fn similar_line_changes(old: &str, new: &str) -> (r: Vec<(DiffTag, String)>)
    ensures
        changes_view(r@) == line_changes(old@, new@),
        side_text(changes_view(r@), DiffTag::Insert) == old@,
        side_text(changes_view(r@), DiffTag::Delete) == new@,
{
    let diff = TextDiff::from_lines(old, new);
    let mut v = Vec::new();
    for c in diff.iter_all_changes() {
        let tag = match c.tag() {
            ChangeTag::Equal => DiffTag::Equal,
            ChangeTag::Delete => DiffTag::Delete,
            ChangeTag::Insert => DiffTag::Insert,
        };
        v.push((tag, c.value().to_string()));
    }
    v
}

/// The line changes from `old` to `new`, each line with its line ending:
/// the kept and removed lines spell `old`, the kept and added lines spell
/// `new`.
pub fn diff_lines(old: &str, new: &str) -> (r: Vec<(DiffTag, String)>)
    ensures
        changes_view(r@) == line_changes(old@, new@),
        side_text(changes_view(r@), DiffTag::Insert) == old@,
        side_text(changes_view(r@), DiffTag::Delete) == new@,
{
    similar_line_changes(old, new)
}

/// The line as a diff shows it: with a newline added when it does not end
/// in `\r` or `\n` (the last line of a text without a final newline).
pub open spec fn shown_line(l: Seq<char>) -> Seq<char> {
    if l.len() > 0 && (l.last() == '\n' || l.last() == '\r') {
        l
    } else {
        l.push('\n')
    }
}

/// The changes as a diff shows them, each line ended.
pub open spec fn shown_changes(cs: Seq<(DiffTag, Seq<char>)>) -> Seq<(DiffTag, Seq<char>)> {
    cs.map_values(|p: (DiffTag, Seq<char>)| (p.0, shown_line(p.1)))
}

/// The lines of a diff as shown: each change's line, with a newline added
/// where it has no line ending.
pub fn shown_diff_lines(changes: &Vec<(DiffTag, String)>) -> (r: Vec<(DiffTag, String)>)
    ensures
        changes_view(r@) == shown_changes(changes_view(changes@)),
{
    let ghost cv = changes_view(changes@);
    let mut r: Vec<(DiffTag, String)> = Vec::new();
    let mut i: usize = 0;
    while i < changes.len()
        invariant
            i <= changes@.len(),
            cv == changes_view(changes@),
            changes_view(r@) == shown_changes(cv).take(i as int),
        decreases changes@.len() - i,
    {
        let tag = changes[i].0;
        let mut v = chars_of(changes[i].1.as_str());
        proof {
            assert(cv[i as int] == (tag, v@));
        }
        let n = v.len();
        let ended = n > 0 && (v[n - 1] == '\n' || v[n - 1] == '\r');
        if !ended {
            v.push('\n');
        }
        let ghost before = changes_view(r@);
        r.push((tag, string_of(&v)));
        proof {
            assert(changes_view(r@) =~= before.push((tag, v@)));
            assert(shown_changes(cv).take(i + 1) =~= shown_changes(cv).take(i as int).push(shown_changes(cv)[i as int]));
        }
        i += 1;
    }
    proof {
        assert(shown_changes(cv).take(i as int) =~= shown_changes(cv));
    }
    r
}

} // verus!
