//! Replaying the entries of one tree onto another.
//!
//! The entries of the source come in apath order, one at a time; each is
//! handed to `copy_entry`, which dispatches on its kind to the destination
//! and counts what happened. A failure of the destination on one entry is
//! counted and reported, and the copy goes on with the next entry.
use vstd::prelude::*;

use crate::live_tree::{sat_add, Kind, LiveEntry};

verus! {

/// How a copy is run.
#[derive(Clone, Copy, Debug)]
pub struct CopyOptions {
    /// Print each apath as it is copied.
    pub print_filenames: bool,
    /// Walk the source once before copying, to size the progress display.
    pub measure_first: bool,
}

impl CopyOptions {
    /// Neither printing names nor measuring first.
    pub fn quiet() -> (r: CopyOptions)
        ensures
            !r.print_filenames,
            !r.measure_first,
    {
        CopyOptions { print_filenames: false, measure_first: false }
    }
}

/// What a copy counted.
#[derive(Clone, Copy, Debug, PartialEq, Eq, Structural)]
pub struct CopyStats {
    pub directories: u64,
    pub files: u64,
    pub symlinks: u64,
    pub unknown_kind: u64,
    pub errors: u64,
    /// Bytes of file content that the destination took in.
    pub file_bytes: u64,
}

/// A destination that entries can be copied into.
pub trait WriteTree {
    /// Make the directory of `entry`.
    fn copy_dir(&mut self, entry: &LiveEntry) -> Result<(), String>;

    /// Copy the content of the file `entry`, and say what that took.
    fn copy_file(&mut self, entry: &LiveEntry) -> Result<CopyStats, String>;

    /// Make the symlink of `entry`.
    fn copy_symlink(&mut self, entry: &LiveEntry) -> Result<(), String>;

    /// Flush what is buffered, and say what that took.
    fn finish(&mut self) -> Result<CopyStats, String>;
}

/// What the destination did with one entry.
#[derive(Clone, Copy, Debug, PartialEq, Eq, Structural)]
pub enum CopyOutcome {
    /// A directory or symlink was made.
    Made,
    /// A file was copied, with these statistics.
    FileCopied(CopyStats),
    /// The destination failed.
    Failed,
    /// The entry was of a kind that is not copied.
    Skipped,
}

/// The counters of `a` and `b` added up.
pub open spec fn merged(a: CopyStats, b: CopyStats) -> CopyStats {
    CopyStats {
        directories: sat_add(a.directories, b.directories as nat),
        files: sat_add(a.files, b.files as nat),
        symlinks: sat_add(a.symlinks, b.symlinks as nat),
        unknown_kind: sat_add(a.unknown_kind, b.unknown_kind as nat),
        errors: sat_add(a.errors, b.errors as nat),
        file_bytes: sat_add(a.file_bytes, b.file_bytes as nat),
    }
}

/// The outcome is one that copying an entry of kind `k` can have.
pub open spec fn fits(k: Kind, o: CopyOutcome) -> bool {
    match k {
        Kind::Dir => o is Made || o is Failed,
        Kind::Symlink => o is Made || o is Failed,
        Kind::File => o is FileCopied || o is Failed,
        Kind::Unknown => o is Skipped,
    }
}

/// The statistics after one entry of kind `k` with outcome `o`: the
/// entry's kind is counted, a failure is counted as an error, and a
/// copied file's own statistics are added.
pub open spec fn after_entry(s: CopyStats, k: Kind, o: CopyOutcome) -> CopyStats {
    let counted = match k {
        Kind::Dir => CopyStats { directories: sat_add(s.directories, 1), ..s },
        Kind::File => CopyStats { files: sat_add(s.files, 1), ..s },
        Kind::Symlink => CopyStats { symlinks: sat_add(s.symlinks, 1), ..s },
        Kind::Unknown => CopyStats { unknown_kind: sat_add(s.unknown_kind, 1), ..s },
    };
    match o {
        CopyOutcome::Failed => CopyStats { errors: sat_add(counted.errors, 1), ..counted },
        CopyOutcome::FileCopied(f) => merged(counted, f),
        _ => counted,
    }
}

/// The statistics after a run of entries of kinds `ks` with outcomes `os`.
pub open spec fn tally(s: CopyStats, ks: Seq<Kind>, os: Seq<CopyOutcome>) -> CopyStats
    decreases ks.len(),
{
    if ks.len() == 0 {
        s
    } else {
        let i = ks.len() - 1;
        after_entry(tally(s, ks.drop_last(), os.take(i)), ks[i], os[i])
    }
}

/// How many of `ks` are of kind `k`.
pub open spec fn count_kind(ks: Seq<Kind>, k: Kind) -> nat
    decreases ks.len(),
{
    if ks.len() == 0 {
        0
    } else {
        count_kind(ks.drop_last(), k) + if ks[ks.len() - 1] == k {
            1nat
        } else {
            0nat
        }
    }
}

/// How many of `os` are failures.
pub open spec fn count_failed(os: Seq<CopyOutcome>) -> nat
    decreases os.len(),
{
    if os.len() == 0 {
        0
    } else {
        count_failed(os.drop_last()) + if os[os.len() - 1] is Failed {
            1nat
        } else {
            0nat
        }
    }
}

/// Statistics with every counter zero.
pub fn zero_stats() -> (r: CopyStats)
    ensures
        r == (CopyStats {
            directories: 0,
            files: 0,
            symlinks: 0,
            unknown_kind: 0,
            errors: 0,
            file_bytes: 0,
        }),
{
    CopyStats { directories: 0, files: 0, symlinks: 0, unknown_kind: 0, errors: 0, file_bytes: 0 }
}

impl CopyStats {
    /// Add the counters of `other` to these.
    pub fn merge(&mut self, other: &CopyStats)
        ensures
            *final(self) == merged(*old(self), *other),
    {
        self.directories = self.directories.saturating_add(other.directories);
        self.files = self.files.saturating_add(other.files);
        self.symlinks = self.symlinks.saturating_add(other.symlinks);
        self.unknown_kind = self.unknown_kind.saturating_add(other.unknown_kind);
        self.errors = self.errors.saturating_add(other.errors);
        self.file_bytes = self.file_bytes.saturating_add(other.file_bytes);
    }

    /// Count one entry of kind `kind` whose copy had the outcome `outcome`.
    pub fn record(&mut self, kind: Kind, outcome: &CopyOutcome)
        ensures
            *final(self) == after_entry(*old(self), kind, *outcome),
    {
        match kind {
            Kind::Dir => {
                self.directories = self.directories.saturating_add(1);
            },
            Kind::File => {
                self.files = self.files.saturating_add(1);
            },
            Kind::Symlink => {
                self.symlinks = self.symlinks.saturating_add(1);
            },
            Kind::Unknown => {
                self.unknown_kind = self.unknown_kind.saturating_add(1);
            },
        }
        match outcome {
            CopyOutcome::Failed => {
                self.errors = self.errors.saturating_add(1);
            },
            CopyOutcome::FileCopied(f) => {
                self.merge(f);
            },
            _ => {},
        }
    }
}

/// The operation of a destination that an entry goes to.
#[derive(Clone, Copy, Debug, PartialEq, Eq, Structural)]
pub enum CopyOp {
    MakeDir,
    CopyFile,
    MakeSymlink,
    /// Entries of other kinds are not copied.
    Skip,
}

/// The operation for an entry of kind `k`.
pub open spec fn op_of(k: Kind) -> CopyOp {
    match k {
        Kind::Dir => CopyOp::MakeDir,
        Kind::File => CopyOp::CopyFile,
        Kind::Symlink => CopyOp::MakeSymlink,
        Kind::Unknown => CopyOp::Skip,
    }
}

/// The operation for an entry of kind `kind`.
pub fn op_for(kind: Kind) -> (r: CopyOp)
    ensures
        r == op_of(kind),
{
    match kind {
        Kind::Dir => CopyOp::MakeDir,
        Kind::File => CopyOp::CopyFile,
        Kind::Symlink => CopyOp::MakeSymlink,
        Kind::Unknown => CopyOp::Skip,
    }
}

/// The outcome of making a directory or symlink, from what the destination
/// returned.
pub fn outcome_of_made(res: &Result<(), String>) -> (o: CopyOutcome)
    ensures
        o == (if res is Ok {
            CopyOutcome::Made
        } else {
            CopyOutcome::Failed
        }),
{
    match res {
        Ok(()) => CopyOutcome::Made,
        Err(_) => CopyOutcome::Failed,
    }
}

/// The outcome of copying a file, from what the destination returned.
pub fn outcome_of_file(res: &Result<CopyStats, String>) -> (o: CopyOutcome)
    ensures
        o == (match res {
            Ok(f) => CopyOutcome::FileCopied(*f),
            Err(_) => CopyOutcome::Failed,
        }),
{
    match res {
        Ok(f) => CopyOutcome::FileCopied(*f),
        Err(_) => CopyOutcome::Failed,
    }
}

/// Copy one entry into `dest`, by its kind: a directory, file or symlink
/// goes to the matching operation of `dest` (`op_for`), an entry of another
/// kind is skipped. The entry is counted in `stats` whatever happens, with
/// the outcome that `outcome_of_made` or `outcome_of_file` makes of what
/// `dest` returned; a failure of `dest` is counted as an error and its
/// message returned.
pub fn copy_entry<D: WriteTree>(dest: &mut D, entry: &LiveEntry, stats: &mut CopyStats) -> (r:
    Result<(), String>)
    ensures
        exists|o: CopyOutcome|
            {
                &&& fits(entry.kind, o)
                &&& (o is Failed <==> r is Err)
                &&& *final(stats) == after_entry(*old(stats), entry.kind, o)
            },
        entry.kind == Kind::Unknown ==> r is Ok && *final(stats) == after_entry(
            *old(stats),
            Kind::Unknown,
            CopyOutcome::Skipped,
        ),
{
    let (outcome, r) = match op_for(entry.kind) {
        CopyOp::MakeDir => {
            let res = dest.copy_dir(entry);
            let o = outcome_of_made(&res);
            (o, res)
        },
        CopyOp::CopyFile => {
            let res = dest.copy_file(entry);
            let o = outcome_of_file(&res);
            let r = match res {
                Ok(_) => Ok(()),
                Err(e) => Err(e),
            };
            (o, r)
        },
        CopyOp::MakeSymlink => {
            let res = dest.copy_symlink(entry);
            let o = outcome_of_made(&res);
            (o, res)
        },
        CopyOp::Skip => (CopyOutcome::Skipped, Ok(())),
    };
    stats.record(entry.kind, &outcome);
    assert(fits(entry.kind, outcome) && (outcome is Failed <==> r is Err));
    r
}

/// Copy a run of entries into `dest`, one after another: a failure on one
/// entry is counted and its message kept, and the copy goes on with the
/// next. Every entry is counted, and the messages are one per failure.
pub fn copy_entries<D: WriteTree>(dest: &mut D, entries: &Vec<LiveEntry>, stats: &mut CopyStats) -> (errors:
    Vec<String>)
    ensures
        exists|os: Seq<CopyOutcome>|
            {
                &&& os.len() == entries.len()
                &&& forall|i: int| 0 <= i < os.len() ==> fits(#[trigger] entries@[i].kind, os[i])
                &&& *final(stats) == tally(
                    *old(stats),
                    entries@.map_values(|e: LiveEntry| e.kind),
                    os,
                )
                &&& errors.len() == count_failed(os)
            },
{
    let ghost ks = entries@.map_values(|e: LiveEntry| e.kind);
    let ghost mut os: Seq<CopyOutcome> = seq![];
    let mut errors: Vec<String> = Vec::new();
    let mut i: usize = 0;
    while i < entries.len()
        invariant
            i <= entries.len(),
            ks == entries@.map_values(|e: LiveEntry| e.kind),
            os.len() == i,
            forall|j: int| 0 <= j < i ==> fits(#[trigger] entries@[j].kind, os[j]),
            *stats == tally(*old(stats), ks.take(i as int), os),
            errors.len() == count_failed(os),
        decreases entries.len() - i,
    {
        let ghost before = *stats;
        let r = copy_entry(dest, &entries[i], stats);
        proof {
            let o = choose|o: CopyOutcome|
                {
                    &&& fits(entries@[i as int].kind, o)
                    &&& (o is Failed <==> r is Err)
                    &&& *stats == after_entry(before, entries@[i as int].kind, o)
                };
            let os0 = os;
            os = os.push(o);
            assert(ks.take(i + 1).drop_last() =~= ks.take(i as int));
            assert(os.take(i as int) =~= os0);
            assert(os.drop_last() =~= os0);
            assert(ks.take(i + 1)[i as int] == entries@[i as int].kind);
        }
        match r {
            Ok(()) => {},
            Err(e) => {
                errors.push(e);
            },
        }
        i += 1;
    }
    assert(ks.take(entries.len() as int) =~= ks);
    errors
}

/// The statistics at the end of a copy: those counted so far with what the
/// destination's finish reported, or its failure.
pub fn merge_finished(stats: &CopyStats, finished: Result<CopyStats, String>) -> (r: Result<
    CopyStats,
    String,
>)
    ensures
        match finished {
            Ok(d) => r == Ok::<CopyStats, String>(merged(*stats, d)),
            Err(e) => r == Err::<CopyStats, String>(e),
        },
{
    match finished {
        Ok(d) => {
            let mut total = *stats;
            total.merge(&d);
            Ok(total)
        },
        Err(e) => Err(e),
    }
}

/// Finish a copy: ask `dest` to flush, and add what it reports to `stats`
/// (`merge_finished`). A failure of `dest` here ends the copy with its
/// message.
pub fn finish_copy<D: WriteTree>(dest: &mut D, stats: &CopyStats) -> (r: Result<CopyStats, String>)
    ensures
        r is Ok ==> exists|d: CopyStats| r->Ok_0 == merged(*stats, d),
{
    let finished = dest.finish();
    merge_finished(stats, finished)
}

/// The sum of one counter over the statistics that copied files reported.
pub open spec fn reported(os: Seq<CopyOutcome>, field: spec_fn(CopyStats) -> u64) -> nat
    decreases os.len(),
{
    if os.len() == 0 {
        0
    } else {
        reported(os.drop_last(), field) + match os[os.len() - 1] {
            CopyOutcome::FileCopied(f) => field(f) as nat,
            _ => 0nat,
        }
    }
}

/// A failed entry does not stop the count: after any run of entries, each
/// kind is counted once per entry of that kind whatever the outcomes, the
/// errors are the failures (with any errors that copied files reported),
/// and nothing else is added but what copied files reported.
pub proof fn lemma_failures_counted(s: CopyStats, ks: Seq<Kind>, os: Seq<CopyOutcome>)
    requires
        os.len() == ks.len(),
        forall|i: int| 0 <= i < ks.len() ==> fits(#[trigger] ks[i], os[i]),
    ensures
        tally(s, ks, os).directories == sat_add(
            s.directories,
            count_kind(ks, Kind::Dir) + reported(os, |c: CopyStats| c.directories),
        ),
        tally(s, ks, os).files == sat_add(
            s.files,
            count_kind(ks, Kind::File) + reported(os, |c: CopyStats| c.files),
        ),
        tally(s, ks, os).symlinks == sat_add(
            s.symlinks,
            count_kind(ks, Kind::Symlink) + reported(os, |c: CopyStats| c.symlinks),
        ),
        tally(s, ks, os).unknown_kind == sat_add(
            s.unknown_kind,
            count_kind(ks, Kind::Unknown) + reported(os, |c: CopyStats| c.unknown_kind),
        ),
        tally(s, ks, os).errors == sat_add(
            s.errors,
            count_failed(os) + reported(os, |c: CopyStats| c.errors),
        ),
        tally(s, ks, os).file_bytes == sat_add(
            s.file_bytes,
            reported(os, |c: CopyStats| c.file_bytes),
        ),
    decreases ks.len(),
{
    if ks.len() > 0 {
        let i = ks.len() - 1;
        let (ks0, os0) = (ks.drop_last(), os.take(i));
        assert(os.drop_last() =~= os0);
        assert forall|j: int| 0 <= j < ks0.len() implies fits(#[trigger] ks0[j], os0[j]) by {
            assert(ks0[j] == ks[j] && os0[j] == os[j]);
        }
        lemma_failures_counted(s, ks0, os0);
        assert(fits(ks[i], os[i]));
    }
}

} // verus!
