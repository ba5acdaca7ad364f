//! Walking a live directory tree in apath order.
//!
//! The walker is a state machine. Its owner asks it for the next step: it
//! either hands out the next entry, or names a directory whose listing it
//! needs. The owner lists that directory, hands the listing back through
//! `select_children`, looks up the metadata of the children that were kept,
//! and gives them to `add_children`. Entries come out in apath order: the
//! children of a directory are sorted by name and handed out together,
//! and its subdirectories are then expanded, in order, before any directory
//! that was pending from a shallower level.
use core::cmp::Ordering;
use globset::GlobSet;
use std::collections::VecDeque;
use vstd::prelude::*;

use crate::apath::{
    apath_cmp, child_ok, child_path, compare_names, is_under, lemma_child_before_subtree,
    lemma_child_under, lemma_lex_equal, lemma_lex_flip, lemma_lex_le_trans, lemma_root_first,
    lemma_siblings_by_name, lemma_subtrees_in_name_order, lemma_under_trans, lex_cmp, valid_apath,
    Apath, CheckOrder,
};

verus! {

broadcast use vstd::seq_lib::group_to_multiset_ensures;

#[verifier::external_type_specification]
#[verifier::external_body]
pub struct ExGlobSet(GlobSet);

/// Whether some pattern of `set` matches `path`.
pub uninterp spec fn glob_match_of(set: GlobSet, path: Seq<char>) -> bool;

/// Relies on `globset::GlobSet::is_match`: whether any pattern of the set
/// matches `path`, which depends on the set and the path alone.
#[verifier::external_body]
fn glob_matches(excludes: &GlobSet, path: &str) -> (r: bool)
    ensures
        r == glob_match_of(*excludes, path@),
{
    excludes.is_match(path)
}

/// For each name of a listing of `parent`: whether it gives a child apath
/// that `set` matches.
pub open spec fn exclusion_flags(set: GlobSet, parent: Seq<char>, listed: Seq<Listed>) -> Seq<
    bool,
> {
    Seq::new(
        listed.len(),
        |i: int|
            child_ok(parent, listed[i].name@) && glob_match_of(
                set,
                child_path(parent, listed[i].name@),
            ),
    )
}

/// The kind of a filesystem entry.
#[derive(Clone, Copy, Debug, PartialEq, Eq, Structural)]
pub enum Kind {
    Dir,
    File,
    Symlink,
    Unknown,
}

/// What a metadata lookup (that does not follow symlinks) tells of an entry.
#[derive(Clone, Copy, Debug)]
pub struct FileInfo {
    pub is_file: bool,
    pub is_dir: bool,
    pub is_symlink: bool,
    /// Modification time: whole seconds since the Unix epoch (negative
    /// before it) ...
    pub mtime_secs: i64,
    /// ... and nanoseconds past those seconds.
    pub mtime_nanos: u32,
    /// Length in bytes.
    pub len: u64,
}

/// The kind that metadata describes.
pub open spec fn kind_of(info: FileInfo) -> Kind {
    if info.is_file {
        Kind::File
    } else if info.is_dir {
        Kind::Dir
    } else if info.is_symlink {
        Kind::Symlink
    } else {
        Kind::Unknown
    }
}

/// One observed file, directory, symlink or other entry of a live tree.
#[derive(Clone, Debug)]
pub struct LiveEntry {
    pub apath: Apath,
    pub kind: Kind,
    pub mtime_secs: i64,
    pub mtime_nanos: u32,
    /// Present for regular files only.
    pub size: Option<u64>,
    /// Present for symlinks only.
    pub symlink_target: Option<String>,
}

impl LiveEntry {
    /// The entry for `apath`, from its metadata and, for a symlink, its
    /// target.
    pub fn from_fs_metadata(apath: Apath, metadata: &FileInfo, symlink_target: Option<String>) -> (r:
        LiveEntry)
        ensures
            r.apath@ == apath@,
            r.kind == kind_of(*metadata),
            r.mtime_secs == metadata.mtime_secs,
            r.mtime_nanos == metadata.mtime_nanos,
            r.size == (if metadata.is_file {
                Some(metadata.len)
            } else {
                None
            }),
            r.symlink_target == symlink_target,
    {
        let kind = if metadata.is_file {
            Kind::File
        } else if metadata.is_dir {
            Kind::Dir
        } else if metadata.is_symlink {
            Kind::Symlink
        } else {
            Kind::Unknown
        };
        let size = if metadata.is_file {
            Some(metadata.len)
        } else {
            None
        };
        LiveEntry {
            apath,
            kind,
            mtime_secs: metadata.mtime_secs,
            mtime_nanos: metadata.mtime_nanos,
            size,
            symlink_target,
        }
    }

    pub fn apath(&self) -> (r: &Apath)
        ensures
            r == &self.apath,
    {
        &self.apath
    }

    pub fn kind(&self) -> (r: Kind)
        ensures
            r == self.kind,
    {
        self.kind
    }

    pub fn mtime(&self) -> (r: (i64, u32))
        ensures
            r == (self.mtime_secs, self.mtime_nanos),
    {
        (self.mtime_secs, self.mtime_nanos)
    }

    pub fn size(&self) -> (r: Option<u64>)
        ensures
            r == self.size,
    {
        self.size
    }

    pub fn symlink_target(&self) -> (r: &Option<String>)
        ensures
            r == &self.symlink_target,
    {
        &self.symlink_target
    }
}

/// One name of a directory listing, with the kind its listing gave.
#[derive(Debug)]
pub struct Listed {
    pub name: String,
    pub kind: Kind,
}

/// A child that was kept: its name and apath.
#[derive(Debug)]
pub struct Selected {
    pub name: String,
    pub apath: Apath,
}

/// A child whose metadata was read, with its name.
#[derive(Debug)]
pub struct Child {
    pub name: String,
    pub entry: LiveEntry,
}

/// What the walker has counted.
#[derive(Clone, Copy, Debug, PartialEq, Eq, Structural)]
pub struct WalkCounts {
    pub visited_directories: u64,
    pub selected: u64,
    pub excluded_files: u64,
    pub excluded_directories: u64,
    pub excluded_symlinks: u64,
    /// Names that gave no valid apath.
    pub bad_names: u64,
}

/// `x + n`, or `u64::MAX` where that does not fit.
pub open spec fn sat_add(x: u64, n: nat) -> u64 {
    if x + n > u64::MAX {
        u64::MAX
    } else {
        (x + n) as u64
    }
}

/// The kept children of `parent` from a listing, as (name, apath), given
/// which of their apaths the exclusions matched: those whose apath is valid
/// and not excluded, in listing order.
pub open spec fn kept(parent: Seq<char>, listed: Seq<Listed>, excluded: Seq<bool>) -> Seq<
    (Seq<char>, Seq<char>),
>
    decreases listed.len(),
{
    if listed.len() == 0 {
        seq![]
    } else {
        let i = listed.len() - 1;
        let p = child_path(parent, listed[i].name@);
        let before = kept(parent, listed.drop_last(), excluded.take(i));
        if child_ok(parent, listed[i].name@) && !excluded[i] {
            before.push((listed[i].name@, p))
        } else {
            before
        }
    }
}

/// Every child kept from a listing of `parent` has a name that is one
/// component and the apath of that name in `parent`; so entries made from
/// them are proper children of `parent` for `Iter::add_children`.
pub proof fn lemma_kept_are_children(parent: Seq<char>, listed: Seq<Listed>, excluded: Seq<bool>)
    ensures
        forall|i: int|
            0 <= i < kept(parent, listed, excluded).len() ==> {
                let k = #[trigger] kept(parent, listed, excluded)[i];
                child_ok(parent, k.0) && k.1 == child_path(parent, k.0)
            },
    decreases listed.len(),
{
    if listed.len() > 0 {
        let i = listed.len() - 1;
        let before = kept(parent, listed.drop_last(), excluded.take(i));
        lemma_kept_are_children(parent, listed.drop_last(), excluded.take(i));
        let all = kept(parent, listed, excluded);
        assert forall|j: int| 0 <= j < all.len() implies {
            let k = #[trigger] all[j];
            child_ok(parent, k.0) && k.1 == child_path(parent, k.0)
        } by {
            if j < before.len() {
                assert(all[j] == before[j]);
            }
        }
    }
}

/// How many children of a listing of `parent` were excluded and are of
/// kind `k`.
pub open spec fn excluded_of_kind(
    parent: Seq<char>,
    listed: Seq<Listed>,
    excluded: Seq<bool>,
    k: Kind,
) -> nat
    decreases listed.len(),
{
    if listed.len() == 0 {
        0
    } else {
        let i = listed.len() - 1;
        let before = excluded_of_kind(parent, listed.drop_last(), excluded.take(i), k);
        if child_ok(parent, listed[i].name@) && excluded[i] && listed[i].kind == k {
            before + 1
        } else {
            before
        }
    }
}

/// How many names of a listing of `parent` give no valid apath.
pub open spec fn bad_names(parent: Seq<char>, listed: Seq<Listed>) -> nat
    decreases listed.len(),
{
    if listed.len() == 0 {
        0
    } else {
        let i = listed.len() - 1;
        let before = bad_names(parent, listed.drop_last());
        if child_ok(parent, listed[i].name@) {
            before
        } else {
            before + 1
        }
    }
}

/// The counts after a listing of `parent` was filtered.
pub open spec fn counts_after_selection(
    c: WalkCounts,
    parent: Seq<char>,
    listed: Seq<Listed>,
    excluded: Seq<bool>,
) -> WalkCounts {
    WalkCounts {
        excluded_files: sat_add(
            c.excluded_files,
            excluded_of_kind(parent, listed, excluded, Kind::File),
        ),
        excluded_directories: sat_add(
            c.excluded_directories,
            excluded_of_kind(parent, listed, excluded, Kind::Dir),
        ),
        excluded_symlinks: sat_add(
            c.excluded_symlinks,
            excluded_of_kind(parent, listed, excluded, Kind::Symlink),
        ),
        bad_names: sat_add(c.bad_names, bad_names(parent, listed)),
        ..c
    }
}

/// Children in ascending order of name.
pub open spec fn sorted_by_name(s: Seq<Child>) -> bool {
    forall|i: int, j: int|
        0 <= i < j < s.len() ==> lex_cmp(#[trigger] s[i].name@, #[trigger] s[j].name@)
            != Ordering::Greater
}

/// The directories among `s`, in order.
pub open spec fn dir_children(s: Seq<Child>) -> Seq<Child>
    decreases s.len(),
{
    if s.len() == 0 {
        seq![]
    } else {
        let last = s[s.len() - 1];
        let before = dir_children(s.drop_last());
        if last.entry.kind == Kind::Dir {
            before.push(last)
        } else {
            before
        }
    }
}

/// The apaths of the directories among `s`, in order.
pub open spec fn dir_paths(s: Seq<Child>) -> Seq<Seq<char>> {
    dir_children(s).map_values(|c: Child| c.entry.apath@)
}

/// `s` without each child whose name does not come strictly after the
/// name of the last child kept before it.
pub open spec fn distinct_names(s: Seq<Child>) -> Seq<Child>
    decreases s.len(),
{
    if s.len() == 0 {
        seq![]
    } else {
        let c = s[s.len() - 1];
        let d = distinct_names(s.drop_last());
        if d.len() > 0 && lex_cmp(d[d.len() - 1].name@, c.name@) != Ordering::Less {
            d
        } else {
            d.push(c)
        }
    }
}

/// `c` is the child called `c.name` of the directory `g`.
pub open spec fn child_fits(g: Seq<char>, c: Child) -> bool {
    &&& child_ok(g, c.name@)
    &&& c.entry.apath@ == child_path(g, c.name@)
}

/// Every child of `s` is a child of the directory `expanding`.
pub open spec fn proper_children(expanding: Option<Seq<char>>, s: Seq<Child>) -> bool {
    &&& expanding is Some
    &&& forall|i: int| 0 <= i < s.len() ==> child_fits(expanding->0, #[trigger] s[i])
}

/// The entries of `s`, in order.
pub open spec fn entries_of(s: Seq<Child>) -> Seq<LiveEntry> {
    s.map_values(|c: Child| c.entry)
}

/// True if `o` is `Less`.
fn is_less(o: Ordering) -> (r: bool)
    ensures
        r == (o == Ordering::Less),
{
    match o {
        Ordering::Less => true,
        _ => false,
    }
}

/// Sort children into ascending order of name.
pub fn sort_by_name(v: Vec<Child>) -> (r: Vec<Child>)
    ensures
        r@.to_multiset() == v@.to_multiset(),
        r@.len() == v@.len(),
        sorted_by_name(r@),
{
    let mut input = v;
    let mut out: Vec<Child> = Vec::new();
    while input.len() > 0
        invariant
            out@.to_multiset().add(input@.to_multiset()) == v@.to_multiset(),
            sorted_by_name(out@),
        decreases input.len(),
    {
        let ghost before_in = input@;
        let c = input.pop().unwrap();
        assert(before_in == input@.push(c));
        let mut p: usize = 0;
        while p < out.len() && !is_less(compare_names(c.name.as_str(), out[p].name.as_str()))
            invariant
                p <= out.len(),
                sorted_by_name(out@),
                out@.to_multiset().add(input@.to_multiset().insert(c)) == v@.to_multiset(),
                forall|k: int| 0 <= k < p ==> lex_cmp(#[trigger] out@[k].name@, c.name@) != Ordering::Greater,
            decreases out.len() - p,
        {
            proof {
                lemma_lex_flip(c.name@, out@[p as int].name@);
            }
            p += 1;
        }
        let ghost old_out = out@;
        out.insert(p, c);
        proof {
            let s = out@;
            assert(s == old_out.insert(p as int, c));
            if p < old_out.len() {
                lemma_lex_flip(c.name@, old_out[p as int].name@);
            }
            assert forall|i: int, j: int| 0 <= i < j < s.len() implies lex_cmp(
                #[trigger] s[i].name@,
                #[trigger] s[j].name@,
            ) != Ordering::Greater by {
                if j < p {
                    assert(s[i] == old_out[i] && s[j] == old_out[j]);
                } else if j == p {
                    assert(s[i] == old_out[i]);
                } else if i == p {
                    assert(s[j] == old_out[j - 1]);
                    if j - 1 > p {
                        assert(lex_cmp(old_out[p as int].name@, old_out[j - 1].name@)
                            != Ordering::Greater);
                        lemma_lex_le_trans(c.name@, old_out[p as int].name@, old_out[j - 1].name@);
                    }
                } else if i < p {
                    assert(s[i] == old_out[i] && s[j] == old_out[j - 1]);
                    if i < j - 1 {
                        assert(lex_cmp(old_out[i].name@, old_out[j - 1].name@) != Ordering::Greater);
                    }
                } else {
                    assert(s[i] == old_out[i - 1] && s[j] == old_out[j - 1]);
                    assert(lex_cmp(old_out[i - 1].name@, old_out[j - 1].name@) != Ordering::Greater);
                }
            }
        }
    }
    proof {
        vstd::seq_lib::to_multiset_len(out@);
        vstd::seq_lib::to_multiset_len(v@);
    }
    out
}

/// One step of the walk.
#[derive(Debug)]
pub enum Step {
    /// The next entry, in apath order.
    Entry(LiveEntry),
    /// A directory whose children are needed before the walk can go on:
    /// list it and hand its listing to `select_children`.
    Visit(Apath),
    /// Nothing is left.
    Done,
    /// The next entry does not come after the one handed out before it.
    OutOfOrder(LiveEntry),
}

/// The walk of one live tree, from its root.
pub struct Iter {
    /// Directories yet to be listed, the next one first.
    dir_deque: VecDeque<Apath>,
    /// Entries found but not yet handed out, in the order they go out.
    entry_deque: VecDeque<LiveEntry>,
    counts: WalkCounts,
    check_order: CheckOrder,
    excludes: GlobSet,
    /// The directory last handed out to be listed, until its children come.
    expanding: Ghost<Option<Seq<char>>>,
}

impl Iter {
    /// Entries found and not yet handed out, the next one first.
    pub closed spec fn pending_entries(&self) -> Seq<LiveEntry> {
        self.entry_deque@
    }

    /// Directories yet to be listed, the next one first.
    pub closed spec fn pending_dirs(&self) -> Seq<Seq<char>> {
        self.dir_deque@.map_values(|a: Apath| a@)
    }

    /// What was counted so far.
    pub closed spec fn tally(&self) -> WalkCounts {
        self.counts
    }

    /// The apath of the last entry handed out.
    pub closed spec fn last_emitted(&self) -> Option<Seq<char>> {
        self.check_order.last()
    }

    /// The exclusion patterns the walk was made with.
    pub closed spec fn exclusions(&self) -> GlobSet {
        self.excludes
    }

    /// The directory last handed out to be listed, while its children have
    /// not been added.
    pub closed spec fn expanding(&self) -> Option<Seq<char>> {
        self.expanding@
    }

    /// The order invariant of the walk: pending entries are in strictly
    /// increasing apath order, after the last entry handed out and before
    /// everything under the pending directories; and everything under one
    /// pending directory comes before everything under a later one.
    pub open spec fn wf(&self) -> bool {
        let es = self.pending_entries();
        let ds = self.pending_dirs();
        let last = self.last_emitted();
        &&& forall|i: int| 0 <= i < es.len() ==> valid_apath(#[trigger] es[i].apath@)
        &&& forall|j: int| 0 <= j < ds.len() ==> valid_apath(#[trigger] ds[j])
        &&& forall|i: int, j: int|
            0 <= i < j < es.len() ==> apath_cmp(#[trigger] es[i].apath@, #[trigger] es[j].apath@)
                == Ordering::Less
        &&& forall|i: int|
            0 <= i < es.len() && last is Some ==> apath_cmp(last->0, #[trigger] es[i].apath@)
                == Ordering::Less
        &&& forall|i: int, j: int, x: Seq<char>|
            0 <= i < es.len() && 0 <= j < ds.len() && #[trigger] is_under(ds[j], x) ==> apath_cmp(
                #[trigger] es[i].apath@,
                x,
            ) == Ordering::Less
        &&& forall|j: int, x: Seq<char>|
            0 <= j < ds.len() && last is Some && #[trigger] is_under(ds[j], x) ==> apath_cmp(
                last->0,
                x,
            ) == Ordering::Less
        &&& forall|i: int, j: int, x: Seq<char>, y: Seq<char>|
            0 <= i < j < ds.len() && #[trigger] is_under(ds[i], x) && #[trigger] is_under(ds[j], y)
                ==> apath_cmp(x, y) == Ordering::Less
        &&& match self.expanding() {
            Some(g) => {
                &&& valid_apath(g)
                &&& es.len() == 0
                &&& forall|x: Seq<char>|
                    last is Some && #[trigger] is_under(g, x) ==> apath_cmp(last->0, x)
                        == Ordering::Less
                &&& forall|j: int, x: Seq<char>, y: Seq<char>|
                    0 <= j < ds.len() && #[trigger] is_under(g, x) && #[trigger] is_under(ds[j], y)
                        ==> apath_cmp(x, y) == Ordering::Less
            },
            None => true,
        }
    }

    /// A walk that starts with the root, whose metadata is `root`, and that
    /// leaves out every child whose apath `excludes` matches.
    pub fn new(root: &FileInfo, excludes: GlobSet) -> (r: Iter)
        ensures
            r.pending_entries().len() == 1,
            r.pending_entries()[0].apath@ == seq!['/'],
            r.pending_entries()[0].kind == kind_of(*root),
            r.pending_entries()[0].size == (if root.is_file {
                Some(root.len)
            } else {
                None
            }),
            r.pending_entries()[0].mtime_secs == root.mtime_secs,
            r.pending_entries()[0].mtime_nanos == root.mtime_nanos,
            r.pending_entries()[0].symlink_target is None,
            r.pending_dirs() == seq![seq!['/']],
            r.tally() == (WalkCounts {
                visited_directories: 0,
                selected: 0,
                excluded_files: 0,
                excluded_directories: 0,
                excluded_symlinks: 0,
                bad_names: 0,
            }),
            r.last_emitted() is None,
            r.expanding() is None,
            r.exclusions() == excludes,
            r.wf(),
    {
        let mut entry_deque: VecDeque<LiveEntry> = VecDeque::new();
        entry_deque.push_back(LiveEntry::from_fs_metadata(Apath::root(), root, None));
        let mut dir_deque: VecDeque<Apath> = VecDeque::new();
        dir_deque.push_back(Apath::root());
        assert(dir_deque@.map_values(|a: Apath| a@) =~= seq![seq!['/']]);
        let r = Iter {
            dir_deque,
            entry_deque,
            counts: WalkCounts {
                visited_directories: 0,
                selected: 0,
                excluded_files: 0,
                excluded_directories: 0,
                excluded_symlinks: 0,
                bad_names: 0,
            },
            check_order: CheckOrder::new(),
            excludes,
            expanding: Ghost(None),
        };
        proof {
            assert forall|i: int, j: int, x: Seq<char>|
                0 <= i < r.pending_entries().len() && 0 <= j < r.pending_dirs().len()
                    && #[trigger] is_under(r.pending_dirs()[j], x) implies apath_cmp(
                #[trigger] r.pending_entries()[i].apath@,
                x,
            ) == Ordering::Less by {
                lemma_root_first(x);
            }
        }
        r
    }

    /// What was counted so far.
    pub fn counts(&self) -> (r: WalkCounts)
        ensures
            r == self.tally(),
    {
        self.counts
    }

    /// The next step: hand out the next pending entry if there is one, else
    /// ask for the next pending directory, else finish.
    pub fn next_step(&mut self) -> (r: Step)
        ensures
            old(self).pending_entries().len() > 0 ==> {
                let e = old(self).pending_entries()[0];
                &&& final(self).pending_entries() == old(self).pending_entries().drop_first()
                &&& final(self).pending_dirs() == old(self).pending_dirs()
                &&& final(self).tally() == (WalkCounts {
                    selected: sat_add(old(self).tally().selected, 1),
                    ..old(self).tally()
                })
                &&& if old(self).last_emitted() is None || crate::apath::apath_cmp(
                    old(self).last_emitted()->0,
                    e.apath@,
                ) == Ordering::Less {
                    r == Step::Entry(e) && final(self).last_emitted() == Some(e.apath@)
                } else {
                    r == Step::OutOfOrder(e) && final(self).last_emitted()
                        == old(self).last_emitted()
                }
            },
            old(self).pending_entries().len() == 0 && old(self).pending_dirs().len() > 0 ==> {
                &&& r is Visit
                &&& r->Visit_0@ == old(self).pending_dirs()[0]
                &&& final(self).pending_dirs() == old(self).pending_dirs().drop_first()
                &&& final(self).pending_entries() == old(self).pending_entries()
                &&& final(self).tally() == (WalkCounts {
                    visited_directories: sat_add(old(self).tally().visited_directories, 1),
                    ..old(self).tally()
                })
                &&& final(self).last_emitted() == old(self).last_emitted()
            },
            old(self).pending_entries().len() == 0 && old(self).pending_dirs().len() == 0 ==> {
                &&& r is Done
                &&& final(self).pending_dirs() == old(self).pending_dirs()
                &&& final(self).pending_entries() == old(self).pending_entries()
                &&& final(self).tally() == old(self).tally()
                &&& final(self).last_emitted() == old(self).last_emitted()
            },
            r is Visit ==> final(self).expanding() == Some(r->Visit_0@),
            !(r is Visit) ==> final(self).expanding() is None,
            old(self).wf() ==> final(self).wf() && !(r is OutOfOrder),
            final(self).exclusions() == old(self).exclusions(),
    {
        let ghost es = self.pending_entries();
        let ghost ds = self.pending_dirs();
        let ghost was_wf = self.wf();
        self.expanding = Ghost(None);
        if let Some(entry) = self.entry_deque.pop_front() {
            self.counts.selected = self.counts.selected.saturating_add(1);
            proof {
                assert(es == seq![entry] + self.entry_deque@);
                assert(es[0] == entry);
                if was_wf && self.last_emitted() is Some {
                    assert(apath_cmp(self.last_emitted()->0, es[0].apath@) == Ordering::Less);
                }
            }
            if self.check_order.accepts(&entry.apath) {
                self.check_order.check(&entry.apath);
                proof {
                    if was_wf {
                        let es2 = self.pending_entries();
                        assert forall|i: int| 0 <= i < es2.len() implies valid_apath(
                            #[trigger] es2[i].apath@,
                        ) by {
                            assert(es2[i] == es[i + 1]);
                        }
                        assert forall|i: int, j: int| 0 <= i < j < es2.len() implies apath_cmp(
                            #[trigger] es2[i].apath@,
                            #[trigger] es2[j].apath@,
                        ) == Ordering::Less by {
                            assert(es2[i] == es[i + 1] && es2[j] == es[j + 1]);
                            assert(0 <= i + 1 < j + 1 < es.len());
                            assert(apath_cmp(es[i + 1].apath@, es[j + 1].apath@) == Ordering::Less);
                        }
                        assert forall|i: int| 0 <= i < es2.len() implies apath_cmp(
                            entry.apath@,
                            #[trigger] es2[i].apath@,
                        ) == Ordering::Less by {
                            assert(es2[i] == es[i + 1]);
                            assert(0 < i + 1 < es.len());
                            assert(apath_cmp(es[0].apath@, es[i + 1].apath@) == Ordering::Less);
                        }
                        assert forall|i: int, j: int, x: Seq<char>|
                            0 <= i < es2.len() && 0 <= j < ds.len() && #[trigger] is_under(
                                ds[j],
                                x,
                            ) implies apath_cmp(#[trigger] es2[i].apath@, x) == Ordering::Less by {
                            assert(es2[i] == es[i + 1]);
                        }
                        assert forall|j: int, x: Seq<char>|
                            0 <= j < ds.len() && #[trigger] is_under(ds[j], x) implies apath_cmp(
                            entry.apath@,
                            x,
                        ) == Ordering::Less by {
                            assert(es[0] == entry);
                        }
                    }
                }
                assert(was_wf ==> self.wf());
                Step::Entry(entry)
            } else {
                assert(!was_wf);
                Step::OutOfOrder(entry)
            }
        } else if let Some(dir) = self.dir_deque.pop_front() {
            self.counts.visited_directories = self.counts.visited_directories.saturating_add(1);
            self.expanding = Ghost(Some(dir@));
            proof {
                assert(old(self).dir_deque@ == seq![dir] + self.dir_deque@);
                assert(self.dir_deque@.map_values(|a: Apath| a@) =~= old(self).dir_deque@.map_values(|a: Apath| a@).drop_first());
                assert(ds[0] == dir@);
                if was_wf {
                    let ds2 = self.pending_dirs();
                    assert forall|j: int| 0 <= j < ds2.len() implies valid_apath(#[trigger] ds2[j]) by {
                        assert(ds2[j] == ds[j + 1]);
                    }
                    assert forall|j: int, x: Seq<char>|
                        0 <= j < ds2.len() && self.last_emitted() is Some && #[trigger] is_under(
                            ds2[j],
                            x,
                        ) implies apath_cmp(self.last_emitted()->0, x) == Ordering::Less by {
                        assert(ds2[j] == ds[j + 1]);
                    }
                    assert forall|i: int, j: int, x: Seq<char>, y: Seq<char>|
                        0 <= i < j < ds2.len() && #[trigger] is_under(ds2[i], x) && #[trigger] is_under(
                            ds2[j],
                            y,
                        ) implies apath_cmp(x, y) == Ordering::Less by {
                        assert(ds2[i] == ds[i + 1] && ds2[j] == ds[j + 1]);
                    }
                    assert forall|x: Seq<char>|
                        self.last_emitted() is Some && #[trigger] is_under(dir@, x) implies apath_cmp(
                            self.last_emitted()->0,
                            x,
                        ) == Ordering::Less by {
                        assert(is_under(ds[0], x));
                    }
                    assert forall|j: int, x: Seq<char>, y: Seq<char>|
                        0 <= j < ds2.len() && #[trigger] is_under(dir@, x) && #[trigger] is_under(
                            ds2[j],
                            y,
                        ) implies apath_cmp(x, y) == Ordering::Less by {
                        assert(ds2[j] == ds[j + 1]);
                        assert(is_under(ds[0], x));
                    }
                }
            }
            assert(was_wf ==> self.wf());
            Step::Visit(dir)
        } else {
            assert(was_wf ==> self.wf());
            Step::Done
        }
    }

    /// Filter a listing of the directory `parent`, given for each child
    /// whether the exclusions matched its apath: a child is kept if its name
    /// gives a valid apath that is not excluded; the others are counted.
    pub fn apply_exclusions(
        &mut self,
        parent: &Apath,
        listed: &Vec<Listed>,
        excluded: &Vec<bool>,
    ) -> (r: Vec<Selected>)
        requires
            excluded.len() == listed.len(),
        ensures
            r@.map_values(|s: Selected| (s.name@, s.apath@)) == kept(
                parent@,
                listed@,
                excluded@,
            ),
            final(self).tally() == counts_after_selection(
                old(self).tally(),
                parent@,
                listed@,
                excluded@,
            ),
            final(self).pending_entries() == old(self).pending_entries(),
            final(self).pending_dirs() == old(self).pending_dirs(),
            final(self).last_emitted() == old(self).last_emitted(),
            final(self).expanding() == old(self).expanding(),
            final(self).exclusions() == old(self).exclusions(),
    {
        let mut r: Vec<Selected> = Vec::new();
        let mut i: usize = 0;
        while i < listed.len()
            invariant
                i <= listed.len() == excluded.len(),
                r@.map_values(|s: Selected| (s.name@, s.apath@)) == kept(
                    parent@,
                    listed@.take(i as int),
                    excluded@.take(i as int),
                ),
                self.tally() == counts_after_selection(
                    old(self).tally(),
                    parent@,
                    listed@.take(i as int),
                    excluded@.take(i as int),
                ),
                self.pending_entries() == old(self).pending_entries(),
                self.pending_dirs() == old(self).pending_dirs(),
                self.last_emitted() == old(self).last_emitted(),
                self.expanding() == old(self).expanding(),
                self.exclusions() == old(self).exclusions(),
            decreases listed.len() - i,
        {
            let ghost (l0, e0) = (listed@.take(i as int), excluded@.take(i as int));
            let ghost (l1, e1) = (listed@.take(i + 1), excluded@.take(i + 1));
            assert(l1.drop_last() =~= l0);
            assert(e1.take(i as int) =~= e0);
            let ghost before = r@.map_values(|s: Selected| (s.name@, s.apath@));
            let item = &listed[i];
            match parent.child(item.name.as_str()) {
                None => {
                    self.counts.bad_names = self.counts.bad_names.saturating_add(1);
                },
                Some(apath) => {
                    if excluded[i] {
                        match item.kind {
                            Kind::File => {
                                self.counts.excluded_files = self.counts.excluded_files.saturating_add(1);
                            },
                            Kind::Dir => {
                                self.counts.excluded_directories = self.counts.excluded_directories.saturating_add(1);
                            },
                            Kind::Symlink => {
                                self.counts.excluded_symlinks = self.counts.excluded_symlinks.saturating_add(1);
                            },
                            Kind::Unknown => {},
                        }
                    } else {
                        r.push(Selected { name: item.name.clone(), apath });
                        assert(r@.map_values(|s: Selected| (s.name@, s.apath@)) =~= before.push(
                            (listed@[i as int].name@, child_path(parent@, listed@[i as int].name@)),
                        ));
                    }
                },
            }
            i += 1;
        }
        assert(listed@.take(listed.len() as int) =~= listed@);
        assert(excluded@.take(listed.len() as int) =~= excluded@);
        r
    }

    /// Filter a listing of the directory `parent` through this walk's
    /// exclusions: keep each child whose name gives a valid apath that the
    /// exclusions do not match, in listing order, and count the others.
    pub fn select_children(&mut self, parent: &Apath, listed: &Vec<Listed>) -> (r: Vec<Selected>)
        ensures
            r@.map_values(|s: Selected| (s.name@, s.apath@)) == kept(
                parent@,
                listed@,
                exclusion_flags(old(self).exclusions(), parent@, listed@),
            ),
            final(self).tally() == counts_after_selection(
                old(self).tally(),
                parent@,
                listed@,
                exclusion_flags(old(self).exclusions(), parent@, listed@),
            ),
            final(self).pending_entries() == old(self).pending_entries(),
            final(self).pending_dirs() == old(self).pending_dirs(),
            final(self).last_emitted() == old(self).last_emitted(),
            final(self).expanding() == old(self).expanding(),
            final(self).exclusions() == old(self).exclusions(),
    {
        let ghost flags = exclusion_flags(self.exclusions(), parent@, listed@);
        let mut excluded: Vec<bool> = Vec::new();
        let mut i: usize = 0;
        while i < listed.len()
            invariant
                i <= listed.len(),
                excluded@ == flags.take(i as int),
                flags == exclusion_flags(self.exclusions(), parent@, listed@),
            decreases listed.len() - i,
        {
            let m = match parent.child(listed[i].name.as_str()) {
                Some(apath) => glob_matches(&self.excludes, apath.as_str()),
                None => false,
            };
            excluded.push(m);
            i += 1;
            assert(excluded@ =~= flags.take(i as int));
        }
        assert(excluded@ =~= flags);
        self.apply_exclusions(parent, listed, &excluded)
    }

    /// Queue the children of a directory that was just listed: they go out
    /// after the entries already pending, in order of name, and their
    /// subdirectories are listed, in the same order, before any directory
    /// that was already pending. Of children that share a name only the
    /// first in name order is kept.
    ///
    /// If the walk was in order and these are children of the directory it
    /// asked for last, it stays in order.
    pub fn add_children(&mut self, found: Vec<Child>)
        ensures
            exists|sorted: Seq<Child>|
                {
                    &&& sorted.to_multiset() == found@.to_multiset()
                    &&& sorted.len() == found@.len()
                    &&& sorted_by_name(sorted)
                    &&& final(self).pending_entries() == old(self).pending_entries() + entries_of(
                        distinct_names(sorted),
                    )
                    &&& final(self).pending_dirs() == dir_paths(distinct_names(sorted)) + old(
                        self,
                    ).pending_dirs()
                },
            final(self).tally() == old(self).tally(),
            final(self).last_emitted() == old(self).last_emitted(),
            final(self).expanding() is None,
            final(self).exclusions() == old(self).exclusions(),
            old(self).wf() && proper_children(old(self).expanding(), found@) ==> final(self).wf(),
    {
        let ghost good = self.wf() && proper_children(self.expanding(), found@);
        let ghost g = match self.expanding() {
            Some(d) => d,
            None => seq!['/'],
        };
        let mut rest = sort_by_name(found);
        let ghost sorted = rest@;
        proof {
            if good {
                assert forall|i: int| 0 <= i < sorted.len() implies child_fits(
                    g,
                    #[trigger] sorted[i],
                ) by {
                    vstd::seq_lib::to_multiset_contains(sorted, sorted[i]);
                    vstd::seq_lib::to_multiset_contains(found@, sorted[i]);
                    let p = choose|p: int| 0 <= p < found@.len() && found@[p] == sorted[i];
                    assert(child_fits(g, found@[p]));
                }
            }
        }
        let ghost old_entries = self.entry_deque@;
        let mut new_dirs: Vec<Apath> = Vec::new();
        let mut prev: Option<String> = None;
        let ghost mut kept: Seq<Child> = seq![];
        let ghost mut kept_dirs: Seq<Child> = seq![];
        let mut k: usize = 0;
        let n = rest.len();
        while rest.len() > 0
            invariant
                k + rest.len() == n == sorted.len(),
                rest@ == sorted.skip(k as int),
                sorted_by_name(sorted),
                kept == distinct_names(sorted.take(k as int)),
                kept_dirs == dir_children(kept),
                prev is Some == (kept.len() > 0),
                kept.len() > 0 ==> prev->0@ == kept[kept.len() - 1].name@,
                self.entry_deque@ == old_entries + entries_of(kept),
                new_dirs@.map_values(|a: Apath| a@) == dir_paths(kept),
                forall|i: int, j: int|
                    0 <= i < j < kept.len() ==> lex_cmp(#[trigger] kept[i].name@, #[trigger] kept[j].name@)
                        == Ordering::Less,
                forall|i: int, j: int|
                    0 <= i < j < kept_dirs.len() ==> lex_cmp(
                        #[trigger] kept_dirs[i].name@,
                        #[trigger] kept_dirs[j].name@,
                    ) == Ordering::Less,
                kept.len() > 0 ==> forall|i: int|
                    0 <= i < kept_dirs.len() ==> lex_cmp(
                        #[trigger] kept_dirs[i].name@,
                        kept[kept.len() - 1].name@,
                    ) != Ordering::Greater,
                good ==> forall|i: int| 0 <= i < sorted.len() ==> child_fits(g, #[trigger] sorted[i]),
                good ==> forall|i: int| 0 <= i < kept.len() ==> child_fits(g, #[trigger] kept[i]),
                good ==> forall|i: int|
                    0 <= i < kept_dirs.len() ==> child_fits(g, #[trigger] kept_dirs[i]),
                self.dir_deque == old(self).dir_deque,
                self.counts == old(self).counts,
                self.check_order == old(self).check_order,
                self.expanding == old(self).expanding,
                self.excludes == old(self).excludes,
            decreases rest.len(),
        {
            let child = rest.remove(0);
            assert(child == sorted[k as int]);
            assert(sorted.take(k + 1).drop_last() =~= sorted.take(k as int));
            let keep = match &prev {
                None => true,
                Some(p) => is_less(compare_names(p.as_str(), child.name.as_str())),
            };
            if keep {
                prev = Some(child.name.clone());
                let ghost d0 = new_dirs@.map_values(|a: Apath| a@);
                let ghost kd0 = kept_dirs;
                proof {
                    assert forall|i: int| 0 <= i < kd0.len() implies lex_cmp(
                        #[trigger] kd0[i].name@,
                        child.name@,
                    ) == Ordering::Less by {
                        lemma_lex_le_trans(kd0[i].name@, kept[kept.len() - 1].name@, child.name@);
                    }
                    assert forall|i: int| 0 <= i < kept.len() implies lex_cmp(
                        #[trigger] kept[i].name@,
                        child.name@,
                    ) == Ordering::Less by {
                        if i < kept.len() - 1 {
                            lemma_lex_le_trans(kept[i].name@, kept[kept.len() - 1].name@, child.name@);
                        }
                    }
                    let kept0 = kept;
                    kept = kept.push(child);
                    assert(kept.drop_last() =~= kept0);
                    lemma_lex_equal(child.name@, child.name@);
                    if child.entry.kind != Kind::Dir {
                        assert(dir_children(kept) == dir_children(kept0));
                    }
                }
                if child.entry.kind == Kind::Dir {
                    new_dirs.push(child.entry.apath.duplicate());
                    proof {
                        kept_dirs = kept_dirs.push(child);
                        assert(kept_dirs == dir_children(kept));
                        assert(new_dirs@.map_values(|a: Apath| a@) =~= d0.push(child.entry.apath@));
                        assert(kept_dirs.map_values(|c: Child| c.entry.apath@) =~= kd0.map_values(
                            |c: Child| c.entry.apath@,
                        ).push(child.entry.apath@));
                    }
                }
                assert(entries_of(kept) =~= entries_of(kept.drop_last()).push(child.entry));
                self.entry_deque.push_back(child.entry);
            }
            k += 1;
            assert(rest@ =~= sorted.skip(k as int));
        }
        assert(sorted.take(n as int) =~= sorted);
        let ghost all_dirs = new_dirs@.map_values(|a: Apath| a@);
        let ghost old_dirs = self.dir_deque@.map_values(|a: Apath| a@);
        assert(all_dirs.take(new_dirs.len() as int) =~= all_dirs);
        assert(all_dirs.skip(new_dirs.len() as int) + old_dirs =~= old_dirs);
        while new_dirs.len() > 0
            invariant
                new_dirs.len() <= all_dirs.len(),
                new_dirs@.map_values(|a: Apath| a@) == all_dirs.take(new_dirs.len() as int),
                self.dir_deque@.map_values(|a: Apath| a@) == all_dirs.skip(new_dirs.len() as int)
                    + old_dirs,
                all_dirs == dir_paths(kept),
                self.entry_deque@ == old_entries + entries_of(kept),
                self.counts == old(self).counts,
                self.check_order == old(self).check_order,
                self.expanding == old(self).expanding,
                self.excludes == old(self).excludes,
            decreases new_dirs.len(),
        {
            let ghost m = new_dirs.len() as int;
            let ghost nd = new_dirs@;
            let d = new_dirs.pop().unwrap();
            assert(nd == new_dirs@.push(d));
            assert(nd.map_values(|a: Apath| a@)[m - 1] == d@);
            assert(all_dirs.take(m)[m - 1] == all_dirs[m - 1]);
            assert(d@ == all_dirs[m - 1]);
            let ghost q = self.dir_deque@;
            self.dir_deque.push_front(d);
            assert(self.dir_deque@ == seq![d] + q);
            assert(self.dir_deque@.map_values(|a: Apath| a@) =~= seq![d@] + q.map_values(|a: Apath| a@));
            assert(all_dirs.skip(m - 1) =~= seq![all_dirs[m - 1]] + all_dirs.skip(m));
            assert(self.dir_deque@.map_values(|a: Apath| a@) =~= all_dirs.skip(m - 1) + old_dirs);
            assert(new_dirs@.map_values(|a: Apath| a@) =~= all_dirs.take(m - 1));
        }
        assert(all_dirs.skip(0) =~= all_dirs);
        self.expanding = Ghost(None);
        proof {
            if good {
                self.lemma_expansion_in_order(g, kept, kept_dirs, old_dirs);
            }
        }
    }

    /// After the children `kept` of `g` were queued, in strictly increasing
    /// order of name, the walk is in order again.
    proof fn lemma_expansion_in_order(
        &self,
        g: Seq<char>,
        kept: Seq<Child>,
        kept_dirs: Seq<Child>,
        old_dirs: Seq<Seq<char>>,
    )
        requires
            valid_apath(g),
            self.pending_entries() == entries_of(kept),
            self.pending_dirs() == kept_dirs.map_values(|c: Child| c.entry.apath@) + old_dirs,
            self.expanding() is None,
            forall|i: int| 0 <= i < kept.len() ==> child_fits(g, #[trigger] kept[i]),
            forall|i: int| 0 <= i < kept_dirs.len() ==> child_fits(g, #[trigger] kept_dirs[i]),
            forall|i: int, j: int|
                0 <= i < j < kept.len() ==> lex_cmp(#[trigger] kept[i].name@, #[trigger] kept[j].name@)
                    == Ordering::Less,
            forall|i: int, j: int|
                0 <= i < j < kept_dirs.len() ==> lex_cmp(
                    #[trigger] kept_dirs[i].name@,
                    #[trigger] kept_dirs[j].name@,
                ) == Ordering::Less,
            forall|j: int| 0 <= j < old_dirs.len() ==> valid_apath(#[trigger] old_dirs[j]),
            forall|j: int, x: Seq<char>|
                0 <= j < old_dirs.len() && self.last_emitted() is Some && #[trigger] is_under(
                    old_dirs[j],
                    x,
                ) ==> apath_cmp(self.last_emitted()->0, x) == Ordering::Less,
            forall|i: int, j: int, x: Seq<char>, y: Seq<char>|
                0 <= i < j < old_dirs.len() && #[trigger] is_under(old_dirs[i], x) && #[trigger] is_under(
                    old_dirs[j],
                    y,
                ) ==> apath_cmp(x, y) == Ordering::Less,
            forall|x: Seq<char>|
                self.last_emitted() is Some && #[trigger] is_under(g, x) ==> apath_cmp(
                    self.last_emitted()->0,
                    x,
                ) == Ordering::Less,
            forall|j: int, x: Seq<char>, y: Seq<char>|
                0 <= j < old_dirs.len() && #[trigger] is_under(g, x) && #[trigger] is_under(
                    old_dirs[j],
                    y,
                ) ==> apath_cmp(x, y) == Ordering::Less,
        ensures
            self.wf(),
    {
        let es = self.pending_entries();
        let ds = self.pending_dirs();
        let nk = kept_dirs.len() as int;
        let last = self.last_emitted();
        assert forall|i: int| 0 <= i < es.len() implies valid_apath(#[trigger] es[i].apath@) by {
            assert(es[i] == kept[i].entry);
        }
        assert forall|j: int| 0 <= j < ds.len() implies valid_apath(#[trigger] ds[j]) by {
            if j >= nk {
                assert(ds[j] == old_dirs[j - nk]);
            }
        }
        assert forall|i: int, j: int| 0 <= i < j < es.len() implies apath_cmp(
            #[trigger] es[i].apath@,
            #[trigger] es[j].apath@,
        ) == Ordering::Less by {
            assert(es[i] == kept[i].entry && es[j] == kept[j].entry);
            assert(child_fits(g, kept[i]) && child_fits(g, kept[j]));
            lemma_siblings_by_name(g, kept[i].name@, kept[j].name@);
        }
        assert forall|i: int| 0 <= i < es.len() && last is Some implies apath_cmp(
            last->0,
            #[trigger] es[i].apath@,
        ) == Ordering::Less by {
            assert(es[i] == kept[i].entry);
            assert(child_fits(g, kept[i]));
            lemma_child_under(g, kept[i].name@);
        }
        assert forall|i: int, j: int, x: Seq<char>|
            0 <= i < es.len() && 0 <= j < ds.len() && #[trigger] is_under(ds[j], x) implies apath_cmp(
            #[trigger] es[i].apath@,
            x,
        ) == Ordering::Less by {
            assert(es[i] == kept[i].entry);
            assert(child_fits(g, kept[i]));
            if j < nk {
                assert(child_fits(g, kept_dirs[j]));
                lemma_child_before_subtree(g, kept[i].name@, kept_dirs[j].name@, x);
            } else {
                assert(ds[j] == old_dirs[j - nk]);
                lemma_child_under(g, kept[i].name@);
            }
        }
        assert forall|j: int, x: Seq<char>|
            0 <= j < ds.len() && last is Some && #[trigger] is_under(ds[j], x) implies apath_cmp(
            last->0,
            x,
        ) == Ordering::Less by {
            if j < nk {
                assert(child_fits(g, kept_dirs[j]));
                lemma_under_trans(g, kept_dirs[j].name@, x);
            } else {
                assert(ds[j] == old_dirs[j - nk]);
            }
        }
        assert forall|i: int, j: int, x: Seq<char>, y: Seq<char>|
            0 <= i < j < ds.len() && #[trigger] is_under(ds[i], x) && #[trigger] is_under(
                ds[j],
                y,
            ) implies apath_cmp(x, y) == Ordering::Less by {
            if j < nk {
                assert(child_fits(g, kept_dirs[i]) && child_fits(g, kept_dirs[j]));
                lemma_subtrees_in_name_order(g, kept_dirs[i].name@, kept_dirs[j].name@, x, y);
            } else if i < nk {
                assert(child_fits(g, kept_dirs[i]));
                lemma_under_trans(g, kept_dirs[i].name@, x);
                assert(ds[j] == old_dirs[j - nk]);
            } else {
                assert(ds[i] == old_dirs[i - nk] && ds[j] == old_dirs[j - nk]);
            }
        }
    }
}

} // verus!
