use std::collections::BTreeMap;

use conserve::copy_tree::{
    copy_entries, merge_finished, op_for, outcome_of_file, outcome_of_made, CopyOp,
};
use conserve::live_tree::sort_by_name;
use conserve::{
    copy_entry, finish_copy, Apath, Child, CopyOutcome, CopyStats, FileInfo, Iter, Kind, Listed,
    LiveEntry, Step, WalkCounts, WriteTree,
};
use globset::{Glob, GlobSet, GlobSetBuilder};

/// A directory tree held in memory: for each directory apath, its children
/// in the order a listing gives them, with kind and size.
type FakeTree = BTreeMap<String, Vec<(String, Kind, u64)>>;

fn fixture(items: &[(&str, Kind, u64)]) -> FakeTree {
    let mut t = FakeTree::new();
    t.insert("/".to_string(), Vec::new());
    for (path, kind, size) in items {
        let (parent, name) = match path.rfind('/') {
            Some(i) => (format!("/{}", &path[..i]), &path[i + 1..]),
            None => ("/".to_string(), *path),
        };
        t.entry(parent).or_default().push((name.to_string(), *kind, *size));
        if *kind == Kind::Dir {
            t.entry(format!("/{}", path)).or_default();
        }
    }
    t
}

fn info(kind: Kind, size: u64) -> FileInfo {
    FileInfo {
        is_file: kind == Kind::File,
        is_dir: kind == Kind::Dir,
        is_symlink: kind == Kind::Symlink,
        mtime_secs: 1_600_000_000,
        mtime_nanos: 0,
        len: size,
    }
}

/// Walk a tree in memory the way a live tree is walked on disk.
fn walk(tree: &FakeTree, excludes: GlobSet) -> (Vec<LiveEntry>, WalkCounts) {
    let mut it = Iter::new(&info(Kind::Dir, 0), excludes);
    let mut out = Vec::new();
    loop {
        match it.next_step() {
            Step::Entry(e) => out.push(e),
            Step::Visit(dir) => {
                let children = tree.get(dir.as_str()).cloned().unwrap_or_default();
                let listed: Vec<Listed> = children
                    .iter()
                    .map(|(name, kind, _)| Listed { name: name.clone(), kind: *kind })
                    .collect();
                let selected = it.select_children(&dir, &listed);
                let found = selected
                    .into_iter()
                    .map(|s| {
                        let (_, kind, size) =
                            children.iter().find(|c| c.0 == s.name).cloned().unwrap();
                        let target = if kind == Kind::Symlink { Some("to".to_string()) } else { None };
                        let entry = LiveEntry::from_fs_metadata(s.apath, &info(kind, size), target);
                        Child { name: s.name, entry }
                    })
                    .collect();
                it.add_children(found);
            }
            Step::Done => break,
            Step::OutOfOrder(e) => panic!("out of order: {:?}", e),
        }
    }
    (out, it.counts())
}

fn globs(patterns: &[&str]) -> GlobSet {
    let mut b = GlobSetBuilder::new();
    for p in patterns {
        b.add(Glob::new(p).unwrap());
    }
    b.build().unwrap()
}

fn paths(entries: &[LiveEntry]) -> Vec<&str> {
    entries.iter().map(|e| e.apath.as_str()).collect()
}

#[test]
fn simple_directory() {
    let tf = fixture(&[
        ("bba", Kind::File, 8),
        ("aaa", Kind::File, 8),
        ("jam", Kind::Dir, 0),
        ("jam/apricot", Kind::File, 8),
        ("jelly", Kind::Dir, 0),
        ("jam/.etc", Kind::Dir, 0),
    ]);
    let (result, counts) = walk(&tf, GlobSet::empty());
    // First one is the root
    assert_eq!(result[0].apath.as_str(), "/");
    assert_eq!(result[1].apath.as_str(), "/aaa");
    assert_eq!(result[2].apath.as_str(), "/bba");
    assert_eq!(result[3].apath.as_str(), "/jam");
    assert_eq!(result[4].apath.as_str(), "/jelly");
    assert_eq!(result[5].apath.as_str(), "/jam/.etc");
    assert_eq!(result[6].apath.as_str(), "/jam/apricot");
    assert_eq!(result.len(), 7);

    assert_eq!(result[6].kind(), Kind::File);
    assert_eq!(result[6].size(), Some(8));
    assert_eq!(*result[6].symlink_target(), None);

    assert_eq!(counts.visited_directories, 4);
    assert_eq!(counts.selected, 7);
}

#[test]
fn exclude_entries_directory() {
    let tf = fixture(&[
        ("foooo", Kind::File, 1),
        ("bar", Kind::File, 1),
        ("fooooBar", Kind::Dir, 0),
        ("baz", Kind::Dir, 0),
        ("baz/bar", Kind::File, 1),
        ("baz/bas", Kind::File, 1),
        ("baz/test", Kind::File, 1),
    ]);
    let excludes = globs(&["/**/fooo*", "/**/ba[pqr]", "/**/*bas"]);
    let (result, counts) = walk(&tf, excludes);

    // First one is the root
    assert_eq!(result[0].apath.as_str(), "/");
    assert_eq!(result[1].apath.as_str(), "/baz");
    assert_eq!(result[2].apath.as_str(), "/baz/test");
    assert_eq!(result.len(), 3);

    assert_eq!(2, counts.visited_directories);
    assert_eq!(3, counts.selected);
    assert_eq!(4, counts.excluded_files);
    assert_eq!(1, counts.excluded_directories);
}

#[test]
fn symlinks() {
    let tf = fixture(&[("from", Kind::Symlink, 0)]);
    let (result, _) = walk(&tf, GlobSet::empty());

    assert_eq!(result[0].apath.as_str(), "/");
    assert_eq!(result[1].apath.as_str(), "/from");
    assert_eq!(result[1].kind(), Kind::Symlink);
    assert_eq!(result[1].symlink_target().as_deref(), Some("to"));
    assert_eq!(result[1].size(), None);
}

#[test]
fn walk_of_empty_root() {
    let (result, counts) = walk(&fixture(&[]), GlobSet::empty());
    assert_eq!(paths(&result), vec!["/"]);
    assert_eq!(counts.visited_directories, 1);
    assert_eq!(counts.selected, 1);
}

#[test]
fn walk_visits_subtrees_in_order() {
    let tf = fixture(&[
        ("b", Kind::Dir, 0),
        ("a", Kind::Dir, 0),
        ("b/y", Kind::Dir, 0),
        ("b/x", Kind::File, 1),
        ("a/z", Kind::File, 1),
        ("b/y/q", Kind::File, 1),
        ("zz", Kind::File, 1),
    ]);
    let (result, counts) = walk(&tf, GlobSet::empty());
    assert_eq!(
        paths(&result),
        vec!["/", "/a", "/b", "/zz", "/a/z", "/b/x", "/b/y", "/b/y/q"]
    );
    assert_eq!(counts.visited_directories, 4);
    for w in result.windows(2) {
        assert!(w[0].apath.precedes(&w[1].apath));
    }
}

#[test]
fn excluded_directory_is_not_listed() {
    let tf = fixture(&[
        ("skip", Kind::Dir, 0),
        ("skip/inner", Kind::File, 1),
        ("keep", Kind::File, 1),
        ("link", Kind::Symlink, 0),
    ]);
    let (result, counts) = walk(&tf, globs(&["/skip", "/link"]));
    assert_eq!(paths(&result), vec!["/", "/keep"]);
    assert_eq!(counts.excluded_directories, 1);
    assert_eq!(counts.excluded_symlinks, 1);
    assert_eq!(counts.excluded_files, 0);
    assert_eq!(counts.visited_directories, 1);
}

#[test]
fn bad_names_are_skipped_and_counted() {
    let mut it = Iter::new(&info(Kind::Dir, 0), GlobSet::empty());
    let root = Apath::root();
    let listed = vec![
        Listed { name: "ok".to_string(), kind: Kind::File },
        Listed { name: "..".to_string(), kind: Kind::File },
        Listed { name: "".to_string(), kind: Kind::File },
    ];
    let kept = it.select_children(&root, &listed);
    assert_eq!(kept.len(), 1);
    assert_eq!(kept[0].name, "ok");
    assert_eq!(kept[0].apath.as_str(), "/ok");
    assert_eq!(it.counts().bad_names, 2);
}

#[test]
fn apply_exclusions_uses_given_flags() {
    let mut it = Iter::new(&info(Kind::Dir, 0), GlobSet::empty());
    let dir = Apath::parse("/d").unwrap();
    let listed = vec![
        Listed { name: "a".to_string(), kind: Kind::File },
        Listed { name: "b".to_string(), kind: Kind::Dir },
        Listed { name: "c".to_string(), kind: Kind::Symlink },
    ];
    let kept = it.apply_exclusions(&dir, &listed, &vec![false, true, true]);
    assert_eq!(kept.len(), 1);
    assert_eq!(kept[0].apath.as_str(), "/d/a");
    let c = it.counts();
    assert_eq!((c.excluded_files, c.excluded_directories, c.excluded_symlinks), (0, 1, 1));
}

#[test]
fn step_order_for_fresh_walk() {
    let mut it = Iter::new(&info(Kind::Dir, 0), GlobSet::empty());
    match it.next_step() {
        Step::Entry(e) => {
            assert_eq!(e.apath.as_str(), "/");
            assert_eq!(e.kind, Kind::Dir);
        }
        other => panic!("{:?}", other),
    }
    match it.next_step() {
        Step::Visit(d) => assert_eq!(d.as_str(), "/"),
        other => panic!("{:?}", other),
    }
    assert!(matches!(it.next_step(), Step::Done));
}

#[test]
fn repeated_name_is_kept_once() {
    let mut it = Iter::new(&info(Kind::Dir, 0), GlobSet::empty());
    assert!(matches!(it.next_step(), Step::Entry(_)));
    assert!(matches!(it.next_step(), Step::Visit(_)));
    let root = Apath::root();
    let twice = vec![
        Child { name: "a".to_string(), entry: LiveEntry::from_fs_metadata(root.child("a").unwrap(), &info(Kind::Dir, 1), None) },
        Child { name: "a".to_string(), entry: LiveEntry::from_fs_metadata(root.child("a").unwrap(), &info(Kind::Dir, 1), None) },
    ];
    it.add_children(twice);
    assert!(matches!(it.next_step(), Step::Entry(_)));
    match it.next_step() {
        Step::Visit(d) => assert_eq!(d.as_str(), "/a"),
        other => panic!("{:?}", other),
    }
    assert!(matches!(it.next_step(), Step::Done));
}

#[test]
fn misplaced_child_is_out_of_order() {
    let mut it = Iter::new(&info(Kind::Dir, 0), GlobSet::empty());
    assert!(matches!(it.next_step(), Step::Entry(_)));
    assert!(matches!(it.next_step(), Step::Visit(_)));
    let root = Apath::root();
    // A child whose apath does not match its name.
    let children = vec![
        Child { name: "b".to_string(), entry: LiveEntry::from_fs_metadata(root.child("b").unwrap(), &info(Kind::File, 1), None) },
        Child { name: "c".to_string(), entry: LiveEntry::from_fs_metadata(root.child("a").unwrap(), &info(Kind::File, 1), None) },
    ];
    it.add_children(children);
    assert!(matches!(it.next_step(), Step::Entry(_)));
    assert!(matches!(it.next_step(), Step::OutOfOrder(_)));
}

#[test]
fn entry_from_metadata() {
    let apath = Apath::parse("/f").unwrap();
    let e = LiveEntry::from_fs_metadata(apath, &FileInfo {
        is_file: true,
        is_dir: false,
        is_symlink: false,
        mtime_secs: -36000,
        mtime_nanos: 5,
        len: 42,
    }, None);
    assert_eq!(e.kind(), Kind::File);
    assert_eq!(e.size(), Some(42));
    assert_eq!(e.mtime(), (-36000, 5));
    assert_eq!(e.apath().as_str(), "/f");
    let d = LiveEntry::from_fs_metadata(Apath::root(), &info(Kind::Dir, 99), None);
    assert_eq!(d.kind(), Kind::Dir);
    assert_eq!(d.size(), None);
    let u = LiveEntry::from_fs_metadata(Apath::root(), &info(Kind::Unknown, 0), None);
    assert_eq!(u.kind(), Kind::Unknown);
}

#[test]
fn sort_children_by_name() {
    let root = Apath::root();
    let names = ["b", "a", "B", "ab", "a"];
    let children: Vec<Child> = names
        .iter()
        .map(|n| Child {
            name: n.to_string(),
            entry: LiveEntry::from_fs_metadata(root.child(n).unwrap(), &info(Kind::File, 0), None),
        })
        .collect();
    let sorted = sort_by_name(children);
    let got: Vec<&str> = sorted.iter().map(|c| c.name.as_str()).collect();
    assert_eq!(got, vec!["B", "a", "a", "ab", "b"]);
}

/// A destination in memory, which fails on one chosen apath.
struct MemDest {
    fail_on: Option<String>,
    copied: Vec<(String, Kind, Option<u64>)>,
    finished: bool,
}

impl WriteTree for MemDest {
    fn copy_dir(&mut self, entry: &LiveEntry) -> Result<(), String> {
        self.take(entry).map(|_| ())
    }

    fn copy_file(&mut self, entry: &LiveEntry) -> Result<CopyStats, String> {
        self.take(entry)?;
        let mut s = conserve::copy_tree::zero_stats();
        s.file_bytes = entry.size().unwrap_or(0);
        Ok(s)
    }

    fn copy_symlink(&mut self, entry: &LiveEntry) -> Result<(), String> {
        self.take(entry).map(|_| ())
    }

    fn finish(&mut self) -> Result<CopyStats, String> {
        self.finished = true;
        Ok(conserve::copy_tree::zero_stats())
    }
}

impl MemDest {
    fn new(fail_on: Option<&str>) -> MemDest {
        MemDest { fail_on: fail_on.map(|s| s.to_string()), copied: Vec::new(), finished: false }
    }

    fn take(&mut self, entry: &LiveEntry) -> Result<(), String> {
        if self.fail_on.as_deref() == Some(entry.apath.as_str()) {
            return Err(format!("cannot write {}", entry.apath.as_str()));
        }
        self.copied.push((entry.apath.as_str().to_string(), entry.kind(), entry.size()));
        Ok(())
    }

    /// The destination read back as a tree.
    fn as_tree(&self) -> FakeTree {
        let items: Vec<(&str, Kind, u64)> = self
            .copied
            .iter()
            .filter(|(p, _, _)| p != "/")
            .map(|(p, k, s)| (&p[1..], *k, s.unwrap_or(0)))
            .collect();
        fixture(&items)
    }
}

fn copy_all(source: &[LiveEntry], dest: &mut MemDest) -> (CopyStats, usize) {
    let mut stats = conserve::copy_tree::zero_stats();
    let mut failures = 0;
    for e in source {
        if copy_entry(dest, e, &mut stats).is_err() {
            failures += 1;
        }
    }
    (finish_copy(dest, &stats).unwrap(), failures)
}

fn source_tree() -> FakeTree {
    fixture(&[
        ("hello", Kind::File, 5),
        ("hello2", Kind::File, 6),
        ("link", Kind::Symlink, 0),
        ("subdir", Kind::Dir, 0),
        ("subdir/subfile", Kind::File, 7),
        ("sock", Kind::Unknown, 0),
    ])
}

#[test]
fn copy_then_walk_gives_same_entries() {
    let (source, _) = walk(&source_tree(), GlobSet::empty());
    let mut dest = MemDest::new(None);
    let (stats, failures) = copy_all(&source, &mut dest);
    assert_eq!(failures, 0);
    assert!(dest.finished);
    assert_eq!(
        (stats.directories, stats.files, stats.symlinks, stats.unknown_kind, stats.errors),
        (2, 3, 1, 1, 0)
    );
    assert_eq!(stats.file_bytes, 18);

    let (copied, _) = walk(&dest.as_tree(), GlobSet::empty());
    let key = |e: &LiveEntry| (e.apath.as_str().to_string(), e.kind(), e.size());
    let expected: Vec<_> = source.iter().filter(|e| e.kind() != Kind::Unknown).map(key).collect();
    let got: Vec<_> = copied.iter().map(key).collect();
    assert_eq!(got, expected);
}

#[test]
fn one_failure_does_not_stop_copy() {
    let (source, _) = walk(&source_tree(), GlobSet::empty());
    let mut dest = MemDest::new(Some("/hello2"));
    let (stats, failures) = copy_all(&source, &mut dest);
    assert_eq!(failures, 1);
    assert_eq!(stats.errors, 1);
    assert_eq!(stats.files, 3);
    assert_eq!(stats.file_bytes, 12);
    let copied: Vec<&str> = dest.copied.iter().map(|c| c.0.as_str()).collect();
    assert_eq!(copied, vec!["/", "/hello", "/link", "/subdir", "/subdir/subfile"]);
}

#[test]
fn record_counts_each_outcome() {
    let mut s = conserve::copy_tree::zero_stats();
    s.record(Kind::Dir, &CopyOutcome::Made);
    s.record(Kind::File, &CopyOutcome::Failed);
    let mut f = conserve::copy_tree::zero_stats();
    f.file_bytes = 10;
    s.record(Kind::File, &CopyOutcome::FileCopied(f));
    s.record(Kind::Unknown, &CopyOutcome::Skipped);
    s.record(Kind::Symlink, &CopyOutcome::Made);
    assert_eq!(
        s,
        CopyStats { directories: 1, files: 2, symlinks: 1, unknown_kind: 1, errors: 1, file_bytes: 10 }
    );
    let mut m = s;
    m.merge(&s);
    assert_eq!(m.files, 4);
    assert_eq!(m.file_bytes, 20);
}

#[test]
fn counters_saturate() {
    let mut s = conserve::copy_tree::zero_stats();
    s.errors = u64::MAX;
    s.record(Kind::Dir, &CopyOutcome::Failed);
    assert_eq!(s.errors, u64::MAX);
    assert_eq!(s.directories, 1);
}

#[test]
fn quiet_options() {
    let o = conserve::CopyOptions::quiet();
    assert!(!o.print_filenames);
    assert!(!o.measure_first);
}

#[test]
fn mtime_before_epoch() {
    let mut it = Iter::new(&info(Kind::Dir, 0), GlobSet::empty());
    let mut entries = Vec::new();
    loop {
        match it.next_step() {
            Step::Entry(e) => entries.push(e),
            Step::Visit(dir) => {
                let listed = vec![Listed { name: "old_file".to_string(), kind: Kind::File }];
                let found = it
                    .select_children(&dir, &listed)
                    .into_iter()
                    .map(|s| {
                        let old = FileInfo { mtime_secs: -36000, ..info(Kind::File, 8) };
                        Child { name: s.name, entry: LiveEntry::from_fs_metadata(s.apath, &old, None) }
                    })
                    .collect();
                it.add_children(found);
            }
            Step::Done => break,
            Step::OutOfOrder(e) => panic!("{:?}", e),
        }
    }
    assert_eq!(entries[0].apath.as_str(), "/");
    assert_eq!(entries[1].apath.as_str(), "/old_file");
    assert_eq!(entries[1].mtime(), (-36000, 0));
}

#[test]
fn dispatch_by_kind() {
    assert_eq!(op_for(Kind::Dir), CopyOp::MakeDir);
    assert_eq!(op_for(Kind::File), CopyOp::CopyFile);
    assert_eq!(op_for(Kind::Symlink), CopyOp::MakeSymlink);
    assert_eq!(op_for(Kind::Unknown), CopyOp::Skip);
}

#[test]
fn outcomes_from_results() {
    assert_eq!(outcome_of_made(&Ok(())), CopyOutcome::Made);
    assert_eq!(outcome_of_made(&Err("x".to_string())), CopyOutcome::Failed);
    let mut f = conserve::copy_tree::zero_stats();
    f.file_bytes = 3;
    assert_eq!(outcome_of_file(&Ok(f)), CopyOutcome::FileCopied(f));
    assert_eq!(outcome_of_file(&Err("x".to_string())), CopyOutcome::Failed);
}

#[test]
fn finished_statistics_are_added() {
    let mut s = conserve::copy_tree::zero_stats();
    s.files = 2;
    let mut d = conserve::copy_tree::zero_stats();
    d.file_bytes = 7;
    let r = merge_finished(&s, Ok(d)).unwrap();
    assert_eq!((r.files, r.file_bytes), (2, 7));
    assert_eq!(merge_finished(&s, Err("full".to_string())), Err("full".to_string()));
}

#[test]
fn copy_entries_goes_on_after_failure() {
    let (source, _) = walk(&source_tree(), GlobSet::empty());
    let mut dest = MemDest::new(Some("/link"));
    let mut stats = conserve::copy_tree::zero_stats();
    let errors = copy_entries(&mut dest, &source, &mut stats);
    assert_eq!(errors, vec!["cannot write /link".to_string()]);
    assert_eq!(stats.errors, 1);
    assert_eq!(stats.symlinks, 1);
    assert_eq!((stats.directories, stats.files, stats.unknown_kind), (2, 3, 1));
    let copied: Vec<&str> = dest.copied.iter().map(|c| c.0.as_str()).collect();
    assert_eq!(copied, vec!["/", "/hello", "/hello2", "/subdir", "/subdir/subfile"]);
}

#[test]
fn walk_keeps_its_exclusions() {
    let tf = fixture(&[("a", Kind::Dir, 0), ("a/skipme", Kind::File, 1), ("a/keep", Kind::File, 1)]);
    let (result, counts) = walk(&tf, globs(&["/**/skip*"]));
    assert_eq!(paths(&result), vec!["/", "/a", "/a/keep"]);
    assert_eq!(counts.excluded_files, 1);
}

#[test]
fn entries_clone() {
    let e = LiveEntry::from_fs_metadata(Apath::parse("/f").unwrap(), &info(Kind::File, 4), None);
    let c = e.clone();
    assert_eq!(c.apath.as_str(), "/f");
    assert_eq!(c.size(), Some(4));
}
