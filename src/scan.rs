use vstd::prelude::*;

use crate::config::Config;
use crate::path::{marker_name, FsPath, PathView};

verus! {

/// What a directory listing says an entry is.
#[derive(Clone, Copy, Debug, PartialEq, Eq, Structural)]
pub enum EntryKind {
    File,
    Dir,
    Symlink,
    Other,
}

/// One entry of a directory listing: its name and its kind.
#[derive(Debug)]
pub struct DirEntry {
    pub name: String,
    pub kind: EntryKind,
}

/// The entry is expanded later: a directory, or a symlink when symlinks are
/// followed.
pub open spec fn descends_into(e: DirEntry, follow_symlinks: bool) -> bool {
    e.kind == EntryKind::Dir || (follow_symlinks && e.kind == EntryKind::Symlink)
}

/// The entry is a marker file: a regular file named `mod.rs`.
pub open spec fn is_marker_entry(e: DirEntry) -> bool {
    e.kind == EntryKind::File && e.name@ == marker_name()
}

/// The paths, in listing order, of the entries of `dir` that are expanded later.
pub open spec fn descended(dir: PathView, entries: Seq<DirEntry>, follow_symlinks: bool) -> Seq<PathView>
    decreases entries.len(),
{
    if entries.len() == 0 {
        seq![]
    } else {
        let rest = descended(dir, entries.drop_last(), follow_symlinks);
        if descends_into(entries.last(), follow_symlinks) {
            rest.push(dir.push(entries.last().name@))
        } else {
            rest
        }
    }
}

/// The paths, in listing order, of the marker files among the entries of `dir`.
pub open spec fn markers_listed(dir: PathView, entries: Seq<DirEntry>) -> Seq<PathView>
    decreases entries.len(),
{
    if entries.len() == 0 {
        seq![]
    } else {
        let rest = markers_listed(dir, entries.drop_last());
        if is_marker_entry(entries.last()) {
            rest.push(dir.push(entries.last().name@))
        } else {
            rest
        }
    }
}

pub open spec fn paths_view(s: Seq<FsPath>) -> Seq<PathView> {
    s.map_values(|p: FsPath| p@)
}

/// A walk of a directory tree, driven one listing at a time.
///
/// Directories wait on a stack: the one pushed last is listed next. The marker
/// files met so far are kept in the order they were met.
#[derive(Debug)]
pub struct Scan {
    pending: Vec<FsPath>,
    found: Vec<FsPath>,
    follow_symlinks: bool,
}

proof fn lemma_paths_view_push(s: Seq<FsPath>, p: FsPath)
    ensures
        paths_view(s.push(p)) == paths_view(s).push(p@),
{
    assert(paths_view(s.push(p)) =~= paths_view(s).push(p@));
}

impl Scan {
    /// The directories still to be listed; the last one is listed next.
    pub closed spec fn pending(&self) -> Seq<PathView> {
        paths_view(self.pending@)
    }

    /// The marker files found so far, in the order they were met.
    pub closed spec fn found(&self) -> Seq<PathView> {
        paths_view(self.found@)
    }

    pub closed spec fn follows_symlinks(&self) -> bool {
        self.follow_symlinks
    }

    /// A walk that starts at `root`.
    pub fn start(root: FsPath, config: &Config) -> (r: Scan)
        ensures
            r.pending() == seq![root@],
            r.found() == Seq::<PathView>::empty(),
            r.follows_symlinks() == config.follow_symlinks,
    {
        let mut pending: Vec<FsPath> = Vec::new();
        pending.push(root);
        let r = Scan { pending, found: Vec::new(), follow_symlinks: config.follow_symlinks };
        assert(r.pending() =~= seq![root@]);
        assert(r.found() =~= Seq::<PathView>::empty());
        r
    }

    /// Takes the directory to list next, the one pushed last; `None` once the
    /// walk is over.
    pub fn next_dir(&mut self) -> (r: Option<FsPath>)
        ensures
            old(self).pending().len() == 0 ==> (r is None && final(self).pending() == old(self).pending()),
            old(self).pending().len() > 0 ==> (r matches Some(d) && d@ == old(self).pending().last()
                && final(self).pending() == old(self).pending().drop_last()),
            final(self).found() == old(self).found(),
            final(self).follows_symlinks() == old(self).follows_symlinks(),
    {
        let r = self.pending.pop();
        proof {
            if old(self).pending@.len() > 0 {
                assert(final(self).pending() =~= old(self).pending().drop_last());
            } else {
                assert(final(self).pending() =~= old(self).pending());
            }
        }
        r
    }

    /// Takes in the listing of `dir`: its subdirectories (and its symlinks,
    /// when they are followed) are pushed in listing order, and its marker
    /// files are added to what was found.
    pub fn visit(&mut self, dir: &FsPath, entries: &Vec<DirEntry>)
        ensures
            final(self).pending() == old(self).pending() + descended(
                dir@,
                entries@,
                old(self).follows_symlinks(),
            ),
            final(self).found() == old(self).found() + markers_listed(dir@, entries@),
            final(self).follows_symlinks() == old(self).follows_symlinks(),
    {
        let ghost pending0 = self.pending();
        let ghost found0 = self.found();
        let mut i: usize = 0;
        while i < entries.len()
            invariant
                i <= entries@.len(),
                self.follow_symlinks == old(self).follow_symlinks,
                pending0 == old(self).pending(),
                found0 == old(self).found(),
                self.pending() == pending0 + descended(dir@, entries@.take(i as int), self.follow_symlinks),
                self.found() == found0 + markers_listed(dir@, entries@.take(i as int)),
            decreases entries@.len() - i,
        {
            let e = &entries[i];
            let ghost before = entries@.take(i as int);
            let ghost after = entries@.take(i as int + 1);
            assert(after.drop_last() =~= before);
            assert(after.last() == *e);
            if e.kind == EntryKind::Dir || (self.follow_symlinks && e.kind == EntryKind::Symlink) {
                let p = dir.join(&e.name);
                proof {
                    lemma_paths_view_push(self.pending@, p);
                }
                self.pending.push(p);
            }
            if e.kind == EntryKind::File && crate::path::is_marker_name(&e.name) {
                let p = dir.join(&e.name);
                proof {
                    lemma_paths_view_push(self.found@, p);
                }
                self.found.push(p);
            }
            i = i + 1;
        }
        assert(entries@.take(entries@.len() as int) =~= entries@);
    }

    /// The marker files found, in the order they were met.
    pub fn into_found(self) -> (r: Vec<FsPath>)
        ensures
            paths_view(r@) == self.found(),
    {
        self.found
    }
}

} // verus!
