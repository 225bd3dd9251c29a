//! The ignore set and the enumerator's filter: a path is skipped when any of
//! its components is an ignored name, as a walk that skips ignored entries and
//! their subtrees would.

use vstd::prelude::*;
use crate::text::{lines, pieces, split_lines, split_on, bytes_seq};
use crate::tree::{Tree, dset, fmap, path_seq, entry_seq, contains_path};

verus! {

/// Name of the snapshot directory under the working-tree root.
pub const SNAPSHOT_DIR: &'static str = ".pod";

/// Name of the commit log directory, inside the snapshot directory.
pub const COMMITS_DIR: &'static str = ".commits";

/// Name of the scratch directory, inside the snapshot directory.
pub const SCRATCH_DIR: &'static str = ".tmp";

/// Name of the ignore file at the working-tree root.
pub const IGNORE_FILE: &'static str = ".podignore";

/// Payload names inside a commit entry.
pub const DIRS_FILE: &'static str = "dirs";

pub const FILES_FILE: &'static str = "files";

pub const REMOVED_FILES_FILE: &'static str = "removed_files";

pub const CHANGES_DIR: &'static str = "changes";

/// The bytes of the snapshot directory's name, `.pod`.
pub open spec fn snapshot_name() -> Seq<u8> {
    seq![0x2eu8, 0x70, 0x6f, 0x64]
}

/// The bytes of the commit log directory's name, `.commits`.
pub open spec fn commits_name() -> Seq<u8> {
    seq![0x2eu8, 0x63, 0x6f, 0x6d, 0x6d, 0x69, 0x74, 0x73]
}

/// How the enumerator reports entries.
#[derive(Clone, Copy, Debug, PartialEq, Eq, Structural)]
pub enum WalkMethod {
    Dirs,
    Files,
}

/// File names to skip during enumeration.
pub struct IgnoreSet {
    pub names: Vec<Vec<u8>>,
}

/// The names that the ignore file lists, one per line.
pub open spec fn user_names(file: Option<Seq<u8>>) -> Set<Seq<u8>> {
    match file {
        Some(b) => dset(lines(b)),
        None => Set::empty(),
    }
}

/// The components of a relative path.
pub open spec fn components(p: Seq<u8>) -> Seq<Seq<u8>> {
    pieces(p, 0x2f)
}

/// No component of `p` is ignored.
pub open spec fn visible(p: Seq<u8>, ign: Set<Seq<u8>>) -> bool {
    forall|i: int| 0 <= i < components(p).len() ==> !ign.contains(#[trigger] components(p)[i])
}

/// The paths of the listing that the walk reports, in order.
pub open spec fn walk_spec(listing: Seq<(Seq<u8>, bool)>, ign: Set<Seq<u8>>, m: WalkMethod) -> Seq<
    Seq<u8>,
>
    decreases listing.len(),
{
    if listing.len() == 0 {
        seq![]
    } else {
        let prev = walk_spec(listing.drop_last(), ign, m);
        let e = listing.last();
        if visible(e.0, ign) && e.1 == (m == WalkMethod::Dirs) {
            prev.push(e.0)
        } else {
            prev
        }
    }
}

pub open spec fn listing_seq(v: Seq<(Vec<u8>, bool)>) -> Seq<(Seq<u8>, bool)> {
    v.map_values(|e: (Vec<u8>, bool)| (e.0@, e.1))
}

impl IgnoreSet {
    pub open spec fn name_set(&self) -> Set<Seq<u8>> {
        dset(path_seq(self.names@))
    }

    /// The names of the ignore file's lines (none where there is no file),
    /// together with the snapshot and commit log directories.
    pub fn new(file: Option<&Vec<u8>>) -> (r: IgnoreSet)
        ensures
            r.name_set() == user_names(
                match file {
                    Some(b) => Some(b@),
                    None => None,
                },
            ).insert(snapshot_name()).insert(commits_name()),
    {
        let mut names: Vec<Vec<u8>> = match file {
            Some(b) => split_lines(b),
            None => Vec::new(),
        };
        assert(path_seq(names@) =~= bytes_seq(names@));
        let ghost base = path_seq(names@);
        assert(dset(base) == user_names(
            match file {
                Some(b) => Some(b@),
                None => None,
            },
        ));
        let pod: Vec<u8> = vec![0x2eu8, 0x70, 0x6f, 0x64];
        assert(pod@ =~= snapshot_name());
        names.push(pod);
        assert(path_seq(names@).drop_last() =~= base);
        let ghost mid = path_seq(names@);
        let commits: Vec<u8> = vec![0x2eu8, 0x63, 0x6f, 0x6d, 0x6d, 0x69, 0x74, 0x73];
        assert(commits@ =~= commits_name());
        names.push(commits);
        assert(path_seq(names@).drop_last() =~= mid);
        assert(path_seq(names@).last() =~= commits_name());
        assert(mid.last() =~= snapshot_name());
        assert(dset(mid) == dset(base).insert(snapshot_name()));
        assert(dset(path_seq(names@)) == dset(mid).insert(commits_name()));
        IgnoreSet { names }
    }

    /// Whether `name` is ignored.
    pub fn contains(&self, name: &Vec<u8>) -> (r: bool)
        ensures
            r == self.name_set().contains(name@),
    {
        contains_path(&self.names, name)
    }

    /// Whether no component of `path` is ignored.
    pub fn is_visible(&self, path: &Vec<u8>) -> (r: bool)
        ensures
            r == visible(path@, self.name_set()),
    {
        let parts = split_on(path, 0x2f);
        let mut i: usize = 0;
        while i < parts.len()
            invariant
                i <= parts.len(),
                bytes_seq(parts@) == components(path@),
                forall|j: int|
                    0 <= j < i ==> !self.name_set().contains(#[trigger] components(path@)[j]),
            decreases parts.len() - i,
        {
            assert(parts@[i as int]@ == components(path@)[i as int]);
            if self.contains(&parts[i]) {
                return false;
            }
            i = i + 1;
        }
        true
    }
}

/// Appends to `data` the paths of the listing's directories (or files) that
/// the ignore set leaves visible, in the listing's order. A listing holds each
/// entry under a root as `(relative path, is a directory)`.
pub fn walk_dir(
    listing: &Vec<(Vec<u8>, bool)>,
    ignore: &IgnoreSet,
    method: WalkMethod,
    data: &mut Vec<Vec<u8>>,
)
    ensures
        path_seq(final(data)@) == path_seq(old(data)@) + walk_spec(
            listing_seq(listing@),
            ignore.name_set(),
            method,
        ),
{
    let ghost ls = listing_seq(listing@);
    let mut i: usize = 0;
    while i < listing.len()
        invariant
            i <= listing.len(),
            ls == listing_seq(listing@),
            path_seq(data@) == path_seq(old(data)@) + walk_spec(
                ls.subrange(0, i as int),
                ignore.name_set(),
                method,
            ),
        decreases listing.len() - i,
    {
        assert(ls.subrange(0, i + 1).drop_last() =~= ls.subrange(0, i as int));
        let want_dir = match method {
            WalkMethod::Dirs => true,
            WalkMethod::Files => false,
        };
        if ignore.is_visible(&listing[i].0) && listing[i].1 == want_dir {
            let ghost prev = path_seq(data@);
            data.push(listing[i].0.clone());
            assert(path_seq(data@) =~= prev.push(ls[i as int].0));
        }
        i = i + 1;
        assert(path_seq(data@) =~= path_seq(old(data)@) + walk_spec(
            ls.subrange(0, i as int),
            ignore.name_set(),
            method,
        ));
    }
    assert(ls.subrange(0, i as int) =~= ls);
}

impl Tree {
    /// The part of the tree that the ignore set leaves visible.
    pub fn visible_part(&self, ignore: &IgnoreSet) -> (r: Tree)
        ensures
            r.dir_set() == self.dir_set().filter(|p: Seq<u8>| visible(p, ignore.name_set())),
            r.file_map() == self.file_map().restrict(
                self.file_map().dom().filter(|p: Seq<u8>| visible(p, ignore.name_set())),
            ),
    {
        let ghost ign = ignore.name_set();
        let mut dirs: Vec<Vec<u8>> = Vec::new();
        let mut i: usize = 0;
        while i < self.dirs.len()
            invariant
                i <= self.dirs.len(),
                ign == ignore.name_set(),
                dset(path_seq(dirs@)) =~= dset(path_seq(self.dirs@).subrange(0, i as int)).filter(
                    |p: Seq<u8>| visible(p, ign),
                ),
            decreases self.dirs.len() - i,
        {
            assert(path_seq(self.dirs@).subrange(0, i + 1).drop_last() =~= path_seq(
                self.dirs@,
            ).subrange(0, i as int));
            if ignore.is_visible(&self.dirs[i]) {
                let ghost prev = path_seq(dirs@);
                dirs.push(self.dirs[i].clone());
                assert(path_seq(dirs@).drop_last() =~= prev);
            }
            i = i + 1;
        }
        assert(path_seq(self.dirs@).subrange(0, self.dirs.len() as int) =~= path_seq(self.dirs@));
        let mut files: Vec<(Vec<u8>, Vec<u8>)> = Vec::new();
        let mut j: usize = 0;
        while j < self.files.len()
            invariant
                j <= self.files.len(),
                ign == ignore.name_set(),
                fmap(entry_seq(files@)) =~= fmap(entry_seq(self.files@).subrange(0, j as int)).restrict(
                    fmap(entry_seq(self.files@).subrange(0, j as int)).dom().filter(
                        |p: Seq<u8>| visible(p, ign),
                    ),
                ),
            decreases self.files.len() - j,
        {
            assert(entry_seq(self.files@).subrange(0, j + 1).drop_last() =~= entry_seq(
                self.files@,
            ).subrange(0, j as int));
            if ignore.is_visible(&self.files[j].0) {
                let ghost prev = entry_seq(files@);
                files.push((self.files[j].0.clone(), self.files[j].1.clone()));
                assert(entry_seq(files@).drop_last() =~= prev);
            }
            j = j + 1;
        }
        assert(entry_seq(self.files@).subrange(0, self.files.len() as int) =~= entry_seq(
            self.files@,
        ));
        Tree { dirs, files }
    }
}

} // verus!
