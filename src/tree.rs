//! An in-memory tree: the directories and regular files under a root, each
//! named by its relative path as bytes (components joined by `/`).

use vstd::prelude::*;

verus! {

/// Directories and files of a tree, by relative path.
pub struct Tree {
    pub dirs: Vec<Vec<u8>>,
    /// `(path, contents)`; where a path occurs twice the later entry counts.
    pub files: Vec<(Vec<u8>, Vec<u8>)>,
}

pub open spec fn path_seq(v: Seq<Vec<u8>>) -> Seq<Seq<u8>> {
    v.map_values(|p: Vec<u8>| p@)
}

pub open spec fn entry_seq(v: Seq<(Vec<u8>, Vec<u8>)>) -> Seq<(Seq<u8>, Seq<u8>)> {
    v.map_values(|e: (Vec<u8>, Vec<u8>)| (e.0@, e.1@))
}

/// The set of paths listed.
pub open spec fn dset(s: Seq<Seq<u8>>) -> Set<Seq<u8>>
    decreases s.len(),
{
    if s.len() == 0 {
        Set::empty()
    } else {
        dset(s.drop_last()).insert(s.last())
    }
}

/// The files listed, the later of two entries for one path winning.
pub open spec fn fmap(s: Seq<(Seq<u8>, Seq<u8>)>) -> Map<Seq<u8>, Seq<u8>>
    decreases s.len(),
{
    if s.len() == 0 {
        Map::empty()
    } else {
        fmap(s.drop_last()).insert(s.last().0, s.last().1)
    }
}

/// `q` is `p` itself or lies below it.
pub open spec fn under(q: Seq<u8>, p: Seq<u8>) -> bool {
    q == p || (q.len() > p.len() && q.subrange(0, p.len() as int) == p && q[p.len() as int]
        == 0x2f)
}

impl Tree {
    pub open spec fn dir_set(&self) -> Set<Seq<u8>> {
        dset(path_seq(self.dirs@))
    }

    pub open spec fn file_map(&self) -> Map<Seq<u8>, Seq<u8>> {
        fmap(entry_seq(self.files@))
    }

    /// Whether `p` is a directory of the tree.
    pub fn has_dir(&self, p: &Vec<u8>) -> (r: bool)
        ensures
            r == self.dir_set().contains(p@),
    {
        contains_path(&self.dirs, p)
    }

    /// The contents of file `p`, if the tree has it.
    pub fn lookup(&self, p: &Vec<u8>) -> (r: Option<&Vec<u8>>)
        ensures
            r.is_some() == self.file_map().contains_key(p@),
            r.is_some() ==> r.unwrap()@ == self.file_map()[p@],
    {
        let mut found: Option<&Vec<u8>> = None;
        let mut i: usize = 0;
        while i < self.files.len()
            invariant
                i <= self.files.len(),
                found.is_some() == fmap(entry_seq(self.files@).subrange(0, i as int)).contains_key(
                    p@,
                ),
                found.is_some() ==> found.unwrap()@ == fmap(
                    entry_seq(self.files@).subrange(0, i as int),
                )[p@],
            decreases self.files.len() - i,
        {
            assert(entry_seq(self.files@).subrange(0, i + 1).drop_last() =~= entry_seq(
                self.files@,
            ).subrange(0, i as int));
            if bytes_eq(&self.files[i].0, p) {
                found = Some(&self.files[i].1);
            }
            i = i + 1;
        }
        assert(entry_seq(self.files@).subrange(0, self.files.len() as int) =~= entry_seq(
            self.files@,
        ));
        found
    }

    /// Adds directory `p`.
    pub fn add_dir(&mut self, p: Vec<u8>)
        ensures
            final(self).dir_set() == old(self).dir_set().insert(p@),
            final(self).file_map() == old(self).file_map(),
    {
        let ghost before = path_seq(self.dirs@);
        self.dirs.push(p);
        assert(path_seq(self.dirs@).drop_last() =~= before);
    }

    /// Removes file `p`, if present.
    pub fn remove_file(&mut self, p: &Vec<u8>)
        ensures
            final(self).dir_set() == old(self).dir_set(),
            final(self).file_map() == old(self).file_map().remove(p@),
    {
        let mut kept: Vec<(Vec<u8>, Vec<u8>)> = Vec::new();
        let mut i: usize = 0;
        while i < self.files.len()
            invariant
                i <= self.files.len(),
                fmap(entry_seq(kept@)) =~= fmap(entry_seq(self.files@).subrange(0, i as int)).remove(
                    p@,
                ),
            decreases self.files.len() - i,
        {
            assert(entry_seq(self.files@).subrange(0, i + 1).drop_last() =~= entry_seq(
                self.files@,
            ).subrange(0, i as int));
            if !bytes_eq(&self.files[i].0, p) {
                let ghost prev = entry_seq(kept@);
                kept.push((self.files[i].0.clone(), self.files[i].1.clone()));
                assert(entry_seq(kept@).drop_last() =~= prev);
            }
            i = i + 1;
        }
        assert(entry_seq(self.files@).subrange(0, self.files.len() as int) =~= entry_seq(
            self.files@,
        ));
        self.files = kept;
    }

    /// Removes directory `p` with everything below it.
    pub fn remove_tree(&mut self, p: &Vec<u8>)
        ensures
            final(self).dir_set() == old(self).dir_set().filter(|q: Seq<u8>| !under(q, p@)),
            final(self).file_map() == old(self).file_map().restrict(
                old(self).file_map().dom().filter(|q: Seq<u8>| !under(q, p@)),
            ),
    {
        let mut dirs: Vec<Vec<u8>> = Vec::new();
        let mut i: usize = 0;
        while i < self.dirs.len()
            invariant
                i <= self.dirs.len(),
                dset(path_seq(dirs@)) =~= dset(path_seq(self.dirs@).subrange(0, i as int)).filter(
                    |q: Seq<u8>| !under(q, p@),
                ),
            decreases self.dirs.len() - i,
        {
            assert(path_seq(self.dirs@).subrange(0, i + 1).drop_last() =~= path_seq(
                self.dirs@,
            ).subrange(0, i as int));
            if !is_under(&self.dirs[i], p) {
                let ghost prev = path_seq(dirs@);
                dirs.push(self.dirs[i].clone());
                assert(path_seq(dirs@).drop_last() =~= prev);
            }
            i = i + 1;
        }
        assert(path_seq(self.dirs@).subrange(0, self.dirs.len() as int) =~= path_seq(self.dirs@));
        let mut files: Vec<(Vec<u8>, Vec<u8>)> = Vec::new();
        let mut j: usize = 0;
        while j < self.files.len()
            invariant
                j <= self.files.len(),
                fmap(entry_seq(files@)) =~= fmap(entry_seq(self.files@).subrange(0, j as int)).restrict(
                    fmap(entry_seq(self.files@).subrange(0, j as int)).dom().filter(
                        |q: Seq<u8>| !under(q, p@),
                    ),
                ),
            decreases self.files.len() - j,
        {
            assert(entry_seq(self.files@).subrange(0, j + 1).drop_last() =~= entry_seq(
                self.files@,
            ).subrange(0, j as int));
            if !is_under(&self.files[j].0, p) {
                let ghost prev = entry_seq(files@);
                files.push((self.files[j].0.clone(), self.files[j].1.clone()));
                assert(entry_seq(files@).drop_last() =~= prev);
            }
            j = j + 1;
        }
        assert(entry_seq(self.files@).subrange(0, self.files.len() as int) =~= entry_seq(
            self.files@,
        ));
        self.dirs = dirs;
        self.files = files;
    }

    /// Writes `bytes` as the contents of file `p`.
    pub fn write_file(&mut self, p: Vec<u8>, bytes: Vec<u8>)
        ensures
            final(self).dir_set() == old(self).dir_set(),
            final(self).file_map() == old(self).file_map().insert(p@, bytes@),
    {
        self.remove_file(&p);
        let ghost before = entry_seq(self.files@);
        self.files.push((p, bytes));
        assert(entry_seq(self.files@).drop_last() =~= before);
        assert(fmap(entry_seq(self.files@)) =~= old(self).file_map().insert(p@, bytes@));
    }
}

/// Whether the two byte strings are equal.
pub fn bytes_eq(a: &Vec<u8>, b: &Vec<u8>) -> (r: bool)
    ensures
        r == (a@ == b@),
{
    if a.len() != b.len() {
        return false;
    }
    let mut i: usize = 0;
    while i < a.len()
        invariant
            a.len() == b.len(),
            i <= a.len(),
            a@.subrange(0, i as int) == b@.subrange(0, i as int),
        decreases a.len() - i,
    {
        if a[i] != b[i] {
            assert(a@[i as int] != b@[i as int]);
            return false;
        }
        assert(a@.subrange(0, i + 1) =~= a@.subrange(0, i as int).push(a@[i as int]));
        assert(b@.subrange(0, i + 1) =~= b@.subrange(0, i as int).push(b@[i as int]));
        i = i + 1;
    }
    assert(a@ =~= a@.subrange(0, i as int));
    assert(b@ =~= b@.subrange(0, i as int));
    true
}

/// Whether `q` is `p` or lies below it.
pub fn is_under(q: &Vec<u8>, p: &Vec<u8>) -> (r: bool)
    ensures
        r == under(q@, p@),
{
    if bytes_eq(q, p) {
        return true;
    }
    if q.len() <= p.len() {
        return false;
    }
    let mut i: usize = 0;
    while i < p.len()
        invariant
            p.len() < q.len(),
            i <= p.len(),
            q@.subrange(0, i as int) == p@.subrange(0, i as int),
        decreases p.len() - i,
    {
        if q[i] != p[i] {
            assert(q@.subrange(0, p.len() as int)[i as int] != p@[i as int]);
            return false;
        }
        assert(q@.subrange(0, i + 1) =~= q@.subrange(0, i as int).push(q@[i as int]));
        assert(p@.subrange(0, i + 1) =~= p@.subrange(0, i as int).push(p@[i as int]));
        i = i + 1;
    }
    assert(p@ =~= p@.subrange(0, i as int));
    q[p.len()] == 0x2f
}

/// Whether `p` is among `v`.
pub fn contains_path(v: &Vec<Vec<u8>>, p: &Vec<u8>) -> (r: bool)
    ensures
        r == dset(path_seq(v@)).contains(p@),
{
    let mut found = false;
    let mut i: usize = 0;
    while i < v.len()
        invariant
            i <= v.len(),
            found == dset(path_seq(v@).subrange(0, i as int)).contains(p@),
        decreases v.len() - i,
    {
        assert(path_seq(v@).subrange(0, i + 1).drop_last() =~= path_seq(v@).subrange(0, i as int));
        if bytes_eq(&v[i], p) {
            found = true;
        }
        i = i + 1;
    }
    assert(path_seq(v@).subrange(0, v.len() as int) =~= path_seq(v@));
    found
}

} // verus!
