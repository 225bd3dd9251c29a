//! The commit record: how the working tree differs from the baseline.

use vstd::prelude::*;
use crate::change::{Change, diff_spec, fresh_ops, diff_bytes, fresh_changes};
use crate::tree::{Tree, dset, fmap, path_seq, entry_seq, contains_path};

verus! {

/// The difference between the current tree and the baseline.
pub struct Commit {
    /// Directories of the current tree that the baseline lacks.
    pub new_dirs: Vec<Vec<u8>>,
    /// Directories of the baseline that the current tree lacks.
    pub removed_dirs: Vec<Vec<u8>>,
    /// Files of the current tree that the baseline lacks.
    pub new_files: Vec<Vec<u8>>,
    /// Files of the baseline that the current tree lacks.
    pub removed_files: Vec<Vec<u8>>,
    /// For each new file, and each file whose bytes changed, its operations.
    pub changed_files: Vec<(Vec<u8>, Vec<(usize, Change)>)>,
}

/// The paths of `a` that are not in `b`, in order.
pub open spec fn minus(a: Seq<Seq<u8>>, b: Set<Seq<u8>>) -> Seq<Seq<u8>>
    decreases a.len(),
{
    if a.len() == 0 {
        seq![]
    } else if b.contains(a.last()) {
        minus(a.drop_last(), b)
    } else {
        minus(a.drop_last(), b).push(a.last())
    }
}

pub open spec fn keys_of(s: Seq<(Seq<u8>, Seq<u8>)>) -> Seq<Seq<u8>> {
    s.map_values(|e: (Seq<u8>, Seq<u8>)| e.0)
}

/// The operations recorded for one file of the current tree, if any.
pub open spec fn file_delta(p: Seq<u8>, bytes: Seq<u8>, base: Map<Seq<u8>, Seq<u8>>) -> Option<
    Seq<(usize, Change)>,
> {
    if base.contains_key(p) {
        let d = diff_spec(bytes, base[p]);
        if d.len() == 0 {
            None
        } else {
            Some(d)
        }
    } else {
        Some(fresh_ops(bytes))
    }
}

/// The changed files for the given entries of the current tree, in order.
pub open spec fn deltas(cur: Seq<(Seq<u8>, Seq<u8>)>, base: Map<Seq<u8>, Seq<u8>>) -> Seq<
    (Seq<u8>, Seq<(usize, Change)>),
>
    decreases cur.len(),
{
    if cur.len() == 0 {
        seq![]
    } else {
        let prev = deltas(cur.drop_last(), base);
        match file_delta(cur.last().0, cur.last().1, base) {
            Some(d) => prev.push((cur.last().0, d)),
            None => prev,
        }
    }
}

pub open spec fn changes_view(v: Seq<(Vec<u8>, Vec<(usize, Change)>)>) -> Seq<
    (Seq<u8>, Seq<(usize, Change)>),
> {
    v.map_values(|e: (Vec<u8>, Vec<(usize, Change)>)| (e.0@, e.1@))
}

/// The paths of `a` that are not in `b`, in order.
fn paths_minus(a: &Vec<Vec<u8>>, b: &Vec<Vec<u8>>) -> (r: Vec<Vec<u8>>)
    ensures
        path_seq(r@) == minus(path_seq(a@), dset(path_seq(b@))),
{
    let mut r: Vec<Vec<u8>> = Vec::new();
    let mut i: usize = 0;
    while i < a.len()
        invariant
            i <= a.len(),
            path_seq(r@) == minus(path_seq(a@).subrange(0, i as int), dset(path_seq(b@))),
        decreases a.len() - i,
    {
        assert(path_seq(a@).subrange(0, i + 1).drop_last() =~= path_seq(a@).subrange(0, i as int));
        if !contains_path(b, &a[i]) {
            let ghost prev = path_seq(r@);
            r.push(a[i].clone());
            assert(path_seq(r@) =~= prev.push(a@[i as int]@));
        }
        i = i + 1;
    }
    assert(path_seq(a@).subrange(0, a.len() as int) =~= path_seq(a@));
    r
}

/// The paths of the files listed.
fn file_paths(files: &Vec<(Vec<u8>, Vec<u8>)>) -> (r: Vec<Vec<u8>>)
    ensures
        path_seq(r@) == keys_of(entry_seq(files@)),
{
    let mut r: Vec<Vec<u8>> = Vec::new();
    let mut i: usize = 0;
    while i < files.len()
        invariant
            i <= files.len(),
            path_seq(r@) == keys_of(entry_seq(files@)).subrange(0, i as int),
        decreases files.len() - i,
    {
        let ghost prev = path_seq(r@);
        let p = files[i].0.clone();
        r.push(p);
        assert(path_seq(r@) =~= prev.push(files@[i as int].0@));
        i = i + 1;
        assert(path_seq(r@) =~= keys_of(entry_seq(files@)).subrange(0, i as int));
    }
    assert(keys_of(entry_seq(files@)) =~= keys_of(entry_seq(files@)).subrange(0, i as int));
    r
}

impl Commit {
    /// `r` records how `current` differs from `baseline`.
    pub open spec fn new_spec(current: Tree, baseline: Tree, r: Commit) -> bool {
        (path_seq(r.new_dirs@) == minus(path_seq(current.dirs@), baseline.dir_set()))
        && (path_seq(r.removed_dirs@) == minus(path_seq(baseline.dirs@), current.dir_set()))
        && (path_seq(r.new_files@) == minus(
                keys_of(entry_seq(current.files@)),
                baseline.file_map().dom(),
            ))
        && (path_seq(r.removed_files@) == minus(
                keys_of(entry_seq(baseline.files@)),
                current.file_map().dom(),
            ))
        && (changes_view(r.changed_files@) == deltas(
                entry_seq(current.files@),
                baseline.file_map(),
            ))
    }

    /// Compares the current tree with the baseline. Directories and files are
    /// compared as sets of paths; each file of the current tree gets its
    /// positional delta against the baseline's bytes, or all of its bytes as
    /// updates where the baseline lacks it. Files whose bytes are equal are left
    /// out of `changed_files`.
    pub fn new(current: &Tree, baseline: &Tree) -> (r: Commit)
        ensures
            Commit::new_spec(*current, *baseline, r),
    {
        let new_dirs = paths_minus(&current.dirs, &baseline.dirs);
        let removed_dirs = paths_minus(&baseline.dirs, &current.dirs);
        let cur_paths = file_paths(&current.files);
        let base_paths = file_paths(&baseline.files);
        proof {
            lemma_dset_keys(entry_seq(current.files@));
            lemma_dset_keys(entry_seq(baseline.files@));
        }
        let new_files = paths_minus(&cur_paths, &base_paths);
        let removed_files = paths_minus(&base_paths, &cur_paths);
        let mut changed_files: Vec<(Vec<u8>, Vec<(usize, Change)>)> = Vec::new();
        let mut i: usize = 0;
        while i < current.files.len()
            invariant
                i <= current.files.len(),
                changes_view(changed_files@) == deltas(
                    entry_seq(current.files@).subrange(0, i as int),
                    baseline.file_map(),
                ),
            decreases current.files.len() - i,
        {
            assert(entry_seq(current.files@).subrange(0, i + 1).drop_last() =~= entry_seq(
                current.files@,
            ).subrange(0, i as int));
            let ghost prev = changes_view(changed_files@);
            let path = &current.files[i].0;
            let bytes = &current.files[i].1;
            match baseline.lookup(path) {
                Some(old_bytes) => {
                    let d = diff_bytes(bytes, old_bytes);
                    if d.len() > 0 {
                        changed_files.push((path.clone(), d));
                        assert(changes_view(changed_files@) =~= prev.push(
                            (path@, diff_spec(bytes@, old_bytes@)),
                        ));
                    }
                },
                None => {
                    let d = fresh_changes(bytes);
                    changed_files.push((path.clone(), d));
                    assert(changes_view(changed_files@) =~= prev.push((path@, fresh_ops(bytes@))));
                },
            }
            i = i + 1;
        }
        assert(entry_seq(current.files@).subrange(0, current.files.len() as int) =~= entry_seq(
            current.files@,
        ));
        Commit { new_dirs, removed_dirs, new_files, removed_files, changed_files }
    }
}

/// The paths listed are exactly the keys of the files.
pub proof fn lemma_dset_keys(s: Seq<(Seq<u8>, Seq<u8>)>)
    ensures
        dset(keys_of(s)) == fmap(s).dom(),
    decreases s.len(),
{
    if s.len() > 0 {
        lemma_dset_keys(s.drop_last());
        assert(keys_of(s).drop_last() =~= keys_of(s.drop_last()));
        assert(dset(keys_of(s)) =~= fmap(s).dom());
    } else {
        assert(dset(keys_of(s)) =~= fmap(s).dom());
    }
}

} // verus!
