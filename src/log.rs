//! The text of a commit entry: its payloads as the log stores them.

use vstd::prelude::*;
use crate::change::Change;
use crate::commit::{Commit, changes_view};
use crate::hexname::{hex_text, encode_name};
use crate::text::{dec, join_lines, push_decimal};
use crate::tree::path_seq;

verus! {

pub const ADD: u8 = 0x2b;

pub const REMOVE: u8 = 0x2d;

pub const SPACE: u8 = 0x20;

pub const NEWLINE: u8 = 0x0a;

/// The payloads of one commit entry.
pub struct Entry {
    /// Directory mutations: `+ path` creates, `- path` removes with contents.
    pub dirs: Option<Vec<u8>>,
    /// New and removed files, `+ path` and `- path`; not read on replay.
    pub files: Option<Vec<u8>>,
    /// Files to delete on replay, one path per line.
    pub removed_files: Option<Vec<u8>>,
    /// One `(hex of path, operations)` per changed file.
    pub changes: Vec<(String, Vec<u8>)>,
}

/// `op path`.
pub open spec fn op_line(op: u8, p: Seq<u8>) -> Seq<u8> {
    seq![op, SPACE] + p
}

pub open spec fn op_lines(op: u8, ps: Seq<Seq<u8>>) -> Seq<Seq<u8>> {
    ps.map_values(|p: Seq<u8>| op_line(op, p))
}

/// `index byte` for an update, `- index` for a delete.
pub open spec fn change_line(c: (usize, Change)) -> Seq<u8> {
    match c.1 {
        Change::Update(b) => dec(c.0 as nat) + seq![SPACE] + dec(b as nat),
        Change::Delete => seq![REMOVE, SPACE] + dec(c.0 as nat),
    }
}

pub open spec fn change_lines(ops: Seq<(usize, Change)>) -> Seq<Seq<u8>> {
    ops.map_values(|c: (usize, Change)| change_line(c))
}

/// The body of a change file.
pub open spec fn change_body(ops: Seq<(usize, Change)>) -> Seq<u8> {
    join_lines(change_lines(ops))
}

/// The lines of a `-` list followed by those of a `+` list.
pub open spec fn mutation_body(removed: Seq<Seq<u8>>, added: Seq<Seq<u8>>) -> Seq<u8> {
    join_lines(op_lines(REMOVE, removed) + op_lines(ADD, added))
}

pub proof fn lemma_join_append(a: Seq<Seq<u8>>, b: Seq<Seq<u8>>)
    ensures
        join_lines(a + b) == join_lines(a) + join_lines(b),
    decreases b.len(),
{
    if b.len() == 0 {
        assert(a + b =~= a);
        assert(join_lines(a) + join_lines(b) =~= join_lines(a));
    } else {
        lemma_join_append(a, b.drop_last());
        assert((a + b).drop_last() =~= a + b.drop_last());
        assert(join_lines(a + b) =~= join_lines(a) + join_lines(b));
    }
}

/// Appends `bytes`.
fn push_all(out: &mut Vec<u8>, bytes: &Vec<u8>)
    ensures
        final(out)@ == old(out)@ + bytes@,
{
    let mut i: usize = 0;
    while i < bytes.len()
        invariant
            i <= bytes.len(),
            out@ == old(out)@ + bytes@.subrange(0, i as int),
        decreases bytes.len() - i,
    {
        out.push(bytes[i]);
        i = i + 1;
        assert(out@ =~= old(out)@ + bytes@.subrange(0, i as int));
    }
    assert(bytes@.subrange(0, i as int) =~= bytes@);
}

/// Appends one line `op path` for each path.
fn push_op_lines(out: &mut Vec<u8>, op: u8, ps: &Vec<Vec<u8>>)
    ensures
        final(out)@ == old(out)@ + join_lines(op_lines(op, path_seq(ps@))),
{
    let mut i: usize = 0;
    while i < ps.len()
        invariant
            i <= ps.len(),
            out@ == old(out)@ + join_lines(op_lines(op, path_seq(ps@).subrange(0, i as int))),
        decreases ps.len() - i,
    {
        let ghost before = out@;
        out.push(op);
        out.push(SPACE);
        push_all(out, &ps[i]);
        out.push(NEWLINE);
        assert(op_lines(op, path_seq(ps@).subrange(0, i + 1)).drop_last() =~= op_lines(
            op,
            path_seq(ps@).subrange(0, i as int),
        ));
        i = i + 1;
        assert(out@ =~= old(out)@ + join_lines(op_lines(op, path_seq(ps@).subrange(0, i as int))));
    }
    assert(path_seq(ps@).subrange(0, i as int) =~= path_seq(ps@));
}

/// One line per path.
fn plain_lines(ps: &Vec<Vec<u8>>) -> (r: Vec<u8>)
    ensures
        r@ == join_lines(path_seq(ps@)),
{
    let mut out: Vec<u8> = Vec::new();
    let mut i: usize = 0;
    while i < ps.len()
        invariant
            i <= ps.len(),
            out@ == join_lines(path_seq(ps@).subrange(0, i as int)),
        decreases ps.len() - i,
    {
        push_all(&mut out, &ps[i]);
        out.push(NEWLINE);
        assert(path_seq(ps@).subrange(0, i + 1).drop_last() =~= path_seq(ps@).subrange(
            0,
            i as int,
        ));
        i = i + 1;
        assert(out@ =~= join_lines(path_seq(ps@).subrange(0, i as int)));
    }
    assert(path_seq(ps@).subrange(0, i as int) =~= path_seq(ps@));
    out
}

/// The `-` lines, then the `+` lines.
fn mutation_lines(removed: &Vec<Vec<u8>>, added: &Vec<Vec<u8>>) -> (r: Vec<u8>)
    ensures
        r@ == mutation_body(path_seq(removed@), path_seq(added@)),
{
    let mut out: Vec<u8> = Vec::new();
    push_op_lines(&mut out, REMOVE, removed);
    push_op_lines(&mut out, ADD, added);
    proof {
        lemma_join_append(op_lines(REMOVE, path_seq(removed@)), op_lines(ADD, path_seq(added@)));
        assert(op_lines(REMOVE, path_seq(removed@)) + op_lines(ADD, path_seq(added@)) =~= op_lines(
            REMOVE,
            path_seq(removed@),
        ) + op_lines(ADD, path_seq(added@)));
    }
    assert(out@ =~= mutation_body(path_seq(removed@), path_seq(added@)));
    out
}

/// The body of a change file: one line per operation.
pub fn write_changes(ops: &Vec<(usize, Change)>) -> (r: Vec<u8>)
    ensures
        r@ == change_body(ops@),
{
    let mut out: Vec<u8> = Vec::new();
    let mut i: usize = 0;
    while i < ops.len()
        invariant
            i <= ops.len(),
            out@ == join_lines(change_lines(ops@.subrange(0, i as int))),
        decreases ops.len() - i,
    {
        let ghost before = out@;
        let (idx, c) = ops[i];
        match c {
            Change::Update(b) => {
                push_decimal(&mut out, idx);
                out.push(SPACE);
                push_decimal(&mut out, b as usize);
            },
            Change::Delete => {
                out.push(REMOVE);
                out.push(SPACE);
                push_decimal(&mut out, idx);
            },
        }
        out.push(NEWLINE);
        assert(out@ =~= before + change_line(ops@[i as int]) + seq![NEWLINE]);
        assert(change_lines(ops@.subrange(0, i + 1)).drop_last() =~= change_lines(
            ops@.subrange(0, i as int),
        ));
        i = i + 1;
    }
    assert(ops@.subrange(0, i as int) =~= ops@);
    out
}

impl Commit {
    /// `r` holds the payloads of the log entry for this record.
    pub open spec fn entry_spec(self, r: Entry) -> bool {
        (r.dirs.is_some() == (self.removed_dirs.len() > 0 || self.new_dirs.len() > 0))
        && (r.dirs.is_some() ==> r.dirs.unwrap()@ == mutation_body(
                path_seq(self.removed_dirs@),
                path_seq(self.new_dirs@),
            ))
        && (r.files.is_some() == (self.removed_files.len() > 0 || self.new_files.len() > 0))
        && (r.files.is_some() ==> r.files.unwrap()@ == mutation_body(
                path_seq(self.removed_files@),
                path_seq(self.new_files@),
            ))
        && (r.removed_files.is_some() == (self.removed_files.len() > 0))
        && (r.removed_files.is_some() ==> r.removed_files.unwrap()@ == join_lines(
                path_seq(self.removed_files@),
            ))
        && (r.changes.len() == self.changed_files.len())
        && (forall|i: int|
                0 <= i < r.changes.len() ==> (#[trigger] r.changes@[i]).0@ == hex_text(
                    changes_view(self.changed_files@)[i].0,
                ) && r.changes@[i].1@ == change_body(changes_view(self.changed_files@)[i].1))
    }

    /// The payloads of the log entry for this record. A payload is written only
    /// where its fields are not all empty; each changed file gets a change file
    /// named by the hex text of its path.
    pub fn to_entry(&self) -> (r: Entry)
        ensures
            self.entry_spec(r),
    {
        let dirs = if self.removed_dirs.len() > 0 || self.new_dirs.len() > 0 {
            Some(mutation_lines(&self.removed_dirs, &self.new_dirs))
        } else {
            None
        };
        let files = if self.removed_files.len() > 0 || self.new_files.len() > 0 {
            Some(mutation_lines(&self.removed_files, &self.new_files))
        } else {
            None
        };
        let removed_files = if self.removed_files.len() > 0 {
            Some(plain_lines(&self.removed_files))
        } else {
            None
        };
        let mut changes: Vec<(String, Vec<u8>)> = Vec::new();
        let mut i: usize = 0;
        while i < self.changed_files.len()
            invariant
                i <= self.changed_files.len(),
                changes.len() == i,
                forall|j: int|
                    0 <= j < i ==> (#[trigger] changes@[j]).0@ == hex_text(
                        changes_view(self.changed_files@)[j].0,
                    ) && changes@[j].1@ == change_body(changes_view(self.changed_files@)[j].1),
            decreases self.changed_files.len() - i,
        {
            let name = encode_name(&self.changed_files[i].0);
            let body = write_changes(&self.changed_files[i].1);
            changes.push((name, body));
            i = i + 1;
        }
        Entry { dirs, files, removed_files, changes }
    }
}

} // verus!
