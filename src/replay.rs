//! Replaying log entries over a tree: directory mutations, then file
//! removals, then per-file changes.

use vstd::prelude::*;
use crate::change::{Change, patch, apply_changes};
use crate::hexname::{is_hex_text, unhex, decode_name};
use crate::log::{Entry, ADD, REMOVE, SPACE};
use crate::text::{lines, parse_dec, parse_decimal, split_lines, bytes_seq};
use crate::tree::{Tree, under};

verus! {

/// Why a log entry could not be replayed.
#[derive(Clone, Copy, Debug, PartialEq, Eq, Structural)]
pub enum ReplayError {
    /// A line of a payload is not in the payload's format.
    Malformed,
    /// A change file's name is not hex text.
    BadName,
    /// A directory to be created exists already.
    DirExists,
    /// An entry's name is not a decimal number.
    BadEntryName,
}

/// The error of a result, if it is one.
pub open spec fn error_of<T>(r: Result<T, ReplayError>) -> Option<ReplayError> {
    match r {
        Ok(_) => None,
        Err(e) => Some(e),
    }
}

/// The directories and files of a tree.
pub type State = (Set<Seq<u8>>, Map<Seq<u8>, Seq<u8>>);

pub open spec fn state_of(t: Tree) -> State {
    (t.dir_set(), t.file_map())
}

/// Index of the first space of `l` at or after `i`, or its length.
pub open spec fn space_at(l: Seq<u8>, i: int) -> int
    decreases l.len() - i,
{
    if i >= l.len() {
        l.len() as int
    } else if l[i] == SPACE {
        i
    } else {
        space_at(l, i + 1)
    }
}

/// `+ path` (true) or `- path` (false).
pub open spec fn parse_dir_line(l: Seq<u8>) -> Option<(bool, Seq<u8>)> {
    if l.len() >= 2 && l[1] == SPACE && (l[0] == ADD || l[0] == REMOVE) {
        Some((l[0] == ADD, l.subrange(2, l.len() as int)))
    } else {
        None
    }
}

/// `- index` is a delete; `index byte` an update.
pub open spec fn parse_change_line(l: Seq<u8>) -> Option<(usize, Change)> {
    let k = space_at(l, 0);
    if k >= l.len() {
        None
    } else if k == 1 && l[0] == REMOVE {
        match parse_dec(l.subrange(2, l.len() as int), usize::MAX as nat) {
            Some(i) => Some((i as usize, Change::Delete)),
            None => None,
        }
    } else {
        match (
            parse_dec(l.subrange(0, k), usize::MAX as nat),
            parse_dec(l.subrange(k + 1, l.len() as int), 255),
        ) {
            (Some(i), Some(b)) => Some((i as usize, Change::Update(b as u8))),
            _ => None,
        }
    }
}

/// For a file that does not exist yet, a line gives the byte after its
/// first space, whatever comes before.
pub open spec fn parse_fresh_line(l: Seq<u8>) -> Option<u8> {
    let k = space_at(l, 0);
    if k >= l.len() {
        None
    } else {
        match parse_dec(l.subrange(k + 1, l.len() as int), 255) {
            Some(b) => Some(b as u8),
            None => None,
        }
    }
}

pub open spec fn parse_ops(ls: Seq<Seq<u8>>) -> Option<Seq<(usize, Change)>>
    decreases ls.len(),
{
    if ls.len() == 0 {
        Some(seq![])
    } else {
        match (parse_ops(ls.drop_last()), parse_change_line(ls.last())) {
            (Some(ops), Some(c)) => Some(ops.push(c)),
            _ => None,
        }
    }
}

pub open spec fn parse_fresh(ls: Seq<Seq<u8>>) -> Option<Seq<u8>>
    decreases ls.len(),
{
    if ls.len() == 0 {
        Some(seq![])
    } else {
        match (parse_fresh(ls.drop_last()), parse_fresh_line(ls.last())) {
            (Some(bs), Some(b)) => Some(bs.push(b)),
            _ => None,
        }
    }
}

/// One directory mutation.
pub open spec fn dir_step(st: State, l: Seq<u8>) -> Result<State, ReplayError> {
    match parse_dir_line(l) {
        None => Err(ReplayError::Malformed),
        Some((add, p)) => if add {
            if st.0.contains(p) {
                Err(ReplayError::DirExists)
            } else {
                Ok((st.0.insert(p), st.1))
            }
        } else {
            Ok(
                (
                    st.0.filter(|q: Seq<u8>| !under(q, p)),
                    st.1.restrict(st.1.dom().filter(|q: Seq<u8>| !under(q, p))),
                ),
            )
        },
    }
}

pub open spec fn dir_steps(st: State, ls: Seq<Seq<u8>>) -> Result<State, ReplayError>
    decreases ls.len(),
{
    if ls.len() == 0 {
        Ok(st)
    } else {
        match dir_steps(st, ls.drop_last()) {
            Ok(s) => dir_step(s, ls.last()),
            Err(e) => Err(e),
        }
    }
}

pub open spec fn remove_steps(files: Map<Seq<u8>, Seq<u8>>, ls: Seq<Seq<u8>>) -> Map<
    Seq<u8>,
    Seq<u8>,
>
    decreases ls.len(),
{
    if ls.len() == 0 {
        files
    } else {
        remove_steps(files, ls.drop_last()).remove(ls.last())
    }
}

/// One change file: patch the file if it exists, else create it.
pub open spec fn change_step(files: Map<Seq<u8>, Seq<u8>>, name: Seq<char>, body: Seq<u8>) -> Result<
    Map<Seq<u8>, Seq<u8>>,
    ReplayError,
> {
    if !is_hex_text(name) {
        Err(ReplayError::BadName)
    } else {
        let p = unhex(name);
        if files.contains_key(p) {
            match parse_ops(lines(body)) {
                Some(ops) => Ok(files.insert(p, patch(files[p], ops))),
                None => Err(ReplayError::Malformed),
            }
        } else {
            match parse_fresh(lines(body)) {
                Some(bs) => Ok(files.insert(p, bs)),
                None => Err(ReplayError::Malformed),
            }
        }
    }
}

pub open spec fn changes_seq(v: Seq<(String, Vec<u8>)>) -> Seq<(Seq<char>, Seq<u8>)> {
    v.map_values(|c: (String, Vec<u8>)| (c.0@, c.1@))
}

pub open spec fn change_steps(
    files: Map<Seq<u8>, Seq<u8>>,
    cs: Seq<(Seq<char>, Seq<u8>)>,
) -> Result<Map<Seq<u8>, Seq<u8>>, ReplayError>
    decreases cs.len(),
{
    if cs.len() == 0 {
        Ok(files)
    } else {
        match change_steps(files, cs.drop_last()) {
            Ok(f) => change_step(f, cs.last().0, cs.last().1),
            Err(e) => Err(e),
        }
    }
}

/// One log entry replayed over a state.
pub open spec fn entry_step(st: State, e: Entry) -> Result<State, ReplayError> {
    let after_dirs = match e.dirs {
        Some(b) => dir_steps(st, lines(b@)),
        None => Ok(st),
    };
    match after_dirs {
        Err(err) => Err(err),
        Ok(s1) => {
            let files = match e.removed_files {
                Some(b) => remove_steps(s1.1, lines(b@)),
                None => s1.1,
            };
            match change_steps(files, changes_seq(e.changes@)) {
                Ok(f) => Ok((s1.0, f)),
                Err(err) => Err(err),
            }
        },
    }
}

/// Index of the first space of `l`, or its length.
fn find_space(l: &Vec<u8>) -> (r: usize)
    ensures
        r as int == space_at(l@, 0),
{
    let mut i: usize = 0;
    while i < l.len()
        invariant
            i <= l.len(),
            space_at(l@, i as int) == space_at(l@, 0),
        decreases l.len() - i,
    {
        if l[i] == SPACE {
            return i;
        }
        i = i + 1;
    }
    i
}

/// Reads one line of a change file.
pub fn read_change_line(l: &Vec<u8>) -> (r: Option<(usize, Change)>)
    ensures
        r == parse_change_line(l@),
{
    let k = find_space(l);
    if k >= l.len() {
        None
    } else if k == 1 && l[0] == REMOVE {
        match parse_decimal(l, 2, l.len(), usize::MAX as u128) {
            Some(i) => Some((i as usize, Change::Delete)),
            None => None,
        }
    } else {
        let i = parse_decimal(l, 0, k, usize::MAX as u128);
        let b = parse_decimal(l, k + 1, l.len(), 255);
        match (i, b) {
            (Some(i), Some(b)) => Some((i as usize, Change::Update(b as u8))),
            _ => None,
        }
    }
}

/// Reads the byte of one line of a change file for a new file.
pub fn read_fresh_line(l: &Vec<u8>) -> (r: Option<u8>)
    ensures
        r == parse_fresh_line(l@),
{
    let k = find_space(l);
    if k >= l.len() {
        None
    } else {
        match parse_decimal(l, k + 1, l.len(), 255) {
            Some(b) => Some(b as u8),
            None => None,
        }
    }
}

/// Reads the operations of a change file.
pub fn read_ops(body: &Vec<u8>) -> (r: Option<Vec<(usize, Change)>>)
    ensures
        r.is_some() == parse_ops(lines(body@)).is_some(),
        r.is_some() ==> r.unwrap()@ == parse_ops(lines(body@)).unwrap(),
{
    let ls = split_lines(body);
    let ghost lv = lines(body@);
    let mut ops: Vec<(usize, Change)> = Vec::new();
    let mut i: usize = 0;
    while i < ls.len()
        invariant
            i <= ls.len(),
            lv == lines(body@),
            bytes_seq(ls@) == lv,
            parse_ops(lv.subrange(0, i as int)) == Some(ops@),
        decreases ls.len() - i,
    {
        assert(lv.subrange(0, i + 1).drop_last() =~= lv.subrange(0, i as int));
        assert(ls@[i as int]@ == lv[i as int]);
        assert(lv.subrange(0, i + 1).last() == lv[i as int]);
        match read_change_line(&ls[i]) {
            Some(c) => ops.push(c),
            None => {
                proof {
                    lemma_parse_ops_prefix(lv, i as int + 1);
                }
                return None;
            },
        }
        i = i + 1;
    }
    assert(lv.subrange(0, i as int) =~= lv);
    Some(ops)
}

/// Reads the bytes of a change file for a new file.
pub fn read_fresh(body: &Vec<u8>) -> (r: Option<Vec<u8>>)
    ensures
        r.is_some() == parse_fresh(lines(body@)).is_some(),
        r.is_some() ==> r.unwrap()@ == parse_fresh(lines(body@)).unwrap(),
{
    let ls = split_lines(body);
    let ghost lv = lines(body@);
    let mut bs: Vec<u8> = Vec::new();
    let mut i: usize = 0;
    while i < ls.len()
        invariant
            i <= ls.len(),
            lv == lines(body@),
            bytes_seq(ls@) == lv,
            parse_fresh(lv.subrange(0, i as int)) == Some(bs@),
        decreases ls.len() - i,
    {
        assert(lv.subrange(0, i + 1).drop_last() =~= lv.subrange(0, i as int));
        assert(ls@[i as int]@ == lv[i as int]);
        assert(lv.subrange(0, i + 1).last() == lv[i as int]);
        match read_fresh_line(&ls[i]) {
            Some(b) => bs.push(b),
            None => {
                proof {
                    lemma_parse_fresh_prefix(lv, i as int + 1);
                }
                return None;
            },
        }
        i = i + 1;
    }
    assert(lv.subrange(0, i as int) =~= lv);
    Some(bs)
}

proof fn lemma_parse_ops_prefix(ls: Seq<Seq<u8>>, k: int)
    requires
        0 <= k <= ls.len(),
        parse_ops(ls.subrange(0, k)).is_none(),
    ensures
        parse_ops(ls).is_none(),
    decreases ls.len(),
{
    if k < ls.len() {
        assert(ls.drop_last().subrange(0, k) =~= ls.subrange(0, k));
        lemma_parse_ops_prefix(ls.drop_last(), k);
    } else {
        assert(ls.subrange(0, k) =~= ls);
    }
}

proof fn lemma_parse_fresh_prefix(ls: Seq<Seq<u8>>, k: int)
    requires
        0 <= k <= ls.len(),
        parse_fresh(ls.subrange(0, k)).is_none(),
    ensures
        parse_fresh(ls).is_none(),
    decreases ls.len(),
{
    if k < ls.len() {
        assert(ls.drop_last().subrange(0, k) =~= ls.subrange(0, k));
        lemma_parse_fresh_prefix(ls.drop_last(), k);
    } else {
        assert(ls.subrange(0, k) =~= ls);
    }
}

/// Applies a directory-mutation payload.
fn apply_dirs(t: &mut Tree, body: &Vec<u8>) -> (r: Result<(), ReplayError>)
    ensures
        error_of(r) == error_of(dir_steps(state_of(*old(t)), lines(body@))),
        r.is_ok() ==> state_of(*final(t)) == dir_steps(state_of(*old(t)), lines(body@)).unwrap(),
{
    let ls = split_lines(body);
    let ghost lv = lines(body@);
    let ghost st0 = state_of(*t);
    let mut i: usize = 0;
    while i < ls.len()
        invariant
            i <= ls.len(),
            lv == lines(body@),
            st0 == state_of(*old(t)),
            bytes_seq(ls@) == lv,
            dir_steps(st0, lv.subrange(0, i as int)) == Ok::<State, ReplayError>(state_of(*t)),
        decreases ls.len() - i,
    {
        assert(lv.subrange(0, i + 1).drop_last() =~= lv.subrange(0, i as int));
        assert(ls@[i as int]@ == lv[i as int]);
        assert(lv.subrange(0, i + 1).last() == lv[i as int]);
        let l = &ls[i];
        let ghost before = state_of(*t);
        if l.len() >= 2 && l[1] == SPACE && (l[0] == ADD || l[0] == REMOVE) {
            let mut p: Vec<u8> = Vec::new();
            let mut j: usize = 2;
            while j < l.len()
                invariant
                    2 <= j <= l.len(),
                    p@ == l@.subrange(2, j as int),
                decreases l.len() - j,
            {
                p.push(l[j]);
                j = j + 1;
                assert(p@ =~= l@.subrange(2, j as int));
            }
            if l[0] == ADD {
                if t.has_dir(&p) {
                    proof {
                        lemma_dir_steps_err(st0, lv, i as int + 1);
                    }
                    return Err(ReplayError::DirExists);
                }
                t.add_dir(p);
            } else {
                t.remove_tree(&p);
            }
            assert(state_of(*t) =~= dir_step(before, lv[i as int]).unwrap());
        } else {
            proof {
                lemma_dir_steps_err(st0, lv, i as int + 1);
            }
            return Err(ReplayError::Malformed);
        }
        i = i + 1;
    }
    assert(lv.subrange(0, i as int) =~= lv);
    Ok(())
}

proof fn lemma_dir_steps_err(st: State, ls: Seq<Seq<u8>>, k: int)
    requires
        0 <= k <= ls.len(),
        dir_steps(st, ls.subrange(0, k)).is_err(),
    ensures
        dir_steps(st, ls) == dir_steps(st, ls.subrange(0, k)),
    decreases ls.len(),
{
    if k < ls.len() {
        assert(ls.drop_last().subrange(0, k) =~= ls.subrange(0, k));
        lemma_dir_steps_err(st, ls.drop_last(), k);
    } else {
        assert(ls.subrange(0, k) =~= ls);
    }
}

/// Applies a removed-files payload.
fn apply_removals(t: &mut Tree, body: &Vec<u8>)
    ensures
        final(t).dir_set() == old(t).dir_set(),
        final(t).file_map() == remove_steps(old(t).file_map(), lines(body@)),
{
    let ls = split_lines(body);
    let ghost lv = lines(body@);
    let mut i: usize = 0;
    while i < ls.len()
        invariant
            i <= ls.len(),
            lv == lines(body@),
            bytes_seq(ls@) == lv,
            t.dir_set() == old(t).dir_set(),
            t.file_map() == remove_steps(old(t).file_map(), lv.subrange(0, i as int)),
        decreases ls.len() - i,
    {
        assert(lv.subrange(0, i + 1).drop_last() =~= lv.subrange(0, i as int));
        assert(ls@[i as int]@ == lv[i as int]);
        t.remove_file(&ls[i]);
        i = i + 1;
    }
    assert(lv.subrange(0, i as int) =~= lv);
}

/// Applies one change file.
fn apply_change_file(t: &mut Tree, name: &String, body: &Vec<u8>) -> (r: Result<(), ReplayError>)
    ensures
        error_of(r) == error_of(change_step(old(t).file_map(), name@, body@)),
        final(t).dir_set() == old(t).dir_set(),
        r.is_ok() ==> final(t).file_map() == change_step(old(t).file_map(), name@, body@).unwrap(),
{
    let p = match decode_name(name.as_str()) {
        Ok(p) => p,
        Err(_) => {
            return Err(ReplayError::BadName);
        },
    };
    let bytes = match t.lookup(&p) {
        Some(old_bytes) => match read_ops(body) {
            Some(ops) => apply_changes(old_bytes, &ops),
            None => {
                return Err(ReplayError::Malformed);
            },
        },
        None => match read_fresh(body) {
            Some(bs) => bs,
            None => {
                return Err(ReplayError::Malformed);
            },
        },
    };
    t.write_file(p, bytes);
    Ok(())
}

/// Replays one log entry over the tree: directory mutations, then removed
/// files, then change files. On an error the tree is left part-way.
pub fn apply_entry(t: &mut Tree, e: &Entry) -> (r: Result<(), ReplayError>)
    ensures
        error_of(r) == error_of(entry_step(state_of(*old(t)), *e)),
        r.is_ok() ==> state_of(*final(t)) == entry_step(state_of(*old(t)), *e).unwrap(),
{
    match &e.dirs {
        Some(b) => {
            let res = apply_dirs(t, b);
            if res.is_err() {
                return res;
            }
        },
        None => {},
    }
    match &e.removed_files {
        Some(b) => apply_removals(t, b),
        None => {},
    }
    let ghost f0 = t.file_map();
    let ghost d0 = t.dir_set();
    let ghost cs = changes_seq(e.changes@);
    let ghost pre = state_of(*old(t));
    assert(entry_step(pre, *e) == match change_steps(f0, cs) {
        Ok(f) => Ok::<State, ReplayError>((d0, f)),
        Err(err) => Err(err),
    });
    let mut i: usize = 0;
    while i < e.changes.len()
        invariant
            i <= e.changes.len(),
            pre == state_of(*old(t)),
            entry_step(pre, *e) == match change_steps(f0, cs) {
                Ok(f) => Ok::<State, ReplayError>((d0, f)),
                Err(err) => Err(err),
            },
            cs == changes_seq(e.changes@),
            t.dir_set() == d0,
            change_steps(f0, cs.subrange(0, i as int)) == Ok::<Map<Seq<u8>, Seq<u8>>, ReplayError>(
                t.file_map(),
            ),
        decreases e.changes.len() - i,
    {
        assert(cs.subrange(0, i + 1).drop_last() =~= cs.subrange(0, i as int));
        assert(cs.subrange(0, i + 1).last() == cs[i as int]);
        let res = apply_change_file(t, &e.changes[i].0, &e.changes[i].1);
        if res.is_err() {
            proof {
                lemma_change_steps_err(f0, cs, i as int + 1);
            }
            return res;
        }
        i = i + 1;
    }
    assert(cs.subrange(0, i as int) =~= cs);
    Ok(())
}

proof fn lemma_change_steps_err(f: Map<Seq<u8>, Seq<u8>>, cs: Seq<(Seq<char>, Seq<u8>)>, k: int)
    requires
        0 <= k <= cs.len(),
        change_steps(f, cs.subrange(0, k)).is_err(),
    ensures
        change_steps(f, cs) == change_steps(f, cs.subrange(0, k)),
    decreases cs.len(),
{
    if k < cs.len() {
        assert(cs.drop_last().subrange(0, k) =~= cs.subrange(0, k));
        lemma_change_steps_err(f, cs.drop_last(), k);
    } else {
        assert(cs.subrange(0, k) =~= cs);
    }
}

/// A log entry as stored: its name and its payloads.
pub struct LogEntry {
    /// The entry's name: a decimal timestamp.
    pub name: Vec<u8>,
    pub entry: Entry,
}

/// The numeric value of an entry's name, if it is one.
pub open spec fn entry_key(name: Seq<u8>) -> Option<nat> {
    parse_dec(name, u128::MAX as nat)
}

pub open spec fn keys_ok(log: Seq<LogEntry>) -> bool {
    forall|i: int| 0 <= i < log.len() ==> (#[trigger] entry_key(log[i].name@)).is_some()
}

/// Each entry's key, beside its place in the log.
pub open spec fn keyed(log: Seq<LogEntry>) -> Seq<(u128, usize)> {
    Seq::new(log.len(), |i: int| (entry_key(log[i].name@).unwrap() as u128, i as usize))
}

/// Where `k` goes among `s`: before the first larger key at or after `i`.
pub open spec fn insert_pos(s: Seq<(u128, usize)>, k: u128, i: int) -> int
    decreases s.len() - i,
{
    if i >= s.len() {
        s.len() as int
    } else if s[i].0 > k {
        i
    } else {
        insert_pos(s, k, i + 1)
    }
}

/// Insertion sort by key; equal keys keep their order.
pub open spec fn sort_keys(s: Seq<(u128, usize)>) -> Seq<(u128, usize)>
    decreases s.len(),
{
    if s.len() == 0 {
        seq![]
    } else {
        let r = sort_keys(s.drop_last());
        r.insert(insert_pos(r, s.last().0, 0), s.last())
    }
}

/// The order in which the log is replayed.
pub open spec fn replay_order(log: Seq<LogEntry>) -> Seq<(u128, usize)> {
    sort_keys(keyed(log))
}

/// The entries at the places `ord` names, replayed in that order.
pub open spec fn replay_in(st: State, log: Seq<LogEntry>, ord: Seq<(u128, usize)>) -> Result<
    State,
    ReplayError,
>
    decreases ord.len(),
{
    if ord.len() == 0 {
        Ok(st)
    } else {
        match replay_in(st, log, ord.drop_last()) {
            Ok(s) => entry_step(s, log[ord.last().1 as int].entry),
            Err(e) => Err(e),
        }
    }
}

/// The whole log replayed over the snapshot, in ascending order of name.
pub open spec fn reconstruct_spec(st: State, log: Seq<LogEntry>) -> Result<State, ReplayError> {
    if !keys_ok(log) {
        Err(ReplayError::BadEntryName)
    } else {
        replay_in(st, log, replay_order(log))
    }
}

/// Sorts `(key, place)` pairs by key.
pub fn sort_by_key(s: &Vec<(u128, usize)>) -> (r: Vec<(u128, usize)>)
    ensures
        r@ == sort_keys(s@),
{
    let mut r: Vec<(u128, usize)> = Vec::new();
    let mut i: usize = 0;
    while i < s.len()
        invariant
            i <= s.len(),
            r@ == sort_keys(s@.subrange(0, i as int)),
        decreases s.len() - i,
    {
        assert(s@.subrange(0, i + 1).drop_last() =~= s@.subrange(0, i as int));
        let x = s[i];
        let mut j: usize = 0;
        while j < r.len() && r[j].0 <= x.0
            invariant
                j <= r.len(),
                insert_pos(r@, x.0, j as int) == insert_pos(r@, x.0, 0),
            decreases r.len() - j,
        {
            j = j + 1;
        }
        r.insert(j, x);
        i = i + 1;
    }
    assert(s@.subrange(0, s.len() as int) =~= s@);
    r
}

/// Rebuilds the baseline: the snapshot with every log entry replayed over it
/// in ascending numeric order of the entries' names.
pub fn reconstruct(snapshot: Tree, log: &Vec<LogEntry>) -> (r: Result<Tree, ReplayError>)
    ensures
        error_of(r) == error_of(reconstruct_spec(state_of(snapshot), log@)),
        r.is_ok() ==> state_of(r.unwrap()) == reconstruct_spec(state_of(snapshot), log@).unwrap(),
{
    let mut keys: Vec<(u128, usize)> = Vec::new();
    let mut i: usize = 0;
    while i < log.len()
        invariant
            i <= log.len(),
            keys@ == keyed(log@).subrange(0, i as int),
            forall|j: int| 0 <= j < i ==> (#[trigger] entry_key(log@[j].name@)).is_some(),
        decreases log.len() - i,
    {
        let name = &log[i].name;
        match parse_decimal(name, 0, name.len(), u128::MAX) {
            Some(k) => {
                keys.push((k, i));
                assert(name@.subrange(0, name.len() as int) =~= name@);
            },
            None => {
                assert(name@.subrange(0, name.len() as int) =~= name@);
                assert(entry_key(log@[i as int].name@).is_none());
                assert(!keys_ok(log@));
                return Err(ReplayError::BadEntryName);
            },
        }
        i = i + 1;
        assert(keys@ =~= keyed(log@).subrange(0, i as int));
    }
    assert(keys@ =~= keyed(log@));
    let order = sort_by_key(&keys);
    proof {
        lemma_sort_places(keyed(log@), log.len() as int);
    }
    let mut t = snapshot;
    let mut k: usize = 0;
    while k < order.len()
        invariant
            k <= order.len(),
            keys_ok(log@),
            order@ == replay_order(log@),
            forall|j: int| 0 <= j < order.len() ==> (#[trigger] order@[j]).1 < log.len(),
            replay_in(state_of(snapshot), log@, order@.subrange(0, k as int)) == Ok::<
                State,
                ReplayError,
            >(state_of(t)),
        decreases order.len() - k,
    {
        assert(order@.subrange(0, k + 1).drop_last() =~= order@.subrange(0, k as int));
        assert(order@.subrange(0, k + 1).last() == order@[k as int]);
        let res = apply_entry(&mut t, &log[order[k].1].entry);
        if res.is_err() {
            proof {
                lemma_replay_in_err(state_of(snapshot), log@, order@, k as int + 1);
            }
            return Err(res.unwrap_err());
        }
        k = k + 1;
    }
    assert(order@.subrange(0, k as int) =~= order@);
    Ok(t)
}

proof fn lemma_replay_in_err(st: State, log: Seq<LogEntry>, ord: Seq<(u128, usize)>, k: int)
    requires
        0 <= k <= ord.len(),
        replay_in(st, log, ord.subrange(0, k)).is_err(),
    ensures
        replay_in(st, log, ord) == replay_in(st, log, ord.subrange(0, k)),
    decreases ord.len(),
{
    if k < ord.len() {
        assert(ord.drop_last().subrange(0, k) =~= ord.subrange(0, k));
        lemma_replay_in_err(st, log, ord.drop_last(), k);
    } else {
        assert(ord.subrange(0, k) =~= ord);
    }
}

/// Sorting keeps every place below `n`.
proof fn lemma_sort_places(s: Seq<(u128, usize)>, n: int)
    requires
        forall|j: int| 0 <= j < s.len() ==> (#[trigger] s[j]).1 < n,
    ensures
        forall|j: int| 0 <= j < sort_keys(s).len() ==> (#[trigger] sort_keys(s)[j]).1 < n,
        sort_keys(s).len() == s.len(),
    decreases s.len(),
{
    if s.len() > 0 {
        lemma_sort_places(s.drop_last(), n);
        let r = sort_keys(s.drop_last());
        lemma_insert_pos_range(r, s.last().0, 0);
    }
}

/// The insertion place lies between `i` and the end.
pub proof fn lemma_insert_pos_range(s: Seq<(u128, usize)>, k: u128, i: int)
    requires
        0 <= i <= s.len(),
    ensures
        i <= insert_pos(s, k, i) <= s.len(),
    decreases s.len() - i,
{
    if i < s.len() {
        lemma_insert_pos_range(s, k, i + 1);
    }
}

} // verus!
