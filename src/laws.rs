//! Properties that relate the writer, the reconstructor and the delta
//! computer.

use vstd::prelude::*;
use crate::change::{
    Change, diff_spec, diff_upto, diff_op, fresh_ops, slots_of, lemma_compact_prefix,
    lemma_patch_diff,
};
use crate::commit::{Commit, changes_view, deltas, keys_of, minus, lemma_dset_keys};
use crate::hexname::{hex_text, lemma_unhex_hex};
use crate::ignore::{visible, walk_spec, WalkMethod};
use crate::log::{
    ADD, REMOVE, SPACE, Entry, change_body, change_line, change_lines, mutation_body, op_line,
    op_lines,
};
use crate::replay::{
    LogEntry, ReplayError, State, change_step, change_steps, changes_seq, dir_step, dir_steps,
    entry_key, entry_step, insert_pos, keyed, keys_ok, parse_change_line, parse_dir_line,
    parse_fresh, parse_fresh_line, parse_ops, reconstruct_spec, remove_steps, replay_in,
    replay_order, sort_keys, space_at, state_of, lemma_insert_pos_range,
};
use crate::text::{dec, all_digits, is_digit, lines, no_newline, lemma_dec_value, lemma_lines_join};
use crate::tree::{Tree, dset, entry_seq, fmap, path_seq, under};

verus! {

proof fn lemma_space_at(l: Seq<u8>, j: int, k: int)
    requires
        0 <= j <= k < l.len(),
        l[k] == SPACE,
        forall|i: int| j <= i < k ==> l[i] != SPACE,
    ensures
        space_at(l, j) == k,
    decreases k - j,
{
    if j < k {
        lemma_space_at(l, j + 1, k);
    }
}

proof fn lemma_digits_no_space(s: Seq<u8>)
    requires
        all_digits(s),
    ensures
        forall|i: int| 0 <= i < s.len() ==> s[i] != SPACE && s[i] != 0x0a && s[i] != REMOVE,
{
    assert forall|i: int| 0 <= i < s.len() implies s[i] != SPACE && s[i] != 0x0a && s[i] != REMOVE by {
        assert(is_digit(s[i]));
    }
}

/// A directory line reads back as written.
pub proof fn lemma_dir_line_round_trip(op: u8, p: Seq<u8>)
    requires
        op == ADD || op == REMOVE,
    ensures
        parse_dir_line(op_line(op, p)) == Some((op == ADD, p)),
{
    assert(op_line(op, p).subrange(2, op_line(op, p).len() as int) =~= p);
}

/// A line of a change file reads back as the operation it was written from.
pub proof fn lemma_change_line_round_trip(c: (usize, Change))
    ensures
        parse_change_line(change_line(c)) == Some(c),
        no_newline(change_line(c)),
{
    let l = change_line(c);
    let di = dec(c.0 as nat);
    lemma_dec_value(c.0 as nat);
    lemma_digits_no_space(di);
    match c.1 {
        Change::Update(b) => {
            let db = dec(b as nat);
            lemma_dec_value(b as nat);
            lemma_digits_no_space(db);
            let k = di.len() as int;
            assert(l[k] == SPACE);
            assert forall|i: int| 0 <= i < k implies l[i] != SPACE by {
                assert(l[i] == di[i]);
            }
            lemma_space_at(l, 0, k);
            assert(l.subrange(0, k) =~= di);
            assert(l.subrange(k + 1, l.len() as int) =~= db);
            assert(l[0] == di[0]);
            assert forall|i: int| 0 <= i < l.len() implies #[trigger] l[i] != 0x0a by {
                if i < k {
                    assert(l[i] == di[i]);
                } else if i > k {
                    assert(l[i] == db[i - k - 1]);
                }
            }
        },
        Change::Delete => {
            assert(l[1] == SPACE);
            assert(l[0] != SPACE);
            lemma_space_at(l, 0, 1);
            assert(l.subrange(2, l.len() as int) =~= di);
            assert forall|i: int| 0 <= i < l.len() implies #[trigger] l[i] != 0x0a by {
                if i >= 2 {
                    assert(l[i] == di[i - 2]);
                }
            }
        },
    }
}

/// The operations of a change file read back as written.
pub proof fn lemma_ops_round_trip(ops: Seq<(usize, Change)>)
    ensures
        parse_ops(change_lines(ops)) == Some(ops),
        forall|i: int| 0 <= i < change_lines(ops).len() ==> no_newline(#[trigger] change_lines(ops)[i]),
    decreases ops.len(),
{
    if ops.len() > 0 {
        lemma_ops_round_trip(ops.drop_last());
        assert(change_lines(ops).drop_last() =~= change_lines(ops.drop_last()));
        lemma_change_line_round_trip(ops.last());
        assert(ops.drop_last().push(ops.last()) =~= ops);
    }
    assert forall|i: int| 0 <= i < change_lines(ops).len() implies no_newline(#[trigger] change_lines(ops)[i]) by {
        lemma_change_line_round_trip(ops[i]);
    }
}

/// The change file of a new file reads back as its bytes.
pub proof fn lemma_fresh_round_trip(b: Seq<u8>)
    requires
        b.len() <= usize::MAX,
    ensures
        parse_fresh(change_lines(fresh_ops(b))) == Some(b),
    decreases b.len(),
{
    if b.len() > 0 {
        let b1 = b.drop_last();
        lemma_fresh_round_trip(b1);
        assert(change_lines(fresh_ops(b)).drop_last() =~= change_lines(fresh_ops(b1)));
        let c = fresh_ops(b).last();
        let l = change_line(c);
        let di = dec(c.0 as nat);
        let db = dec(b.last() as nat);
        lemma_dec_value(c.0 as nat);
        lemma_digits_no_space(di);
        lemma_dec_value(b.last() as nat);
        let k = di.len() as int;
        assert(l[k] == SPACE);
        assert forall|i: int| 0 <= i < k implies l[i] != SPACE by {
            assert(l[i] == di[i]);
        }
        lemma_space_at(l, 0, k);
        assert(l.subrange(k + 1, l.len() as int) =~= db);
        assert(parse_fresh_line(l) == Some(b.last()));
        assert(b1.push(b.last()) =~= b);
    }
}

/// `q` lies outside each of `rs`.
pub open spec fn outside(q: Seq<u8>, rs: Seq<Seq<u8>>) -> bool {
    forall|i: int| 0 <= i < rs.len() ==> !under(q, #[trigger] rs[i])
}

proof fn lemma_dset_contains(s: Seq<Seq<u8>>)
    ensures
        forall|x: Seq<u8>| #[trigger] dset(s).contains(x) <==> s.contains(x),
    decreases s.len(),
{
    if s.len() > 0 {
        lemma_dset_contains(s.drop_last());
        assert forall|x: Seq<u8>| #[trigger] dset(s).contains(x) <==> s.contains(x) by {
            assert(dset(s.drop_last()).contains(x) <==> s.drop_last().contains(x));
            assert(dset(s) == dset(s.drop_last()).insert(s.last()));
            if x == s.last() {
                assert(s[s.len() - 1] == x);
            }
            if s.contains(x) && x != s.last() {
                let i = choose|i: int| 0 <= i < s.len() && s[i] == x;
                assert(s.drop_last()[i] == x);
            }
            if s.drop_last().contains(x) {
                let i = choose|i: int| 0 <= i < s.drop_last().len() && s.drop_last()[i] == x;
                assert(s[i] == x);
            }
            assert(s[s.len() - 1] == s.last());
        }
    }
}

proof fn lemma_minus(a: Seq<Seq<u8>>, b: Set<Seq<u8>>)
    ensures
        forall|x: Seq<u8>| #[trigger] minus(a, b).contains(x) <==> a.contains(x) && !b.contains(x),
        a.no_duplicates() ==> minus(a, b).no_duplicates(),
    decreases a.len(),
{
    if a.len() > 0 {
        let a1 = a.drop_last();
        lemma_minus(a1, b);
        assert forall|x: Seq<u8>| #[trigger] minus(a, b).contains(x) <==> a.contains(x) && !b.contains(x) by {
            assert(minus(a1, b).contains(x) <==> a1.contains(x) && !b.contains(x));
            if x == a.last() {
                assert(a[a.len() - 1] == x);
            }
            if a.contains(x) && x != a.last() {
                let i = choose|i: int| 0 <= i < a.len() && a[i] == x;
                assert(a1[i] == x);
            }
            if a1.contains(x) {
                let i = choose|i: int| 0 <= i < a1.len() && a1[i] == x;
                assert(a[i] == x);
            }
            if minus(a, b).contains(x) && !b.contains(a.last()) && x != a.last() {
                let m = minus(a1, b);
                let i = choose|i: int| 0 <= i < m.push(a.last()).len() && m.push(a.last())[i] == x;
                assert(m[i] == x);
            }
            if !b.contains(a.last()) && minus(a1, b).contains(x) {
                let m = minus(a1, b);
                let i = choose|i: int| 0 <= i < m.len() && m[i] == x;
                assert(m.push(a.last())[i] == x);
            }
            assert(a[a.len() - 1] == a.last());
            if !b.contains(a.last()) {
                assert(minus(a1, b).push(a.last())[minus(a1, b).len() as int] == a.last());
            }
        }
        if a.no_duplicates() {
            assert(a1.no_duplicates()) by {
                assert forall|i: int, j: int| 0 <= i < a1.len() && 0 <= j < a1.len() && i != j implies a1[i] != a1[j] by {
                    assert(a[i] != a[j]);
                }
            }
            if !b.contains(a.last()) {
                assert(!a1.contains(a.last())) by {
                    if a1.contains(a.last()) {
                        let i = choose|i: int| 0 <= i < a1.len() && a1[i] == a.last();
                        assert(a[i] == a[a.len() - 1]);
                    }
                }
                assert(!minus(a1, b).contains(a.last()));
                let m = minus(a1, b);
                assert forall|i: int, j: int| 0 <= i < m.push(a.last()).len() && 0 <= j < m.push(a.last()).len() && i != j implies m.push(a.last())[i] != m.push(a.last())[j] by {
                    if i < m.len() && j < m.len() {
                    } else if i < m.len() {
                        assert(m.contains(m[i]));
                    } else if j < m.len() {
                        assert(m.contains(m[j]));
                    }
                }
            }
        }
    }
}

proof fn lemma_dir_steps_append(st: State, x: Seq<Seq<u8>>, y: Seq<Seq<u8>>)
    ensures
        dir_steps(st, x + y) == match dir_steps(st, x) {
            Ok(s) => dir_steps(s, y),
            Err(e) => Err(e),
        },
    decreases y.len(),
{
    if y.len() == 0 {
        assert(x + y =~= x);
    } else {
        lemma_dir_steps_append(st, x, y.drop_last());
        assert((x + y).drop_last() =~= x + y.drop_last());
        assert((x + y).last() == y.last());
    }
}

proof fn lemma_remove_dirs(st: State, rs: Seq<Seq<u8>>)
    ensures
        dir_steps(st, op_lines(REMOVE, rs)) == Ok::<State, crate::replay::ReplayError>(
            (
                st.0.filter(|q: Seq<u8>| outside(q, rs)),
                st.1.restrict(st.1.dom().filter(|q: Seq<u8>| outside(q, rs))),
            ),
        ),
    decreases rs.len(),
{
    if rs.len() == 0 {
        assert(st.0.filter(|q: Seq<u8>| outside(q, rs)) =~= st.0);
        assert(st.1.restrict(st.1.dom().filter(|q: Seq<u8>| outside(q, rs))) =~= st.1);
    } else {
        let r1 = rs.drop_last();
        lemma_remove_dirs(st, r1);
        assert(op_lines(REMOVE, rs).drop_last() =~= op_lines(REMOVE, r1));
        lemma_dir_line_round_trip(REMOVE, rs.last());
        assert(op_lines(REMOVE, rs).last() == op_line(REMOVE, rs.last()));
        assert forall|q: Seq<u8>| outside(q, rs) <==> outside(q, r1) && !under(q, rs.last()) by {
            if outside(q, r1) && !under(q, rs.last()) {
                assert forall|i: int| 0 <= i < rs.len() implies !under(q, #[trigger] rs[i]) by {
                    if i < r1.len() {
                        assert(rs[i] == r1[i]);
                    }
                }
            }
            if outside(q, rs) {
                assert(!under(q, rs[rs.len() - 1]));
                assert forall|i: int| 0 <= i < r1.len() implies !under(q, #[trigger] r1[i]) by {
                    assert(rs[i] == r1[i]);
                }
            }
        }
        let s1 = (
            st.0.filter(|q: Seq<u8>| outside(q, r1)),
            st.1.restrict(st.1.dom().filter(|q: Seq<u8>| outside(q, r1))),
        );
        let s2 = dir_step(s1, op_line(REMOVE, rs.last())).unwrap();
        assert(s2.0 =~= st.0.filter(|q: Seq<u8>| outside(q, rs)));
        assert(s2.1 =~= st.1.restrict(st.1.dom().filter(|q: Seq<u8>| outside(q, rs))));
    }
}

proof fn lemma_add_dirs(st: State, xs: Seq<Seq<u8>>)
    requires
        xs.no_duplicates(),
        forall|i: int| 0 <= i < xs.len() ==> !st.0.contains(#[trigger] xs[i]),
    ensures
        dir_steps(st, op_lines(ADD, xs)) == Ok::<State, crate::replay::ReplayError>(
            (st.0.union(dset(xs)), st.1),
        ),
    decreases xs.len(),
{
    if xs.len() == 0 {
        assert(st.0.union(dset(xs)) =~= st.0);
    } else {
        let x1 = xs.drop_last();
        assert forall|i: int, j: int| 0 <= i < x1.len() && 0 <= j < x1.len() && i != j implies x1[i] != x1[j] by {
            assert(xs[i] != xs[j]);
        }
        assert forall|i: int| 0 <= i < x1.len() implies !st.0.contains(#[trigger] x1[i]) by {
            assert(xs[i] == x1[i]);
        }
        lemma_add_dirs(st, x1);
        assert(op_lines(ADD, xs).drop_last() =~= op_lines(ADD, x1));
        lemma_dir_line_round_trip(ADD, xs.last());
        assert(op_lines(ADD, xs).last() == op_line(ADD, xs.last()));
        lemma_dset_contains(x1);
        assert(!x1.contains(xs.last())) by {
            if x1.contains(xs.last()) {
                let i = choose|i: int| 0 <= i < x1.len() && x1[i] == xs.last();
                assert(xs[i] == xs[xs.len() - 1]);
            }
        }
        assert(!st.0.contains(xs[xs.len() - 1]));
        assert(st.0.union(dset(x1)).insert(xs.last()) =~= st.0.union(dset(xs)));
    }
}

/// The change files written for the given deltas.
pub open spec fn change_files_of(ds: Seq<(Seq<u8>, Seq<(usize, Change)>)>) -> Seq<(Seq<char>, Seq<u8>)> {
    ds.map_values(|d: (Seq<u8>, Seq<(usize, Change)>)| (hex_text(d.0), change_body(d.1)))
}

proof fn lemma_remove_steps(f: Map<Seq<u8>, Seq<u8>>, ls: Seq<Seq<u8>>)
    ensures
        remove_steps(f, ls) == f.remove_keys(dset(ls)),
    decreases ls.len(),
{
    if ls.len() == 0 {
        assert(f.remove_keys(dset(ls)) =~= f);
    } else {
        lemma_remove_steps(f, ls.drop_last());
        assert(remove_steps(f, ls) =~= f.remove_keys(dset(ls)));
    }
}

/// Equal bytes have an empty delta, and only they.
proof fn lemma_empty_diff(cur: Seq<u8>, base: Seq<u8>)
    requires
        cur.len() <= usize::MAX,
        base.len() <= usize::MAX,
        diff_spec(cur, base).len() == 0,
    ensures
        cur == base,
{
    lemma_patch_diff(cur, base);
    assert(diff_spec(cur, base) =~= Seq::<(usize, Change)>::empty());
    lemma_compact_prefix(base, base.len());
    assert(Seq::new(base.len(), |j: int| if j < base.len() { Some(base[j]) } else { None }) =~= slots_of(base));
}

proof fn lemma_changes_phase(
    f2: Map<Seq<u8>, Seq<u8>>,
    fb: Map<Seq<u8>, Seq<u8>>,
    cur: Seq<(Seq<u8>, Seq<u8>)>,
)
    requires
        keys_of(cur).no_duplicates(),
        forall|p: Seq<u8>| #[trigger] f2.contains_key(p) ==> fb.contains_key(p) && f2[p] == fb[p],
        forall|i: int| 0 <= i < cur.len() && fb.contains_key(#[trigger] cur[i].0) ==> f2.contains_key(cur[i].0),
        forall|i: int| 0 <= i < cur.len() ==> (#[trigger] cur[i]).1.len() <= usize::MAX,
        forall|p: Seq<u8>| #[trigger] fb.contains_key(p) ==> fb[p].len() <= usize::MAX,
    ensures
        change_steps(f2, change_files_of(deltas(cur, fb))) == Ok::<Map<Seq<u8>, Seq<u8>>, ReplayError>(
            f2.union_prefer_right(fmap(cur)),
        ),
    decreases cur.len(),
{
    if cur.len() == 0 {
        assert(f2.union_prefer_right(fmap(cur)) =~= f2);
    } else {
        let c1 = cur.drop_last();
        let e = cur.last();
        assert(keys_of(c1) =~= keys_of(cur).drop_last());
        assert forall|i: int, j: int| 0 <= i < keys_of(c1).len() && 0 <= j < keys_of(c1).len() && i != j implies keys_of(c1)[i] != keys_of(c1)[j] by {
            assert(keys_of(cur)[i] != keys_of(cur)[j]);
        }
        assert forall|i: int| 0 <= i < c1.len() && fb.contains_key(#[trigger] c1[i].0) implies f2.contains_key(c1[i].0) by {
            assert(cur[i] == c1[i]);
        }
        assert forall|i: int| 0 <= i < c1.len() implies (#[trigger] c1[i]).1.len() <= usize::MAX by {
            assert(cur[i] == c1[i]);
        }
        lemma_changes_phase(f2, fb, c1);
        let m = f2.union_prefer_right(fmap(c1));
        lemma_dset_keys(c1);
        lemma_dset_contains(keys_of(c1));
        assert(!fmap(c1).contains_key(e.0)) by {
            if keys_of(c1).contains(e.0) {
                let i = choose|i: int| 0 <= i < keys_of(c1).len() && keys_of(c1)[i] == e.0;
                assert(keys_of(cur)[i] == keys_of(cur)[cur.len() - 1]);
            }
        }
        assert(cur[cur.len() - 1] == e);
        assert(fmap(cur) == fmap(c1).insert(e.0, e.1));
        let target = f2.union_prefer_right(fmap(cur));
        assert(target =~= m.insert(e.0, e.1));
        let ds1 = deltas(c1, fb);
        lemma_unhex_hex(e.0);
        if fb.contains_key(e.0) {
            assert(f2.contains_key(e.0));
            assert(m[e.0] == fb[e.0]);
            let d = diff_spec(e.1, fb[e.0]);
            if d.len() == 0 {
                lemma_empty_diff(e.1, fb[e.0]);
                assert(deltas(cur, fb) == ds1);
                assert(target =~= m);
            } else {
                assert(deltas(cur, fb) == ds1.push((e.0, d)));
                assert(change_files_of(deltas(cur, fb)).drop_last() =~= change_files_of(ds1));
                lemma_ops_round_trip(d);
                lemma_lines_join(change_lines(d));
                lemma_patch_diff(e.1, fb[e.0]);
                assert(change_step(m, hex_text(e.0), change_body(d)) == Ok::<Map<Seq<u8>, Seq<u8>>, ReplayError>(m.insert(e.0, e.1)));
            }
        } else {
            assert(!f2.contains_key(e.0));
            assert(!m.contains_key(e.0));
            let d = fresh_ops(e.1);
            assert(deltas(cur, fb) == ds1.push((e.0, d)));
            assert(change_files_of(deltas(cur, fb)).drop_last() =~= change_files_of(ds1));
            lemma_ops_round_trip(d);
            lemma_lines_join(change_lines(d));
            lemma_fresh_round_trip(e.1);
            assert(change_step(m, hex_text(e.0), change_body(d)) == Ok::<Map<Seq<u8>, Seq<u8>>, ReplayError>(m.insert(e.0, e.1)));
        }
    }
}

/// Each proper ancestor of `p` (its text before a `/`) is among `dirs`.
pub open spec fn ancestors_listed(dirs: Set<Seq<u8>>, p: Seq<u8>) -> bool {
    forall|k: int| 0 <= k < p.len() && p[k] == 0x2f ==> dirs.contains(#[trigger] p.subrange(0, k))
}

/// No path is both a directory and a file, and no path holds a newline.
pub open spec fn plain_paths(t: Tree) -> bool {
    &&& forall|p: Seq<u8>| !(#[trigger] t.dir_set().contains(p) && t.file_map().contains_key(p))
    &&& forall|p: Seq<u8>| #[trigger] t.dir_set().contains(p) ==> no_newline(p)
    &&& forall|p: Seq<u8>| #[trigger] t.file_map().contains_key(p) ==> no_newline(p)
}

/// A tree as a walk of a file system lists it: plain paths, each listed once,
/// and every ancestor of a listed path listed as a directory.
pub open spec fn walked(t: Tree) -> bool {
    &&& plain_paths(t)
    &&& path_seq(t.dirs@).no_duplicates()
    &&& keys_of(entry_seq(t.files@)).no_duplicates()
    &&& forall|p: Seq<u8>| #[trigger] t.dir_set().contains(p) ==> ancestors_listed(t.dir_set(), p)
    &&& forall|p: Seq<u8>| #[trigger] t.file_map().contains_key(p) ==> ancestors_listed(t.dir_set(), p)
}

proof fn lemma_fmap_bounded(v: Seq<(Vec<u8>, Vec<u8>)>)
    ensures
        forall|p: Seq<u8>| #[trigger] fmap(entry_seq(v)).contains_key(p) ==> fmap(entry_seq(v))[p].len() <= usize::MAX,
    decreases v.len(),
{
    if v.len() > 0 {
        lemma_fmap_bounded(v.drop_last());
        assert(entry_seq(v).drop_last() =~= entry_seq(v.drop_last()));
        assert(entry_seq(v).last() == (v.last().0@, v.last().1@));
        assert(v.last().1@.len() == v.last().1.len());
        assert(fmap(entry_seq(v)) == fmap(entry_seq(v.drop_last())).insert(v.last().0@, v.last().1@));
    }
}

/// A path of the walked tree lies outside every directory that it lacks and
/// that is no file of the tree.
proof fn lemma_outside_removed(dw: Set<Seq<u8>>, q: Seq<u8>, rs: Seq<Seq<u8>>)
    requires
        ancestors_listed(dw, q),
        forall|i: int| 0 <= i < rs.len() ==> !dw.contains(#[trigger] rs[i]) && rs[i] != q,
    ensures
        outside(q, rs),
{
    assert forall|i: int| 0 <= i < rs.len() implies !under(q, #[trigger] rs[i]) by {
        let r = rs[i];
        if under(q, r) && q != r {
            assert(q.subrange(0, r.len() as int) == r);
            assert(dw.contains(q.subrange(0, r.len() as int)));
        }
    }
}

/// The files left after the removed directories go.
pub open spec fn files_after_dirs(baseline: Tree, c: Commit) -> Map<Seq<u8>, Seq<u8>> {
    baseline.file_map().restrict(
        baseline.file_map().dom().filter(|q: Seq<u8>| outside(q, path_seq(c.removed_dirs@))),
    )
}

proof fn lemma_dirs_phase(current: Tree, baseline: Tree, c: Commit, e: Entry)
    requires
        walked(current),
        plain_paths(baseline),
        Commit::new_spec(current, baseline, c),
        c.entry_spec(e),
    ensures
        match e.dirs {
            Some(b) => dir_steps(state_of(baseline), lines(b@)),
            None => Ok(state_of(baseline)),
        } == Ok::<State, ReplayError>((current.dir_set(), files_after_dirs(baseline, c))),
{
    let db = baseline.dir_set();
    let fb = baseline.file_map();
    let dw = current.dir_set();
    let rd = path_seq(c.removed_dirs@);
    let ad = path_seq(c.new_dirs@);
    lemma_minus(path_seq(baseline.dirs@), dw);
    lemma_minus(path_seq(current.dirs@), db);
    lemma_dset_contains(path_seq(baseline.dirs@));
    lemma_dset_contains(path_seq(current.dirs@));
    lemma_dset_contains(ad);
    assert forall|i: int| 0 <= i < rd.len() implies !dw.contains(#[trigger] rd[i]) && db.contains(rd[i]) by {
        assert(rd.contains(rd[i]));
    }
    assert forall|i: int| 0 <= i < ad.len() implies !db.contains(#[trigger] ad[i]) && dw.contains(ad[i]) by {
        assert(ad.contains(ad[i]));
    }
    let d1 = db.filter(|q: Seq<u8>| outside(q, rd));
    let f1 = files_after_dirs(baseline, c);
    lemma_remove_dirs((db, fb), rd);
    assert forall|i: int| 0 <= i < ad.len() implies !d1.contains(#[trigger] ad[i]) by {}
    lemma_add_dirs((d1, f1), ad);
    let ls = op_lines(REMOVE, rd) + op_lines(ADD, ad);
    if e.dirs.is_some() {
        assert forall|i: int| 0 <= i < ls.len() implies no_newline(#[trigger] ls[i]) by {
            let p = if i < rd.len() { rd[i] } else { ad[i - rd.len()] };
            if i < rd.len() {
                assert(db.contains(rd[i]));
            } else {
                assert(dw.contains(ad[i - rd.len()]));
            }
            assert(ls[i] == seq![if i < rd.len() { REMOVE } else { ADD }, SPACE] + p);
            assert forall|j: int| 0 <= j < ls[i].len() implies #[trigger] ls[i][j] != 0x0a by {
                if j >= 2 {
                    assert(ls[i][j] == p[j - 2]);
                }
            }
        }
        lemma_lines_join(ls);
        assert(e.dirs.unwrap()@ == mutation_body(rd, ad));
        lemma_dir_steps_append((db, fb), op_lines(REMOVE, rd), op_lines(ADD, ad));
    } else {
        assert(rd.len() == 0 && ad.len() == 0);
        assert(d1 =~= db);
        assert(f1 =~= fb);
        assert(d1.union(dset(ad)) =~= db);
    }
    assert forall|q: Seq<u8>| d1.union(dset(ad)).contains(q) <==> #[trigger] dw.contains(q) by {
        if dw.contains(q) && db.contains(q) {
            lemma_outside_removed(dw, q, rd);
        }
        if db.contains(q) && !dw.contains(q) {
            assert(rd.contains(q));
            let i = choose|i: int| 0 <= i < rd.len() && rd[i] == q;
            assert(under(q, rd[i]));
        }
    }
    assert(d1.union(dset(ad)) =~= dw);
}

proof fn lemma_files_phase(current: Tree, baseline: Tree, c: Commit)
    requires
        walked(current),
        plain_paths(baseline),
        Commit::new_spec(current, baseline, c),
    ensures
        forall|p: Seq<u8>| #[trigger] files_after_dirs(baseline, c).remove_keys(dset(path_seq(c.removed_files@))).contains_key(p)
            ==> baseline.file_map().contains_key(p)
                && files_after_dirs(baseline, c)[p] == baseline.file_map()[p]
                && current.file_map().contains_key(p),
        forall|i: int| 0 <= i < entry_seq(current.files@).len() && baseline.file_map().contains_key(#[trigger] entry_seq(current.files@)[i].0)
            ==> files_after_dirs(baseline, c).remove_keys(dset(path_seq(c.removed_files@))).contains_key(entry_seq(current.files@)[i].0),
{
    let db = baseline.dir_set();
    let fb = baseline.file_map();
    let dw = current.dir_set();
    let fw = current.file_map();
    let rd = path_seq(c.removed_dirs@);
    let rf = path_seq(c.removed_files@);
    let f2 = files_after_dirs(baseline, c).remove_keys(dset(rf));
    lemma_minus(path_seq(baseline.dirs@), dw);
    lemma_minus(keys_of(entry_seq(baseline.files@)), fw.dom());
    lemma_dset_contains(path_seq(baseline.dirs@));
    lemma_dset_contains(keys_of(entry_seq(baseline.files@)));
    lemma_dset_contains(keys_of(entry_seq(current.files@)));
    lemma_dset_keys(entry_seq(baseline.files@));
    lemma_dset_keys(entry_seq(current.files@));
    lemma_dset_contains(rf);
    assert forall|p: Seq<u8>| #[trigger] f2.contains_key(p) implies fb.contains_key(p) && files_after_dirs(baseline, c)[p] == fb[p] && fw.contains_key(p) by {
        assert(!rf.contains(p));
    }
    let cur = entry_seq(current.files@);
    assert forall|i: int| 0 <= i < cur.len() && fb.contains_key(#[trigger] cur[i].0) implies f2.contains_key(cur[i].0) by {
        let k = cur[i].0;
        assert(keys_of(cur)[i] == k);
        assert(keys_of(cur).contains(k));
        assert(fw.contains_key(k));
        assert forall|j: int| 0 <= j < rd.len() implies !dw.contains(#[trigger] rd[j]) && rd[j] != k by {
            assert(rd.contains(rd[j]));
            assert(db.contains(rd[j]));
        }
        lemma_outside_removed(dw, k, rd);
        assert(!rf.contains(k));
    }
}

/// Replay fidelity for one commit: the entry written for the record that
/// compares a walked tree with a baseline, replayed over that baseline, gives
/// the walked tree's directories and files exactly.
pub proof fn lemma_replay_fidelity(current: Tree, baseline: Tree, c: Commit, e: Entry)
    requires
        walked(current),
        plain_paths(baseline),
        Commit::new_spec(current, baseline, c),
        c.entry_spec(e),
    ensures
        entry_step(state_of(baseline), e) == Ok::<State, ReplayError>(state_of(current)),
{
    let fb = baseline.file_map();
    let fw = current.file_map();
    let rf = path_seq(c.removed_files@);
    let f1 = files_after_dirs(baseline, c);
    lemma_dirs_phase(current, baseline, c, e);
    let f2 = match e.removed_files {
        Some(b) => remove_steps(f1, lines(b@)),
        None => f1,
    };
    lemma_dset_contains(keys_of(entry_seq(baseline.files@)));
    lemma_minus(keys_of(entry_seq(baseline.files@)), fw.dom());
    lemma_dset_keys(entry_seq(baseline.files@));
    if e.removed_files.is_some() {
        assert forall|i: int| 0 <= i < rf.len() implies no_newline(#[trigger] rf[i]) by {
            assert(rf.contains(rf[i]));
            assert(keys_of(entry_seq(baseline.files@)).contains(rf[i]));
            assert(dset(keys_of(entry_seq(baseline.files@))).contains(rf[i]));
            assert(fb.contains_key(rf[i]));
        }
        lemma_lines_join(rf);
        lemma_remove_steps(f1, rf);
    } else {
        assert(f1.remove_keys(dset(rf)) =~= f1);
    }
    assert(f2 == f1.remove_keys(dset(rf)));
    lemma_files_phase(current, baseline, c);
    let cur = entry_seq(current.files@);
    assert forall|i: int| 0 <= i < cur.len() implies (#[trigger] cur[i]).1.len() <= usize::MAX by {
        assert(current.files@[i].1@.len() == current.files@[i].1.len());
    }
    lemma_fmap_bounded(baseline.files@);
    assert forall|p: Seq<u8>| #[trigger] f2.contains_key(p) implies fb.contains_key(p) && f2[p] == fb[p] by {}
    lemma_changes_phase(f2, fb, cur);
    assert(changes_seq(e.changes@) =~= change_files_of(deltas(cur, fb)));
    assert(f2.union_prefer_right(fw) =~= fw);
}

proof fn lemma_insert_pos_end(s: Seq<(u128, usize)>, k: u128, i: int)
    requires
        0 <= i <= s.len(),
        forall|j: int| i <= j < s.len() ==> (#[trigger] s[j]).0 < k,
    ensures
        insert_pos(s, k, i) == s.len(),
    decreases s.len() - i,
{
    if i < s.len() {
        lemma_insert_pos_end(s, k, i + 1);
    }
}

/// Sorting keeps keys below a bound, and places below a bound.
proof fn lemma_sort_bounds(s: Seq<(u128, usize)>, k: u128, n: usize)
    requires
        forall|j: int| 0 <= j < s.len() ==> (#[trigger] s[j]).0 < k && s[j].1 < n,
    ensures
        sort_keys(s).len() == s.len(),
        forall|j: int| 0 <= j < sort_keys(s).len() ==> (#[trigger] sort_keys(s)[j]).0 < k && sort_keys(s)[j].1 < n,
    decreases s.len(),
{
    if s.len() > 0 {
        lemma_sort_bounds(s.drop_last(), k, n);
        let r = sort_keys(s.drop_last());
        lemma_insert_pos_range(r, s.last().0, 0);
        assert(s[s.len() - 1] == s.last());
        let q = insert_pos(r, s.last().0, 0);
        assert forall|j: int| 0 <= j < sort_keys(s).len() implies (#[trigger] sort_keys(s)[j]).0 < k && sort_keys(s)[j].1 < n by {
            if j < q {
                assert(sort_keys(s)[j] == r[j]);
            } else if j > q {
                assert(sort_keys(s)[j] == r[j - 1]);
            }
        }
    }
}

proof fn lemma_replay_in_prefix(st: State, log: Seq<LogEntry>, x: LogEntry, ord: Seq<(u128, usize)>)
    requires
        forall|j: int| 0 <= j < ord.len() ==> (#[trigger] ord[j]).1 < log.len(),
    ensures
        replay_in(st, log.push(x), ord) == replay_in(st, log, ord),
    decreases ord.len(),
{
    if ord.len() > 0 {
        assert forall|j: int| 0 <= j < ord.drop_last().len() implies (#[trigger] ord.drop_last()[j]).1 < log.len() by {
            assert(ord[j] == ord.drop_last()[j]);
        }
        lemma_replay_in_prefix(st, log, x, ord.drop_last());
        assert(ord[ord.len() - 1] == ord.last());
        assert(log.push(x)[ord.last().1 as int] == log[ord.last().1 as int]);
    }
}

/// An entry whose name is larger than every name in the log is replayed last.
pub proof fn lemma_replay_append(st: State, log: Seq<LogEntry>, x: LogEntry)
    requires
        log.len() < usize::MAX,
        entry_key(x.name@).is_some(),
        forall|i: int| 0 <= i < log.len() ==> #[trigger] entry_key(log[i].name@).is_some()
            && entry_key(log[i].name@).unwrap() < entry_key(x.name@).unwrap(),
    ensures
        reconstruct_spec(st, log.push(x)) == match reconstruct_spec(st, log) {
            Ok(s) => entry_step(s, x.entry),
            Err(e) => Err(e),
        },
{
    let l2 = log.push(x);
    assert forall|i: int| 0 <= i < l2.len() implies (#[trigger] entry_key(l2[i].name@)).is_some() by {
        if i < log.len() {
            assert(l2[i] == log[i]);
        }
    }
    assert(keys_ok(log));
    let k = entry_key(x.name@).unwrap() as u128;
    assert(keyed(l2).drop_last() =~= keyed(log));
    assert forall|j: int| 0 <= j < keyed(log).len() implies (#[trigger] keyed(log)[j]).0 < k && keyed(log)[j].1 < log.len() by {
        assert(entry_key(log[j].name@).unwrap() < entry_key(x.name@).unwrap());
    }
    lemma_sort_bounds(keyed(log), k, log.len() as usize);
    let r = sort_keys(keyed(log));
    assert(keyed(l2).last() == (k, log.len() as usize));
    lemma_insert_pos_end(r, k, 0);
    assert(r.insert(r.len() as int, (k, log.len() as usize)) =~= r.push((k, log.len() as usize)));
    assert(replay_order(l2) == r.push((k, log.len() as usize)));
    assert(replay_order(l2).drop_last() =~= r);
    lemma_replay_in_prefix(st, log, x, r);
    assert(l2[log.len() as int] == x);
}

/// Replay fidelity over the log: when the baseline is what the log rebuilds,
/// adding the entry written for a walked tree under a name larger than every
/// other makes the log rebuild that tree exactly.
pub proof fn lemma_log_fidelity(
    snapshot: State,
    log: Seq<LogEntry>,
    current: Tree,
    baseline: Tree,
    c: Commit,
    x: LogEntry,
)
    requires
        log.len() < usize::MAX,
        reconstruct_spec(snapshot, log) == Ok::<State, ReplayError>(state_of(baseline)),
        walked(current),
        plain_paths(baseline),
        Commit::new_spec(current, baseline, c),
        c.entry_spec(x.entry),
        entry_key(x.name@).is_some(),
        forall|i: int| 0 <= i < log.len() ==> #[trigger] entry_key(log[i].name@).is_some()
            && entry_key(log[i].name@).unwrap() < entry_key(x.name@).unwrap(),
    ensures
        reconstruct_spec(snapshot, log.push(x)) == Ok::<State, ReplayError>(state_of(current)),
{
    lemma_replay_append(snapshot, log, x);
    lemma_replay_fidelity(current, baseline, c, x.entry);
}

/// Keys strictly increase along `s`.
pub open spec fn increasing(s: Seq<(u128, usize)>) -> bool {
    forall|i: int, j: int| 0 <= i < j < s.len() ==> (#[trigger] s[i]).0 < (#[trigger] s[j]).0
}

/// Keys never decrease along `s`.
pub open spec fn nondecreasing(s: Seq<(u128, usize)>) -> bool {
    forall|i: int, j: int| 0 <= i < j < s.len() ==> (#[trigger] s[i]).0 <= (#[trigger] s[j]).0
}

/// No two entries of the log have names of equal value.
pub open spec fn distinct_keys(log: Seq<LogEntry>) -> bool {
    forall|i: int, j: int|
        0 <= i < log.len() && 0 <= j < log.len() && i != j ==> #[trigger] entry_key(log[i].name@)
            != #[trigger] entry_key(log[j].name@)
}

proof fn lemma_insert_pos_split(r: Seq<(u128, usize)>, k: u128, i: int)
    requires
        0 <= i <= r.len(),
        forall|j: int| 0 <= j < i ==> (#[trigger] r[j]).0 <= k,
    ensures
        forall|j: int| 0 <= j < insert_pos(r, k, i) ==> (#[trigger] r[j]).0 <= k,
        insert_pos(r, k, i) < r.len() ==> r[insert_pos(r, k, i)].0 > k,
    decreases r.len() - i,
{
    if i < r.len() && r[i].0 <= k {
        lemma_insert_pos_split(r, k, i + 1);
    }
}

proof fn lemma_sort_props(s: Seq<(u128, usize)>)
    requires
        s.no_duplicates(),
    ensures
        sort_keys(s).len() == s.len(),
        sort_keys(s).no_duplicates(),
        nondecreasing(sort_keys(s)),
        forall|x: (u128, usize)| #[trigger] sort_keys(s).contains(x) <==> s.contains(x),
    decreases s.len(),
{
    if s.len() > 0 {
        let s1 = s.drop_last();
        let x = s.last();
        assert forall|i: int, j: int| 0 <= i < s1.len() && 0 <= j < s1.len() && i != j implies s1[i] != s1[j] by {
            assert(s[i] != s[j]);
        }
        lemma_sort_props(s1);
        let r = sort_keys(s1);
        lemma_insert_pos_range(r, x.0, 0);
        lemma_insert_pos_split(r, x.0, 0);
        let q = insert_pos(r, x.0, 0);
        let t = r.insert(q, x);
        assert(sort_keys(s) == t);
        assert(!s1.contains(x)) by {
            if s1.contains(x) {
                let i = choose|i: int| 0 <= i < s1.len() && s1[i] == x;
                assert(s[i] == s[s.len() - 1]);
            }
        }
        assert forall|y: (u128, usize)| #[trigger] t.contains(y) <==> s.contains(y) by {
            assert(r.contains(y) <==> s1.contains(y));
            if t.contains(y) {
                let i = choose|i: int| 0 <= i < t.len() && t[i] == y;
                if i < q {
                    assert(r[i] == y);
                } else if i > q {
                    assert(r[i - 1] == y);
                }
            }
            if s.contains(y) {
                let i = choose|i: int| 0 <= i < s.len() && s[i] == y;
                if i < s.len() - 1 {
                    assert(s1[i] == y);
                    let j = choose|j: int| 0 <= j < r.len() && r[j] == y;
                    if j < q {
                        assert(t[j] == y);
                    } else {
                        assert(t[j + 1] == y);
                    }
                } else {
                    assert(t[q] == y);
                }
            }
            if s1.contains(y) && !t.contains(y) {
                let j = choose|j: int| 0 <= j < r.len() && r[j] == y;
                if j < q {
                    assert(t[j] == y);
                } else {
                    assert(t[j + 1] == y);
                }
            }
            assert(s[s.len() - 1] == x);
            if y == x {
                assert(t[q] == y);
            }
        }
        assert forall|i: int, j: int| 0 <= i < j < t.len() implies (#[trigger] t[i]).0 <= (#[trigger] t[j]).0 by {
            if j < q {
            } else if i < q && j == q {
            } else if i < q {
                assert(r[i].0 <= r[j - 1].0);
            } else if i == q {
                assert(r[q].0 <= r[j - 1].0);
            } else {
                assert(r[i - 1].0 <= r[j - 1].0);
            }
        }
        assert forall|i: int, j: int| 0 <= i < t.len() && 0 <= j < t.len() && i != j implies t[i] != t[j] by {
            if i != q && j != q {
                let ii = if i < q { i } else { i - 1 };
                let jj = if j < q { j } else { j - 1 };
                assert(t[i] == r[ii] && t[j] == r[jj]);
            } else if i == q {
                let jj = if j < q { j } else { j - 1 };
                assert(t[j] == r[jj]);
                assert(r.contains(r[jj]));
            } else {
                let ii = if i < q { i } else { i - 1 };
                assert(t[i] == r[ii]);
                assert(r.contains(r[ii]));
            }
        }
    }
}

proof fn lemma_increasing_unique(a: Seq<(u128, usize)>, b: Seq<(u128, usize)>)
    requires
        increasing(a),
        increasing(b),
        forall|x: (u128, usize)| #[trigger] a.contains(x) <==> b.contains(x),
    ensures
        a == b,
    decreases a.len() + b.len(),
{
    if a.len() == 0 || b.len() == 0 {
        if a.len() > 0 {
            assert(a.contains(a[0]));
            assert(b.contains(a[0]));
        }
        if b.len() > 0 {
            assert(b.contains(b[0]));
            assert(a.contains(b[0]));
        }
        assert(a =~= b);
    } else {
        let la = a.last();
        let lb = b.last();
        assert(a[a.len() - 1] == la && b[b.len() - 1] == lb);
        assert(a.contains(la));
        assert(b.contains(la));
        assert(b.contains(lb));
        assert(a.contains(lb));
        let ia = choose|i: int| 0 <= i < a.len() && a[i] == lb;
        let ib = choose|i: int| 0 <= i < b.len() && b[i] == la;
        if ib < b.len() - 1 {
            assert(b[ib].0 < b[b.len() - 1].0);
        }
        if ia < a.len() - 1 {
            assert(a[ia].0 < a[a.len() - 1].0);
        }
        assert(la == lb);
        let a1 = a.drop_last();
        let b1 = b.drop_last();
        assert forall|x: (u128, usize)| #[trigger] a1.contains(x) <==> b1.contains(x) by {
            if a1.contains(x) {
                let i = choose|i: int| 0 <= i < a1.len() && a1[i] == x;
                assert(a[i] == x);
                assert(a[i].0 < a[a.len() - 1].0);
                assert(a.contains(x));
                assert(b.contains(x));
                let j = choose|j: int| 0 <= j < b.len() && b[j] == x;
                assert(j != b.len() - 1);
                assert(b1[j] == x);
            }
            if b1.contains(x) {
                let i = choose|i: int| 0 <= i < b1.len() && b1[i] == x;
                assert(b[i] == x);
                assert(b[i].0 < b[b.len() - 1].0);
                assert(b.contains(x));
                assert(a.contains(x));
                let j = choose|j: int| 0 <= j < a.len() && a[j] == x;
                assert(j != a.len() - 1);
                assert(a1[j] == x);
            }
        }
        lemma_increasing_unique(a1, b1);
        assert(a =~= a1.push(la));
        assert(b =~= b1.push(lb));
    }
}

/// The replay order is the entries sorted by the value of their names: where
/// no two names have equal value, keys strictly increase along it and it holds
/// each entry of the log once.
pub proof fn lemma_replay_order(log: Seq<LogEntry>)
    requires
        log.len() <= usize::MAX,
        keys_ok(log),
        distinct_keys(log),
    ensures
        increasing(replay_order(log)),
        replay_order(log).len() == log.len(),
        forall|x: (u128, usize)| #[trigger] replay_order(log).contains(x) <==> keyed(log).contains(x),
{
    let k = keyed(log);
    assert forall|i: int, j: int| 0 <= i < k.len() && 0 <= j < k.len() && i != j implies k[i] != k[j] by {}
    lemma_sort_props(k);
    let r = replay_order(log);
    assert forall|i: int, j: int| 0 <= i < j < r.len() implies (#[trigger] r[i]).0 < (#[trigger] r[j]).0 by {
        assert(r[i].0 <= r[j].0);
        assert(r.contains(r[i]) && r.contains(r[j]));
        assert(k.contains(r[i]) && k.contains(r[j]));
        let a = choose|a: int| 0 <= a < k.len() && k[a] == r[i];
        let b = choose|b: int| 0 <= b < k.len() && k[b] == r[j];
        if r[i].0 == r[j].0 {
            assert(entry_key(log[a].name@).unwrap() == entry_key(log[b].name@).unwrap());
            assert(a == b);
        }
    }
}

/// Reconstruction is the same for every replay order in which the values of
/// the names strictly increase: such an order is the one the reconstructor uses.
pub proof fn lemma_order_respected(st: State, log: Seq<LogEntry>, ord: Seq<(u128, usize)>)
    requires
        log.len() <= usize::MAX,
        keys_ok(log),
        distinct_keys(log),
        increasing(ord),
        forall|x: (u128, usize)| #[trigger] ord.contains(x) <==> keyed(log).contains(x),
    ensures
        replay_in(st, log, ord) == reconstruct_spec(st, log),
{
    lemma_replay_order(log);
    lemma_increasing_unique(ord, replay_order(log));
}

/// Every path of the tree is visible under the ignore set.
pub open spec fn all_visible(t: Tree, ign: Set<Seq<u8>>) -> bool {
    &&& forall|p: Seq<u8>| #[trigger] t.dir_set().contains(p) ==> visible(p, ign)
    &&& forall|p: Seq<u8>| #[trigger] t.file_map().contains_key(p) ==> visible(p, ign)
}

/// The walk reports only visible paths.
pub proof fn lemma_walk_visible(listing: Seq<(Seq<u8>, bool)>, ign: Set<Seq<u8>>, m: WalkMethod)
    ensures
        forall|i: int| 0 <= i < walk_spec(listing, ign, m).len() ==> visible(#[trigger] walk_spec(listing, ign, m)[i], ign),
    decreases listing.len(),
{
    if listing.len() > 0 {
        lemma_walk_visible(listing.drop_last(), ign, m);
        let prev = walk_spec(listing.drop_last(), ign, m);
        assert forall|i: int| 0 <= i < walk_spec(listing, ign, m).len() implies visible(#[trigger] walk_spec(listing, ign, m)[i], ign) by {
            if i < prev.len() {
                assert(walk_spec(listing, ign, m)[i] == prev[i]);
            }
        }
    }
}

proof fn lemma_deltas_keys(cur: Seq<(Seq<u8>, Seq<u8>)>, fb: Map<Seq<u8>, Seq<u8>>)
    ensures
        forall|i: int| 0 <= i < deltas(cur, fb).len() ==> keys_of(cur).contains(#[trigger] deltas(cur, fb)[i].0),
    decreases cur.len(),
{
    if cur.len() > 0 {
        let c1 = cur.drop_last();
        lemma_deltas_keys(c1, fb);
        let prev = deltas(c1, fb);
        assert forall|i: int| 0 <= i < deltas(cur, fb).len() implies keys_of(cur).contains(#[trigger] deltas(cur, fb)[i].0) by {
            if i < prev.len() {
                assert(deltas(cur, fb)[i] == prev[i]);
                let j = choose|j: int| 0 <= j < keys_of(c1).len() && keys_of(c1)[j] == prev[i].0;
                assert(keys_of(cur)[j] == keys_of(c1)[j]);
            } else {
                assert(keys_of(cur)[cur.len() - 1] == cur.last().0);
            }
        }
    }
}

/// Every path of every field of the record is visible.
pub open spec fn record_visible(c: Commit, ign: Set<Seq<u8>>) -> bool {
    &&& forall|i: int| 0 <= i < c.new_dirs.len() ==> visible(#[trigger] c.new_dirs@[i]@, ign)
    &&& forall|i: int| 0 <= i < c.removed_dirs.len() ==> visible(#[trigger] c.removed_dirs@[i]@, ign)
    &&& forall|i: int| 0 <= i < c.new_files.len() ==> visible(#[trigger] c.new_files@[i]@, ign)
    &&& forall|i: int| 0 <= i < c.removed_files.len() ==> visible(#[trigger] c.removed_files@[i]@, ign)
    &&& forall|i: int| 0 <= i < c.changed_files.len() ==> visible(#[trigger] c.changed_files@[i].0@, ign)
}

/// No ignored path reaches a commit record: where neither tree holds one,
/// every path of every field of the record is visible.
pub proof fn lemma_ignore_honored(current: Tree, baseline: Tree, c: Commit, ign: Set<Seq<u8>>)
    requires
        all_visible(current, ign),
        all_visible(baseline, ign),
        Commit::new_spec(current, baseline, c),
    ensures
        record_visible(c, ign),
{
    lemma_minus(path_seq(current.dirs@), baseline.dir_set());
    lemma_minus(path_seq(baseline.dirs@), current.dir_set());
    lemma_minus(keys_of(entry_seq(current.files@)), baseline.file_map().dom());
    lemma_minus(keys_of(entry_seq(baseline.files@)), current.file_map().dom());
    lemma_dset_contains(path_seq(current.dirs@));
    lemma_dset_contains(path_seq(baseline.dirs@));
    lemma_dset_contains(keys_of(entry_seq(current.files@)));
    lemma_dset_contains(keys_of(entry_seq(baseline.files@)));
    lemma_dset_keys(entry_seq(current.files@));
    lemma_dset_keys(entry_seq(baseline.files@));
    lemma_deltas_keys(entry_seq(current.files@), baseline.file_map());
    assert forall|i: int| 0 <= i < c.new_dirs.len() implies visible(#[trigger] c.new_dirs@[i]@, ign) by {
        assert(path_seq(c.new_dirs@)[i] == c.new_dirs@[i]@);
        assert(path_seq(c.new_dirs@).contains(c.new_dirs@[i]@));
        assert(current.dir_set().contains(c.new_dirs@[i]@));
    }
    assert forall|i: int| 0 <= i < c.removed_dirs.len() implies visible(#[trigger] c.removed_dirs@[i]@, ign) by {
        assert(path_seq(c.removed_dirs@)[i] == c.removed_dirs@[i]@);
        assert(path_seq(c.removed_dirs@).contains(c.removed_dirs@[i]@));
        assert(baseline.dir_set().contains(c.removed_dirs@[i]@));
    }
    assert forall|i: int| 0 <= i < c.new_files.len() implies visible(#[trigger] c.new_files@[i]@, ign) by {
        assert(path_seq(c.new_files@)[i] == c.new_files@[i]@);
        assert(path_seq(c.new_files@).contains(c.new_files@[i]@));
        assert(current.file_map().contains_key(c.new_files@[i]@));
    }
    assert forall|i: int| 0 <= i < c.removed_files.len() implies visible(#[trigger] c.removed_files@[i]@, ign) by {
        assert(path_seq(c.removed_files@)[i] == c.removed_files@[i]@);
        assert(path_seq(c.removed_files@).contains(c.removed_files@[i]@));
        assert(baseline.file_map().contains_key(c.removed_files@[i]@));
    }
    assert forall|i: int| 0 <= i < c.changed_files.len() implies visible(#[trigger] c.changed_files@[i].0@, ign) by {
        assert(changes_view(c.changed_files@)[i].0 == c.changed_files@[i].0@);
        assert(keys_of(entry_seq(current.files@)).contains(c.changed_files@[i].0@));
        assert(current.file_map().contains_key(c.changed_files@[i].0@));
    }
}

proof fn lemma_diff_self(x: Seq<u8>, n: nat)
    requires
        n <= x.len(),
    ensures
        diff_upto(x, x, n).len() == 0,
    decreases n,
{
    if n > 0 {
        lemma_diff_self(x, (n - 1) as nat);
        assert(diff_op(x, x, n - 1) is None);
    }
}

proof fn lemma_fmap_entry(s: Seq<(Seq<u8>, Seq<u8>)>, i: int)
    requires
        keys_of(s).no_duplicates(),
        0 <= i < s.len(),
    ensures
        fmap(s).contains_key(s[i].0),
        fmap(s)[s[i].0] == s[i].1,
    decreases s.len(),
{
    let s1 = s.drop_last();
    if i < s.len() - 1 {
        assert(keys_of(s1) =~= keys_of(s).drop_last());
        assert forall|a: int, b: int| 0 <= a < keys_of(s1).len() && 0 <= b < keys_of(s1).len() && a != b implies keys_of(s1)[a] != keys_of(s1)[b] by {
            assert(keys_of(s)[a] != keys_of(s)[b]);
        }
        lemma_fmap_entry(s1, i);
        assert(keys_of(s)[i] != keys_of(s)[s.len() - 1]);
        assert(s1[i] == s[i]);
    }
}

/// A commit with nothing changed records nothing: where the working tree holds
/// exactly the baseline's directories and files, each file once, every field
/// of the record is empty and the entry has no payload.
pub proof fn lemma_noop_commit(current: Tree, baseline: Tree, c: Commit, e: Entry)
    requires
        state_of(current) == state_of(baseline),
        keys_of(entry_seq(current.files@)).no_duplicates(),
        Commit::new_spec(current, baseline, c),
        c.entry_spec(e),
    ensures
        c.new_dirs.len() == 0,
        c.removed_dirs.len() == 0,
        c.new_files.len() == 0,
        c.removed_files.len() == 0,
        c.changed_files.len() == 0,
        e.dirs is None,
        e.files is None,
        e.removed_files is None,
        e.changes.len() == 0,
{
    let cur = entry_seq(current.files@);
    lemma_minus(path_seq(current.dirs@), baseline.dir_set());
    lemma_minus(path_seq(baseline.dirs@), current.dir_set());
    lemma_minus(keys_of(cur), baseline.file_map().dom());
    lemma_minus(keys_of(entry_seq(baseline.files@)), current.file_map().dom());
    lemma_dset_contains(path_seq(current.dirs@));
    lemma_dset_contains(path_seq(baseline.dirs@));
    lemma_dset_contains(keys_of(cur));
    lemma_dset_contains(keys_of(entry_seq(baseline.files@)));
    lemma_dset_keys(cur);
    lemma_dset_keys(entry_seq(baseline.files@));
    let sets = seq![
        path_seq(c.new_dirs@),
        path_seq(c.removed_dirs@),
        path_seq(c.new_files@),
        path_seq(c.removed_files@),
    ];
    assert forall|k: int| 0 <= k < 4 implies (#[trigger] sets[k]).len() == 0 by {
        let q = sets[k];
        if q.len() > 0 {
            assert(q.contains(q[0]));
        }
    }
    assert(sets[0].len() == 0 && sets[1].len() == 0 && sets[2].len() == 0 && sets[3].len() == 0);
    assert forall|i: int| 0 <= i < cur.len() implies (#[trigger] cur[i]).1.len() <= usize::MAX by {
        assert(current.files@[i].1@.len() == current.files@[i].1.len());
    }
    assert(forall|n: nat| n <= cur.len() ==> deltas(cur.subrange(0, n as int), baseline.file_map()).len() == 0) by {
        assert forall|n: nat| n <= cur.len() implies deltas(cur.subrange(0, n as int), baseline.file_map()).len() == 0 by {
            lemma_noop_deltas(cur, baseline.file_map(), n);
        }
    }
    assert(cur.subrange(0, cur.len() as int) =~= cur);
    assert(deltas(cur, baseline.file_map()).len() == 0);
}

proof fn lemma_noop_deltas(cur: Seq<(Seq<u8>, Seq<u8>)>, fb: Map<Seq<u8>, Seq<u8>>, n: nat)
    requires
        keys_of(cur).no_duplicates(),
        fmap(cur) == fb,
        forall|i: int| 0 <= i < cur.len() ==> (#[trigger] cur[i]).1.len() <= usize::MAX,
        n <= cur.len(),
    ensures
        deltas(cur.subrange(0, n as int), fb).len() == 0,
    decreases n,
{
    if n > 0 {
        lemma_noop_deltas(cur, fb, (n - 1) as nat);
        let s = cur.subrange(0, n as int);
        assert(s.drop_last() =~= cur.subrange(0, n - 1));
        lemma_fmap_entry(cur, n - 1);
        let e = cur[n - 1];
        assert(s.last() == e);
        assert(fb.contains_key(e.0) && fb[e.0] == e.1);
        lemma_diff_self(e.1, e.1.len());
    }
}

} // verus!
