//! Positional byte deltas between two versions of a file, and their replay
//! through a sparse buffer of optional bytes.

use vstd::prelude::*;

verus! {

/// One positional operation on a file's bytes.
#[derive(Clone, Copy, Debug, PartialEq, Eq, Structural)]
pub enum Change {
    /// Write this byte at the operation's index.
    Update(u8),
    /// Drop the byte at the operation's index.
    Delete,
}

/// The operation (if any) that the delta emits at index `i`.
pub open spec fn diff_op(cur: Seq<u8>, base: Seq<u8>, i: int) -> Option<Change> {
    if i < cur.len() {
        if i >= base.len() || cur[i] != base[i] {
            Some(Change::Update(cur[i]))
        } else {
            None
        }
    } else {
        Some(Change::Delete)
    }
}

/// The operations emitted for the indices below `n`, in index order.
pub open spec fn diff_upto(cur: Seq<u8>, base: Seq<u8>, n: nat) -> Seq<(usize, Change)>
    decreases n,
{
    if n == 0 {
        seq![]
    } else {
        let prev = diff_upto(cur, base, (n - 1) as nat);
        match diff_op(cur, base, n - 1) {
            Some(c) => prev.push(((n - 1) as usize, c)),
            None => prev,
        }
    }
}

pub open spec fn max_len(a: Seq<u8>, b: Seq<u8>) -> nat {
    if a.len() >= b.len() {
        a.len()
    } else {
        b.len()
    }
}

/// The delta that turns `base` into `cur`: every index of the longer of the two,
/// aligned by position.
pub open spec fn diff_spec(cur: Seq<u8>, base: Seq<u8>) -> Seq<(usize, Change)> {
    diff_upto(cur, base, max_len(cur, base))
}

/// Every byte of a new file, as updates at its indices.
pub open spec fn fresh_ops(cur: Seq<u8>) -> Seq<(usize, Change)> {
    Seq::new(cur.len(), |i: int| (i as usize, Change::Update(cur[i])))
}

/// The slots of a buffer holding the given bytes.
pub open spec fn slots_of(b: Seq<u8>) -> Seq<Option<u8>> {
    Seq::new(b.len(), |i: int| Some(b[i]))
}

/// `n` absent slots.
pub open spec fn absent(n: nat) -> Seq<Option<u8>> {
    Seq::new(n, |i: int| None::<u8>)
}

/// One operation applied to a sparse buffer. An update writes its byte at its
/// index, whether the slot is inside the buffer or past its end, where the
/// buffer first grows with absent slots; a delete past the end changes nothing.
pub open spec fn apply_op(slots: Seq<Option<u8>>, op: (usize, Change)) -> Seq<Option<u8>> {
    let i = op.0 as int;
    match op.1 {
        Change::Delete => if i < slots.len() {
            slots.update(i, None)
        } else {
            slots
        },
        Change::Update(b) => if i < slots.len() {
            slots.update(i, Some(b))
        } else {
            (slots + absent((i - slots.len()) as nat)).push(Some(b))
        },
    }
}

/// Operations applied in order.
pub open spec fn apply_ops(slots: Seq<Option<u8>>, ops: Seq<(usize, Change)>) -> Seq<Option<u8>>
    decreases ops.len(),
{
    if ops.len() == 0 {
        slots
    } else {
        apply_op(apply_ops(slots, ops.drop_last()), ops.last())
    }
}

/// The present bytes of a sparse buffer, in order.
pub open spec fn compact(slots: Seq<Option<u8>>) -> Seq<u8>
    decreases slots.len(),
{
    if slots.len() == 0 {
        seq![]
    } else {
        let r = compact(slots.drop_last());
        match slots.last() {
            Some(b) => r.push(b),
            None => r,
        }
    }
}

/// The bytes of `base` after replaying `ops` over it.
pub open spec fn patch(base: Seq<u8>, ops: Seq<(usize, Change)>) -> Seq<u8> {
    compact(apply_ops(slots_of(base), ops))
}

/// The sparse buffer after the delta's operations for the indices below `k`.
pub open spec fn partial_state(cur: Seq<u8>, base: Seq<u8>, k: nat) -> Seq<Option<u8>> {
    let n = if base.len() >= k { base.len() } else { k };
    Seq::new(
        n,
        |j: int|
            if j < k {
                if j < cur.len() {
                    Some(cur[j])
                } else {
                    None
                }
            } else {
                Some(base[j])
            },
    )
}

proof fn lemma_diff_state(cur: Seq<u8>, base: Seq<u8>, k: nat)
    requires
        k <= max_len(cur, base),
        max_len(cur, base) <= usize::MAX,
    ensures
        apply_ops(slots_of(base), diff_upto(cur, base, k)) == partial_state(cur, base, k),
    decreases k,
{
    if k == 0 {
        assert(slots_of(base) =~= partial_state(cur, base, 0));
    } else {
        let k1 = (k - 1) as nat;
        lemma_diff_state(cur, base, k1);
        let prev = diff_upto(cur, base, k1);
        let s = partial_state(cur, base, k1);
        match diff_op(cur, base, k1 as int) {
            Some(c) => {
                assert(diff_upto(cur, base, k).drop_last() == prev);
                assert((k1 as usize) as int == k1);
                if k1 >= base.len() && k1 < cur.len() {
                    assert(s.len() == k1);
                    assert(s + absent(0) =~= s);
                }
                assert(apply_op(s, (k1 as usize, c)) =~= partial_state(cur, base, k));
            },
            None => {
                assert(s =~= partial_state(cur, base, k));
            },
        }
    }
}

/// Compacting the slots of `cur` followed by absent slots gives `cur`.
pub proof fn lemma_compact_prefix(cur: Seq<u8>, n: nat)
    requires
        n >= cur.len(),
    ensures
        compact(Seq::new(n, |j: int| if j < cur.len() { Some(cur[j]) } else { None })) == cur,
    decreases n,
{
    let s = Seq::new(n, |j: int| if j < cur.len() { Some(cur[j]) } else { None });
    if n == 0 {
        assert(cur =~= seq![]);
    } else if n > cur.len() {
        lemma_compact_prefix(cur, (n - 1) as nat);
        assert(s.drop_last() =~= Seq::new((n - 1) as nat, |j: int| if j < cur.len() { Some(cur[j]) } else { None }));
    } else {
        let c1 = cur.drop_last();
        lemma_compact_prefix(c1, (n - 1) as nat);
        assert(s.drop_last() =~= Seq::new((n - 1) as nat, |j: int| if j < c1.len() { Some(c1[j]) } else { None }));
        assert(c1.push(cur.last()) =~= cur);
    }
}

/// Replaying the delta from `base` to `cur` over `base` gives back `cur`
/// exactly.
pub proof fn lemma_patch_diff(cur: Seq<u8>, base: Seq<u8>)
    requires
        cur.len() <= usize::MAX,
        base.len() <= usize::MAX,
    ensures
        patch(base, diff_spec(cur, base)) == cur,
{
    let n = max_len(cur, base);
    lemma_diff_state(cur, base, n);
    assert(partial_state(cur, base, n) =~= Seq::new(n, |j: int| if j < cur.len() { Some(cur[j]) } else { None }));
    lemma_compact_prefix(cur, n);
}

/// Computes the positional delta from `base` to `cur`.
pub fn diff_bytes(cur: &Vec<u8>, base: &Vec<u8>) -> (r: Vec<(usize, Change)>)
    ensures
        r@ == diff_spec(cur@, base@),
{
    let n: usize = if cur.len() >= base.len() {
        cur.len()
    } else {
        base.len()
    };
    let mut r: Vec<(usize, Change)> = Vec::new();
    let mut i: usize = 0;
    while i < n
        invariant
            n == max_len(cur@, base@),
            i <= n,
            r@ == diff_upto(cur@, base@, i as nat),
        decreases n - i,
    {
        if i < cur.len() {
            if i >= base.len() || cur[i] != base[i] {
                r.push((i, Change::Update(cur[i])));
            }
        } else {
            r.push((i, Change::Delete));
        }
        i = i + 1;
    }
    r
}

/// Every byte of a file that the baseline does not have, as updates.
pub fn fresh_changes(cur: &Vec<u8>) -> (r: Vec<(usize, Change)>)
    ensures
        r@ == fresh_ops(cur@),
{
    let mut r: Vec<(usize, Change)> = Vec::new();
    let mut i: usize = 0;
    while i < cur.len()
        invariant
            i <= cur.len(),
            r@ == fresh_ops(cur@).subrange(0, i as int),
        decreases cur.len() - i,
    {
        r.push((i, Change::Update(cur[i])));
        i = i + 1;
        assert(r@ =~= fresh_ops(cur@).subrange(0, i as int));
    }
    assert(r@ =~= fresh_ops(cur@));
    r
}

/// Replays `ops` over `base` through a buffer of optional bytes, then drops
/// the absent slots.
pub fn apply_changes(base: &Vec<u8>, ops: &Vec<(usize, Change)>) -> (r: Vec<u8>)
    ensures
        r@ == patch(base@, ops@),
{
    let mut slots: Vec<Option<u8>> = Vec::new();
    let mut i: usize = 0;
    while i < base.len()
        invariant
            i <= base.len(),
            slots@ == slots_of(base@).subrange(0, i as int),
        decreases base.len() - i,
    {
        slots.push(Some(base[i]));
        i = i + 1;
        assert(slots@ =~= slots_of(base@).subrange(0, i as int));
    }
    assert(slots@ =~= slots_of(base@));
    let mut k: usize = 0;
    while k < ops.len()
        invariant
            k <= ops.len(),
            slots@ == apply_ops(slots_of(base@), ops@.subrange(0, k as int)),
        decreases ops.len() - k,
    {
        let (idx, c) = ops[k];
        let ghost before = slots@;
        match c {
            Change::Delete => {
                if idx < slots.len() {
                    slots.set(idx, None);
                }
            },
            Change::Update(b) => {
                if idx < slots.len() {
                    slots.set(idx, Some(b));
                } else {
                    while slots.len() < idx
                        invariant
                            before.len() <= slots@.len() <= idx,
                            slots@ == before + absent((slots@.len() - before.len()) as nat),
                        decreases idx - slots.len(),
                    {
                        slots.push(None);
                        assert(slots@ =~= before + absent((slots@.len() - before.len()) as nat));
                    }
                    slots.push(Some(b));
                }
            },
        }
        assert(ops@.subrange(0, k + 1).drop_last() =~= ops@.subrange(0, k as int));
        k = k + 1;
        assert(slots@ =~= apply_op(before, ops@[k - 1]));
    }
    assert(ops@.subrange(0, ops.len() as int) =~= ops@);
    let mut out: Vec<u8> = Vec::new();
    let mut j: usize = 0;
    while j < slots.len()
        invariant
            j <= slots.len(),
            out@ == compact(slots@.subrange(0, j as int)),
        decreases slots.len() - j,
    {
        assert(slots@.subrange(0, j + 1).drop_last() =~= slots@.subrange(0, j as int));
        match slots[j] {
            Some(b) => out.push(b),
            None => {},
        }
        j = j + 1;
    }
    assert(slots@.subrange(0, slots.len() as int) =~= slots@);
    out
}

} // verus!
