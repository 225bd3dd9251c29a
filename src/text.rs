//! ASCII decimal numbers and newline-terminated lines of bytes.

use vstd::prelude::*;

verus! {

pub open spec fn is_digit(c: u8) -> bool {
    0x30 <= c <= 0x39
}

pub open spec fn all_digits(s: Seq<u8>) -> bool {
    forall|i: int| 0 <= i < s.len() ==> is_digit(#[trigger] s[i])
}

/// The ASCII digit for `d < 10`.
pub open spec fn digit(d: nat) -> u8 {
    (0x30 + d) as u8
}

/// The decimal text of `n`, without leading zeros.
pub open spec fn dec(n: nat) -> Seq<u8>
    decreases n,
{
    if n < 10 {
        seq![digit(n)]
    } else {
        dec(n / 10).push(digit(n % 10))
    }
}

/// The number that a string of digits spells.
pub open spec fn value(s: Seq<u8>) -> nat
    decreases s.len(),
{
    if s.len() == 0 {
        0
    } else {
        value(s.drop_last()) * 10 + (s.last() - 0x30) as nat
    }
}

/// What a decimal field parses to: a non-empty run of digits whose value fits.
pub open spec fn parse_dec(s: Seq<u8>, bound: nat) -> Option<nat> {
    if s.len() > 0 && all_digits(s) && value(s) <= bound {
        Some(value(s))
    } else {
        None
    }
}

/// Appends the decimal text of `n`.
pub fn push_decimal(out: &mut Vec<u8>, n: usize)
    ensures
        final(out)@ == old(out)@ + dec(n as nat),
    decreases n,
{
    if n >= 10 {
        push_decimal(out, n / 10);
    }
    let d: u8 = (n % 10) as u8;
    out.push(0x30 + d);
    assert(final(out)@ =~= old(out)@ + dec(n as nat));
}

proof fn lemma_value_prefix(s: Seq<u8>, k: int)
    requires
        0 <= k <= s.len(),
        all_digits(s),
    ensures
        value(s.subrange(0, k)) <= value(s),
    decreases s.len(),
{
    if k < s.len() {
        assert(s.drop_last().subrange(0, k) =~= s.subrange(0, k));
        lemma_value_prefix(s.drop_last(), k);
    } else {
        assert(s.subrange(0, k) =~= s);
    }
}

/// Parses `s[lo..hi]` as a decimal number no larger than `bound`.
pub fn parse_decimal(s: &Vec<u8>, lo: usize, hi: usize, bound: u128) -> (r: Option<u128>)
    requires
        lo <= hi <= s.len(),
    ensures
        r.is_some() == parse_dec(s@.subrange(lo as int, hi as int), bound as nat).is_some(),
        r.is_some() ==> r.unwrap() as nat == parse_dec(
            s@.subrange(lo as int, hi as int),
            bound as nat,
        ).unwrap(),
{
    let ghost t = s@.subrange(lo as int, hi as int);
    if lo == hi {
        return None;
    }
    let mut acc: u128 = 0;
    let mut i: usize = lo;
    while i < hi
        invariant
            lo <= i <= hi <= s.len(),
            t == s@.subrange(lo as int, hi as int),
            all_digits(t.subrange(0, i - lo)),
            acc as nat == value(t.subrange(0, i - lo)),
            acc <= bound,
        decreases hi - i,
    {
        let c = s[i];
        if c < 0x30 || c > 0x39 {
            assert(!is_digit(t[i - lo]));
            return None;
        }
        let d: u128 = (c - 0x30) as u128;
        assert(t.subrange(0, i + 1 - lo).drop_last() =~= t.subrange(0, i - lo));
        if d > bound || acc > (bound - d) / 10 {
            proof {
                assert(value(t.subrange(0, i + 1 - lo)) == acc * 10 + d);
                assert(acc * 10 + d > bound) by (nonlinear_arith)
                    requires
                        d > bound || acc > (bound - d) / 10,
                        d <= bound ==> (bound - d) / 10 >= 0,
                ;
                if all_digits(t) {
                    lemma_value_prefix(t, i + 1 - lo);
                }
            }
            return None;
        }
        proof {
            assert(acc * 10 + d <= bound) by (nonlinear_arith)
                requires
                    acc <= (bound - d) / 10,
                    d <= bound,
            ;
        }
        acc = acc * 10 + d;
        i = i + 1;
    }
    assert(t.subrange(0, hi - lo) =~= t);
    Some(acc)
}

/// The proof that a number's decimal text parses back to it.
pub proof fn lemma_dec_value(n: nat)
    ensures
        dec(n).len() > 0,
        all_digits(dec(n)),
        value(dec(n)) == n,
    decreases n,
{
    assert(digit(n % 10) - 0x30 == n % 10);
    if n >= 10 {
        lemma_dec_value(n / 10);
        assert(dec(n).drop_last() =~= dec(n / 10));
        assert(value(dec(n)) == (n / 10) * 10 + n % 10);
        assert(n == (n / 10) * 10 + n % 10) by (nonlinear_arith);
    } else {
        assert(dec(n).drop_last() =~= seq![]);
        assert(value(seq![]) == 0);
        assert(n % 10 == n);
    }
}

/// The text of `s` cut at every `sep`: one more piece than it has separators.
pub open spec fn pieces(s: Seq<u8>, sep: u8) -> Seq<Seq<u8>>
    decreases s.len(),
{
    if s.len() == 0 {
        seq![seq![]]
    } else {
        let p = pieces(s.drop_last(), sep);
        if s.last() == sep {
            p.push(seq![])
        } else {
            p.update(p.len() - 1, p.last().push(s.last()))
        }
    }
}

/// The lines of `s`: its pieces, without the empty one after a final newline.
pub open spec fn lines(s: Seq<u8>) -> Seq<Seq<u8>> {
    let p = pieces(s, 0x0a);
    if p.last().len() == 0 {
        p.drop_last()
    } else {
        p
    }
}

/// Each line followed by a newline.
pub open spec fn join_lines(ls: Seq<Seq<u8>>) -> Seq<u8>
    decreases ls.len(),
{
    if ls.len() == 0 {
        seq![]
    } else {
        join_lines(ls.drop_last()) + ls.last() + seq![0x0au8]
    }
}

pub open spec fn no_newline(l: Seq<u8>) -> bool {
    forall|i: int| 0 <= i < l.len() ==> #[trigger] l[i] != 0x0a
}

pub open spec fn bytes_seq(v: Seq<Vec<u8>>) -> Seq<Seq<u8>> {
    v.map_values(|l: Vec<u8>| l@)
}

proof fn lemma_pieces_len(s: Seq<u8>)
    ensures
        pieces(s, 0x0a).len() >= 1,
    decreases s.len(),
{
    if s.len() > 0 {
        lemma_pieces_len(s.drop_last());
    }
}

proof fn lemma_pieces_append(x: Seq<u8>, t: Seq<u8>)
    requires
        no_newline(t),
    ensures
        pieces(x, 0x0a).len() >= 1,
        pieces(x + t, 0x0a) == pieces(x, 0x0a).update(pieces(x, 0x0a).len() - 1, pieces(x, 0x0a).last() + t),
    decreases t.len(),
{
    lemma_pieces_len(x);
    if t.len() == 0 {
        assert(x + t =~= x);
        assert(pieces(x, 0x0a).last() + t =~= pieces(x, 0x0a).last());
        assert(pieces(x, 0x0a).update(pieces(x, 0x0a).len() - 1, pieces(x, 0x0a).last()) =~= pieces(x, 0x0a));
    } else {
        let t1 = t.drop_last();
        lemma_pieces_append(x, t1);
        assert((x + t).drop_last() =~= x + t1);
        assert(t.last() == t[t.len() - 1]);
        assert(pieces(x, 0x0a).last() + t =~= (pieces(x, 0x0a).last() + t1).push(t.last()));
        assert(pieces(x + t, 0x0a) =~= pieces(x, 0x0a).update(pieces(x, 0x0a).len() - 1, pieces(x, 0x0a).last() + t));
    }
}

/// Lines written with `join_lines` are read back by `lines`.
pub proof fn lemma_lines_join(ls: Seq<Seq<u8>>)
    requires
        forall|i: int| 0 <= i < ls.len() ==> no_newline(#[trigger] ls[i]),
    ensures
        pieces(join_lines(ls), 0x0a) == ls.push(seq![]),
        lines(join_lines(ls)) == ls,
    decreases ls.len(),
{
    if ls.len() > 0 {
        let l1 = ls.drop_last();
        lemma_lines_join(l1);
        let j1 = join_lines(l1);
        lemma_pieces_append(j1, ls.last());
        let x = j1 + ls.last();
        assert((x + seq![0x0au8]).drop_last() =~= x);
        assert(pieces(x, 0x0a) =~= l1.push(ls.last()));
        assert(pieces(join_lines(ls), 0x0a) =~= ls.push(seq![]));
    }
    assert(ls.push(seq![]).drop_last() =~= ls);
}

/// Splits `s` at every `sep`.
pub fn split_on(s: &Vec<u8>, sep: u8) -> (r: Vec<Vec<u8>>)
    ensures
        bytes_seq(r@) == pieces(s@, sep),
{
    let mut done: Vec<Vec<u8>> = Vec::new();
    let mut cur: Vec<u8> = Vec::new();
    let mut i: usize = 0;
    while i < s.len()
        invariant
            i <= s.len(),
            bytes_seq(done@).push(cur@) == pieces(s@.subrange(0, i as int), sep),
        decreases s.len() - i,
    {
        let ghost prev = bytes_seq(done@).push(cur@);
        assert(s@.subrange(0, i + 1).drop_last() =~= s@.subrange(0, i as int));
        if s[i] == sep {
            let piece = cur;
            done.push(piece);
            cur = Vec::new();
            assert(bytes_seq(done@).push(cur@) =~= prev.push(seq![]));
        } else {
            cur.push(s[i]);
            assert(bytes_seq(done@).push(cur@) =~= prev.update(prev.len() - 1, prev.last().push(s@[i as int])));
        }
        i = i + 1;
    }
    assert(s@.subrange(0, s.len() as int) =~= s@);
    done.push(cur);
    done
}

/// Splits `s` into its lines.
pub fn split_lines(s: &Vec<u8>) -> (r: Vec<Vec<u8>>)
    ensures
        bytes_seq(r@) == lines(s@),
{
    let mut r = split_on(s, 0x0a);
    proof {
        lemma_pieces_len(s@);
    }
    let n = r.len();
    if r[n - 1].len() == 0 {
        let ghost before = bytes_seq(r@);
        r.pop();
        assert(bytes_seq(r@) =~= before.drop_last());
    }
    r
}

} // verus!
