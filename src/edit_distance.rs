//! Exact Levenshtein distance between two strings.
use vstd::prelude::*;

verus! {

pub open spec fn min_nat(x: nat, y: nat) -> nat {
    if x <= y {
        x
    } else {
        y
    }
}

pub open spec fn max_nat(x: nat, y: nat) -> nat {
    if x >= y {
        x
    } else {
        y
    }
}

/// The Levenshtein distance: the least number of single-symbol insertions,
/// deletions and substitutions that turn `a` into `b`.
pub open spec fn lev(a: Seq<u8>, b: Seq<u8>) -> nat
    decreases a.len() + b.len(),
{
    if a.len() == 0 {
        b.len()
    } else if b.len() == 0 {
        a.len()
    } else {
        let cost: nat = if a.last() == b.last() {
            0
        } else {
            1
        };
        min_nat(
            min_nat(lev(a.drop_last(), b) + 1, lev(a, b.drop_last()) + 1),
            lev(a.drop_last(), b.drop_last()) + cost,
        )
    }
}

/// The distance never exceeds the length of the longer string.
pub proof fn lemma_lev_le_max(a: Seq<u8>, b: Seq<u8>)
    ensures
        lev(a, b) <= max_nat(a.len(), b.len()),
    decreases a.len() + b.len(),
{
    if a.len() > 0 && b.len() > 0 {
        lemma_lev_le_max(a.drop_last(), b.drop_last());
    }
}

/// A string is at distance zero from itself.
pub proof fn lemma_lev_self(a: Seq<u8>)
    ensures
        lev(a, a) == 0,
    decreases a.len(),
{
    if a.len() > 0 {
        lemma_lev_self(a.drop_last());
    }
}

/// The distance does not depend on the order of its arguments.
pub proof fn lemma_lev_symmetric(a: Seq<u8>, b: Seq<u8>)
    ensures
        lev(a, b) == lev(b, a),
    decreases a.len() + b.len(),
{
    if a.len() > 0 && b.len() > 0 {
        lemma_lev_symmetric(a.drop_last(), b);
        lemma_lev_symmetric(a, b.drop_last());
        lemma_lev_symmetric(a.drop_last(), b.drop_last());
    }
}

/// The distance from the empty string is the other string's length.
pub proof fn lemma_lev_empty(s: Seq<u8>)
    ensures
        lev(Seq::<u8>::empty(), s) == s.len(),
        lev(s, Seq::<u8>::empty()) == s.len(),
{
}

/// The edit distance is zero between equal strings, symmetric, and equal to
/// the other string's length when one string is empty.
pub proof fn lemma_edit_distance_laws(a: Seq<u8>, b: Seq<u8>)
    ensures
        lev(a, a) == 0,
        lev(a, b) == lev(b, a),
        lev(Seq::<u8>::empty(), b) == b.len(),
{
    lemma_lev_self(a);
    lemma_lev_symmetric(a, b);
    lemma_lev_empty(b);
}

/// Quadratic dynamic programme over the prefixes `a[..asize]` and `b[..bsize]`,
/// one row of the table at a time.
pub fn edit_distance_dp(a: &[u8], asize: usize, b: &[u8], bsize: usize) -> (r: usize)
    requires
        asize <= a@.len(),
        bsize <= b@.len(),
    ensures
        r == lev(a@.subrange(0, asize as int), b@.subrange(0, bsize as int)),
{
    let ghost sa = a@.subrange(0, asize as int);
    let ghost sb = b@.subrange(0, bsize as int);
    let mut prev: Vec<usize> = Vec::with_capacity(bsize + 0);
    for j in 0..bsize
        invariant
            prev@.len() == j,
            forall|k: int| 0 <= k < j ==> prev@[k] == k,
    {
        prev.push(j);
    }
    prev.push(bsize);
    assert forall|k: int| 0 <= k <= bsize implies #[trigger] prev@[k] == lev(
        sa.subrange(0, 0),
        sb.subrange(0, k),
    ) by {
        assert(sa.subrange(0, 0).len() == 0);
    }
    let mut i: usize = 0;
    while i < asize
        invariant
            i <= asize,
            asize <= a@.len(),
            bsize <= b@.len(),
            sa == a@.subrange(0, asize as int),
            sb == b@.subrange(0, bsize as int),
            prev@.len() == bsize + 1,
            forall|k: int|
                0 <= k <= bsize ==> #[trigger] prev@[k] == lev(
                    sa.subrange(0, i as int),
                    sb.subrange(0, k),
                ),
        decreases asize - i,
    {
        let ghost pa = sa.subrange(0, i as int);
        let ghost ca = sa.subrange(0, i + 1);
        assert(ca.drop_last() =~= pa);
        assert(ca.last() == a@[i as int]);
        let mut cur: Vec<usize> = Vec::with_capacity(bsize + 0);
        cur.push(i + 1);
        assert(cur@[0] == lev(ca, sb.subrange(0, 0))) by {
            assert(sb.subrange(0, 0).len() == 0);
        }
        let mut jj: usize = 0;
        while jj < bsize
            invariant
                i < asize,
                jj <= bsize,
                asize <= a@.len(),
                bsize <= b@.len(),
                sa == a@.subrange(0, asize as int),
                sb == b@.subrange(0, bsize as int),
                pa == sa.subrange(0, i as int),
                ca == sa.subrange(0, i + 1),
                ca.drop_last() == pa,
                ca.last() == a@[i as int],
                prev@.len() == bsize + 1,
                forall|k: int| 0 <= k <= bsize ==> #[trigger] prev@[k] == lev(pa, sb.subrange(0, k)),
                cur@.len() == jj + 1,
                forall|k: int| 0 <= k <= jj ==> #[trigger] cur@[k] == lev(ca, sb.subrange(0, k)),
            decreases bsize - jj,
        {
            let ghost pb = sb.subrange(0, jj as int);
            let ghost cb = sb.subrange(0, jj + 1);
            assert(cb.drop_last() =~= pb);
            assert(cb.last() == b@[jj as int]);
            let del = prev[jj + 1];
            let ins = cur[jj];
            let diag = prev[jj];
            proof {
                lemma_lev_le_max(pa, cb);
                lemma_lev_le_max(ca, pb);
                lemma_lev_le_max(pa, pb);
            }
            let best = if del < ins {
                del
            } else {
                ins
            };
            let sub = if a[i] == b[jj] {
                diag
            } else {
                diag + 1
            };
            let v = if best < sub {
                best + 1
            } else {
                sub
            };
            assert(v == lev(ca, cb));
            cur.push(v);
            jj = jj + 1;
        }
        prev = cur;
        i = i + 1;
    }
    assert(sa.subrange(0, asize as int) =~= sa);
    assert(sb.subrange(0, bsize as int) =~= sb);
    prev[bsize]
}

/// Edit distance between the prefixes `a[..asize]` and `b[..bsize]`.
///
/// The longer prefix drives the scan; an empty prefix is at the distance of
/// the other one's length.
pub fn edit_distance(a: &[u8], asize: usize, b: &[u8], bsize: usize) -> (r: usize)
    requires
        asize <= a@.len(),
        bsize <= b@.len(),
    ensures
        r == lev(a@.subrange(0, asize as int), b@.subrange(0, bsize as int)),
{
    proof {
        lemma_lev_empty(a@.subrange(0, asize as int));
        lemma_lev_empty(b@.subrange(0, bsize as int));
    }
    if asize == 0 {
        assert(a@.subrange(0, 0) =~= Seq::<u8>::empty());
        return bsize;
    } else if bsize == 0 {
        assert(b@.subrange(0, 0) =~= Seq::<u8>::empty());
        return asize;
    }
    if asize < bsize {
        proof {
            lemma_lev_symmetric(a@.subrange(0, asize as int), b@.subrange(0, bsize as int));
        }
        edit_distance_dp(b, bsize, a, asize)
    } else {
        edit_distance_dp(a, asize, b, bsize)
    }
}

/// Edit distance between two whole strings.
pub fn edit_distance_from_str(a: &[u8], b: &[u8]) -> (r: usize)
    ensures
        r == lev(a@, b@),
{
    assert(a@.subrange(0, a@.len() as int) =~= a@);
    assert(b@.subrange(0, b@.len() as int) =~= b@);
    edit_distance(a, a.len(), b, b.len())
}

} // verus!
