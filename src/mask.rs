//! Per-base classification of a read against its two best placements, and
//! the extraction of the matched segments from it.
use vstd::prelude::*;
use crate::common::GenePos;
use crate::indexer::SeqMatch;

verus! {

pub const MATCH_TOP: u8 = 3;
pub const MATCH_SECOND: u8 = 2;
pub const MATCH_NONE: u8 = 1;
pub const MATCH_UNKNOWN: u8 = 0;

/// Longest gap of other bases bridged inside one segment.
pub const ALLOWED_GAP: i32 = 10;

/// A segment must be longer than this many bases.
pub const THRESHOLD_LEN: i32 = 20;

/// Raises every mark in `[start, min(seqlen, start + kmer_size))` to at least
/// `flag`.
pub fn make_mask(mask: &mut Vec<u8>, flag: u8, seqlen: i32, start: i32, kmer_size: i32)
    requires
        old(mask)@.len() == seqlen,
        0 <= start <= seqlen < 0x2000_0000,
        0 <= kmer_size <= 64,
    ensures
        final(mask)@.len() == old(mask)@.len(),
        forall|j: int|
            0 <= j < seqlen ==> #[trigger] final(mask)@[j] == if start <= j < start + kmer_size
                && old(mask)@[j] < flag {
                flag
            } else {
                old(mask)@[j]
            },
{
    let end_point: i32 = if seqlen < start + kmer_size {
        seqlen
    } else {
        start + kmer_size
    };
    let mut j: i32 = start;
    while j < end_point
        invariant
            0 <= start <= j <= end_point,
            old(mask)@.len() == seqlen,
            end_point <= seqlen,
            end_point as int == (if seqlen < start + kmer_size { seqlen as int } else { start + kmer_size }),
            mask@.len() == seqlen,
            forall|k: int|
                0 <= k < seqlen ==> #[trigger] mask@[k] == if start <= k < j && old(mask)@[k] < flag {
                    flag
                } else {
                    old(mask)@[k]
                },
        decreases end_point - j,
    {
        let m = mask[j as usize];
        if m < flag {
            mask.set(j as usize, flag);
        }
        j = j + 1;
    }
}

/// Number of marks of `s` at or below `flag`.
pub open spec fn count_at_most(s: Seq<u8>, flag: u8) -> nat
    decreases s.len(),
{
    if s.len() == 0 {
        0
    } else {
        count_at_most(s.drop_last(), flag) + if s.last() <= flag {
            1nat
        } else {
            0nat
        }
    }
}

/// Number of bases matched by neither placement.
pub fn count_mismatches(mask: &Vec<u8>) -> (r: usize)
    ensures
        r == count_at_most(mask@, MATCH_NONE),
        r <= mask@.len(),
{
    let mut n: usize = 0;
    let mut i: usize = 0;
    while i < mask.len()
        invariant
            i <= mask@.len(),
            n == count_at_most(mask@.subrange(0, i as int), MATCH_NONE),
            n <= i,
        decreases mask@.len() - i,
    {
        assert(mask@.subrange(0, i + 1).drop_last() =~= mask@.subrange(0, i as int));
        if mask[i] <= MATCH_NONE {
            n = n + 1;
        }
        i = i + 1;
    }
    assert(mask@.subrange(0, mask@.len() as int) =~= mask@);
    n
}

/// One past the last mark `target` reached from `end` (one past a mark
/// `target`), stepping over at most `ALLOWED_GAP` lower marks at a time and
/// stopping at a higher mark; `g` lower marks have been passed already.
pub open spec fn extend(m: Seq<u8>, target: u8, end: int, g: int) -> int
    decreases m.len() - end - g,
{
    if g < 0 || g >= ALLOWED_GAP || end + g >= m.len() || end < 0 {
        end
    } else if m[end + g] > target {
        end
    } else if m[end + g] == target {
        extend(m, target, end + g + 1, 0)
    } else {
        extend(m, target, end, g + 1)
    }
}

/// The longest segment found from starts at or after `s` (the last base
/// excluded as a start), given the best `(bs, be)` so far; a longer segment
/// replaces it, the first wins on ties.
pub open spec fn best_from(m: Seq<u8>, target: u8, s: int, bs: int, be: int) -> (int, int)
    decreases m.len() - s,
{
    if s < 0 || s >= m.len() - 1 {
        (bs, be)
    } else if m[s] == target {
        let e = extend(m, target, s + 1, 0) - 1;
        if e - s > be - bs {
            best_from(m, target, s + 1, s, e)
        } else {
            best_from(m, target, s + 1, bs, be)
        }
    } else {
        best_from(m, target, s + 1, bs, be)
    }
}

/// The longest segment of marks `target` that starts at a mark `target`,
/// bridging gaps of at most `ALLOWED_GAP` lower marks, as `(start, end)`
/// with both ends marked `target`; `(-1, -1)` when there is none.
pub fn longest_run(mask: &Vec<u8>, seqlen: i32, target: u8) -> (r: (i32, i32))
    requires
        mask@.len() == seqlen,
        1 <= seqlen < 0x2000_0000,
    ensures
        (r.0 as int, r.1 as int) == best_from(mask@, target, 0, -1, -1),
        r == (-1i32, -1i32) || (0 <= r.0 <= r.1 < seqlen && mask@[r.0 as int] == target
            && mask@[r.1 as int] == target),
{
    let mut max_start: i32 = -1;
    let mut max_end: i32 = -1;
    let mut start: i32 = 0;
    loop
        invariant
            mask@.len() == seqlen,
            1 <= seqlen < 0x2000_0000,
            0 <= start < seqlen,
            (max_start, max_end) == (-1i32, -1i32) || (0 <= max_start <= max_end < seqlen
                && mask@[max_start as int] == target && mask@[max_end as int] == target),
            best_from(mask@, target, 0, -1, -1) == best_from(mask@, target, start as int, max_start as int, max_end as int),
        ensures
            (max_start as int, max_end as int) == best_from(mask@, target, 0, -1, -1),
            (max_start, max_end) == (-1i32, -1i32) || (0 <= max_start <= max_end < seqlen
                && mask@[max_start as int] == target && mask@[max_end as int] == target),
        decreases seqlen - start,
    {
        let ghost s0 = start;
        while mask[start as usize] != target && start != seqlen - 1
            invariant
                mask@.len() == seqlen,
                0 <= s0 <= start < seqlen,
                best_from(mask@, target, 0, -1, -1) == best_from(mask@, target, start as int, max_start as int, max_end as int),
            decreases seqlen - start,
        {
            start = start + 1;
        }
        if start >= seqlen - 1 {
            break;
        }
        let mut end: i32 = start + 1;
        let mut g: i32 = 0;
        while g < ALLOWED_GAP && end + g < seqlen
            invariant
                mask@.len() == seqlen,
                seqlen < 0x2000_0000,
                0 <= start < end <= seqlen,
                0 <= g <= ALLOWED_GAP,
                mask@[end - 1] == target,
                extend(mask@, target, start + 1, 0) == extend(mask@, target, end as int, g as int),
            ensures
                0 <= start < end <= seqlen,
                mask@[end - 1] == target,
                extend(mask@, target, start + 1, 0) == end,
            decreases seqlen - end - g,
        {
            let m = mask[(end + g) as usize];
            if m > target {
                break;
            }
            if m == target {
                end = end + g + 1;
                g = 0;
            } else {
                g = g + 1;
            }
        }
        end = end - 1;
        if end - start > max_end - max_start {
            max_end = end;
            max_start = start;
        }
        start = start + 1;
    }
    (max_start, max_end)
}

/// The segment of marks `target` kept for placement `gp`, if longer than
/// `THRESHOLD_LEN`.
pub open spec fn segment_of(m: Seq<u8>, target: u8, gp: GenePos) -> Seq<SeqMatch> {
    let (s, e) = best_from(m, target, 0, -1, -1);
    if e - s > THRESHOLD_LEN {
        seq![SeqMatch { seq_start: s as i32, seq_end: e as i32, start_gp: gp }]
    } else {
        Seq::empty()
    }
}

/// The segments of a read: that of its best placement, then that of its
/// second one.
pub open spec fn segments(m: Seq<u8>, gp1: GenePos, gp2: GenePos) -> Seq<SeqMatch> {
    if m.len() < 1 {
        Seq::empty()
    } else {
        segment_of(m, MATCH_TOP, gp1) + segment_of(m, MATCH_SECOND, gp2)
    }
}

/// The segments of the read that follow its best and its second placement,
/// in that order, each kept only when longer than `THRESHOLD_LEN`.
pub fn segment_mask(mask: &Vec<u8>, seqlen: i32, gp1: GenePos, gp2: GenePos) -> (r: Vec<SeqMatch>)
    requires
        mask@.len() == seqlen,
        seqlen < 0x2000_0000,
    ensures
        r@.len() <= 2,
        forall|k: int|
            0 <= k < r@.len() ==> {
                let m = #[trigger] r@[k];
                &&& 0 <= m.seq_start
                &&& m.seq_end < seqlen
                &&& m.seq_end - m.seq_start > THRESHOLD_LEN
                &&& mask@[m.seq_start as int] == mask@[m.seq_end as int]
                &&& (m.start_gp == gp1 && mask@[m.seq_start as int] == MATCH_TOP) || (m.start_gp
                    == gp2 && mask@[m.seq_start as int] == MATCH_SECOND)
            },
        r@.len() == 2 ==> r@[0].start_gp == gp1 && r@[1].start_gp == gp2,
        r@ == segments(mask@, gp1, gp2),
{
    let mut result: Vec<SeqMatch> = Vec::new();
    if seqlen < 1 {
        assert(result@ =~= segments(mask@, gp1, gp2));
        return result;
    }
    let (s1, e1) = longest_run(mask, seqlen, MATCH_TOP);
    if e1 - s1 > THRESHOLD_LEN {
        result.push(SeqMatch::new(s1, e1, gp1));
    }
    let (s2, e2) = longest_run(mask, seqlen, MATCH_SECOND);
    if e2 - s2 > THRESHOLD_LEN {
        result.push(SeqMatch::new(s2, e2, gp2));
    }
    assert(result@ =~= segments(mask@, gp1, gp2));
    result
}

} // verus!
