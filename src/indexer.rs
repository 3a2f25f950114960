//! The region index: every 16-base k-mer of the panel's gene regions, on both
//! strands, with its position, a side table for repeated k-mers, and a bloom
//! filter for quick rejection.
use vstd::prelude::*;
use std::collections::HashMap;
use crate::common::{GenePos, GlobalSettings, DUPE_HIGH_LEVEL, DUPE_NORMAL_LEVEL};
use crate::gene::Fusion;
use crate::read::SequenceRead;
use crate::kmer::{all_bases, gp_long_range, gp_of_long, gp_to_i64, i64_to_gp, kmer_of, make_kmer, shift, window, KMER};
use crate::mask::{count_at_most, count_mismatches, make_mask, segment_mask, segments, MATCH_NONE, MATCH_SECOND, MATCH_TOP, MATCH_UNKNOWN, THRESHOLD_LEN};
use crate::sequence::reverse_complement;

verus! {

broadcast use vstd::std_specs::hash::group_hash_axioms;

/// Number of bytes of the bloom filter: one bit for each possible k-mer.
pub const BLOOM_FILTER_SIZE: usize = 0x2000_0000;

/// Bound on the length of an indexed gene region.
pub const MAX_REGION_LEN: usize = 0x2000_0000;

/// A run of a read that belongs to one genomic placement.
#[derive(Clone, Copy, Debug, PartialEq, Eq, Structural)]
pub struct SeqMatch {
    pub seq_start: i32,
    pub seq_end: i32,
    pub start_gp: GenePos,
}

impl SeqMatch {
    pub fn new(seq_start: i32, seq_end: i32, start_gp: GenePos) -> (r: SeqMatch)
        ensures
            r == (SeqMatch { seq_start, seq_end, start_gp }),
    {
        SeqMatch { seq_start, seq_end, start_gp }
    }
}

/// Whether the bloom filter holds the bit of k-mer `k`.
pub open spec fn bloom_bit(bf: Seq<u8>, k: int) -> bool {
    bf[k / 8] & (1u8 << ((k % 8) as u8)) != 0
}

/// The duplicate table seen as sequences.
pub open spec fn dupes_view(d: Seq<Vec<GenePos>>) -> Seq<Seq<GenePos>> {
    d.map_values(|v: Vec<GenePos>| v@)
}

/// The index after `site` is recorded for k-mer `k`: a new k-mer is unique;
/// a second place turns it into a normal duplicate with a list of both; a
/// normal duplicate whose list has reached `threshold` becomes a high
/// duplicate and its list is emptied; a high duplicate stays as it is.
pub open spec fn inserted(
    m: Map<i64, GenePos>,
    d: Seq<Seq<GenePos>>,
    k: i64,
    site: GenePos,
    threshold: nat,
) -> (Map<i64, GenePos>, Seq<Seq<GenePos>>) {
    if !m.contains_key(k) {
        (m.insert(k, site), d)
    } else if m[k].contig == DUPE_HIGH_LEVEL {
        (m, d)
    } else if m[k].contig == DUPE_NORMAL_LEVEL {
        let p = m[k].position as int;
        if d[p].len() >= threshold {
            (m.insert(k, GenePos { contig: DUPE_HIGH_LEVEL, position: m[k].position }), d.update(p, Seq::empty()))
        } else {
            (m, d.update(p, d[p].push(site)))
        }
    } else {
        (
            m.insert(k, GenePos { contig: DUPE_NORMAL_LEVEL, position: d.len() as i32 }),
            d.push(seq![m[k], site]),
        )
    }
}

/// A k-mer that has become a high duplicate stays one whatever is recorded
/// afterwards.
pub proof fn lemma_high_duplicate_is_permanent(
    m: Map<i64, GenePos>,
    d: Seq<Seq<GenePos>>,
    k: i64,
    k2: i64,
    site: GenePos,
    threshold: nat,
)
    requires
        m.contains_key(k),
        m[k].contig == DUPE_HIGH_LEVEL,
    ensures
        inserted(m, d, k2, site, threshold).0.contains_key(k),
        inserted(m, d, k2, site, threshold).0[k].contig == DUPE_HIGH_LEVEL,
{
}

/// The index after the windows `0..i` of `seq` are recorded on contig
/// `ctg`, window `j` at `start + j`: each window of bases as `inserted`
/// states, the others skipped.
pub open spec fn indexed_fold(
    m: Map<i64, GenePos>,
    d: Seq<Seq<GenePos>>,
    seq: Seq<u8>,
    ctg: int,
    start: int,
    threshold: nat,
    i: int,
) -> (Map<i64, GenePos>, Seq<Seq<GenePos>>)
    decreases i,
{
    if i <= 0 {
        (m, d)
    } else {
        let prev = indexed_fold(m, d, seq, ctg, start, threshold, i - 1);
        let k = window_code(seq, i - 1);
        if k < 0 {
            prev
        } else {
            inserted(prev.0, prev.1, k as i64, GenePos { contig: ctg as i16, position: (start + i - 1) as i32 }, threshold)
        }
    }
}

/// A k-mer that is a high duplicate stays one however many windows are
/// recorded.
pub proof fn lemma_fold_keeps_high(
    m: Map<i64, GenePos>,
    d: Seq<Seq<GenePos>>,
    seq: Seq<u8>,
    ctg: int,
    start: int,
    threshold: nat,
    i: int,
    k: i64,
)
    requires
        m.contains_key(k),
        m[k].contig == DUPE_HIGH_LEVEL,
    ensures
        indexed_fold(m, d, seq, ctg, start, threshold, i).0.contains_key(k),
        indexed_fold(m, d, seq, ctg, start, threshold, i).0[k] == m[k],
    decreases i,
{
    if i > 0 {
        lemma_fold_keeps_high(m, d, seq, ctg, start, threshold, i - 1, k);
    }
}

/// A gene position that stands for a place on a gene region.
pub open spec fn site_ok(gp: GenePos, n_contigs: int) -> bool {
    &&& 0 <= gp.contig < n_contigs
    &&& -(MAX_REGION_LEN as int) < gp.position < MAX_REGION_LEN as int
}

/// The keys of the index only grow as sites are recorded.
pub proof fn lemma_inserted_keeps_keys(
    m: Map<i64, GenePos>,
    d: Seq<Seq<GenePos>>,
    k: i64,
    site: GenePos,
    threshold: nat,
)
    ensures
        inserted(m, d, k, site, threshold).0.contains_key(k),
        forall|k2: i64| m.contains_key(k2) ==> #[trigger] inserted(m, d, k, site, threshold).0.contains_key(k2),
        forall|k2: i64| #[trigger] inserted(m, d, k, site, threshold).0.contains_key(k2) ==> m.contains_key(k2) || k2 == k,
{
}

/// A named reference sequence.
#[derive(Clone, Debug)]
pub struct Contig {
    pub name: Vec<u8>,
    pub seq: Vec<u8>,
}

/// Upper case of an ASCII letter; other bytes stay.
pub open spec fn upper(b: u8) -> u8 {
    if 97 <= b <= 122 {
        (b - 32) as u8
    } else {
        b
    }
}

pub open spec fn upper_seq(s: Seq<u8>) -> Seq<u8> {
    s.map_values(|b: u8| upper(b))
}

/// Index of the first contig named `name` at or after `i`, if any.
pub open spec fn first_named(cs: Seq<Contig>, name: Seq<u8>, i: int) -> Option<int>
    decreases cs.len() - i,
{
    if i < 0 || i >= cs.len() {
        None
    } else if cs[i].name@ == name {
        Some(i)
    } else {
        first_named(cs, name, i + 1)
    }
}

pub proof fn lemma_first_named_in_range(cs: Seq<Contig>, name: Seq<u8>, i: int)
    ensures
        first_named(cs, name, i) matches Some(j) ==> 0 <= i <= j < cs.len(),
    decreases cs.len() - i,
{
    if 0 <= i < cs.len() && cs[i].name@ != name {
        lemma_first_named_in_range(cs, name, i + 1);
    }
}

pub open spec fn chr_prefix() -> Seq<u8> {
    seq![99u8, 104, 114]
}

/// The chromosome name without a leading `chr`.
pub open spec fn strip_chr(name: Seq<u8>) -> Seq<u8> {
    if name.len() >= 3 && name.subrange(0, 3) == chr_prefix() {
        name.subrange(3, name.len() as int)
    } else {
        name
    }
}

/// The contig a chromosome name stands for: the name itself, else with a
/// `chr` prefix added, else with a leading `chr` taken away.
pub open spec fn resolve(cs: Seq<Contig>, chr: Seq<u8>) -> Option<int> {
    match first_named(cs, chr, 0) {
        Some(i) => Some(i),
        None => match first_named(cs, chr_prefix() + chr, 0) {
            Some(i) => Some(i),
            None => first_named(cs, strip_chr(chr), 0),
        },
    }
}

/// The upper-cased region `[start, end)` of the resolved contig; empty when
/// the chromosome is not found or the region does not lie inside it.
pub open spec fn region_of(cs: Seq<Contig>, chr: Seq<u8>, start: int, end: int) -> Seq<u8> {
    match resolve(cs, chr) {
        Some(i) => if 0 <= start <= end <= cs[i].seq@.len() {
            upper_seq(cs[i].seq@.subrange(start, end))
        } else {
            Seq::empty()
        },
        None => Seq::empty(),
    }
}

/// Window `i` of region `s` and of its reverse complement, when it holds
/// only bases (the last window excepted), is a key of the index.
pub open spec fn region_indexed(m: Map<i64, GenePos>, s: Seq<u8>, i: int) -> bool {
    &&& (0 <= i < s.len() - KMER && all_bases(window(s, i)) ==> m.contains_key(kmer_of(window(s, i)) as i64))
    &&& (0 <= i < s.len() - KMER && all_bases(window(crate::sequence::revcomp(s), i)) ==> m.contains_key(
        kmer_of(window(crate::sequence::revcomp(s), i)) as i64,
    ))
}

/// The stored sequence of a region: regions too long to index are kept
/// empty.
pub open spec fn indexed_region(s: Seq<u8>) -> Seq<u8> {
    if s.len() >= MAX_REGION_LEN {
        Seq::empty()
    } else {
        s
    }
}

/// Index of the first contig named `name`.
pub fn find_contig(contigs: &Vec<Contig>, name: &[u8]) -> (r: Option<usize>)
    ensures
        r matches Some(i) ==> i < contigs@.len(),
        first_named(contigs@, name@, 0) == (match r {
            Some(i) => Some(i as int),
            None => None::<int>,
        }),
{
    let mut i: usize = 0;
    while i < contigs.len()
        invariant
            i <= contigs@.len(),
            first_named(contigs@, name@, 0) == first_named(contigs@, name@, i as int),
        decreases contigs@.len() - i,
    {
        if bytes_eq(contigs[i].name.as_slice(), name) {
            return Some(i);
        }
        i = i + 1;
    }
    None
}

/// Whether two byte strings are equal.
pub fn bytes_eq(a: &[u8], b: &[u8]) -> (r: bool)
    ensures
        r == (a@ == b@),
{
    if a.len() != b.len() {
        return false;
    }
    let mut i: usize = 0;
    while i < a.len()
        invariant
            a@.len() == b@.len(),
            i <= a@.len(),
            forall|j: int| 0 <= j < i ==> a@[j] == b@[j],
        decreases a@.len() - i,
    {
        if a[i] != b[i] {
            return false;
        }
        i = i + 1;
    }
    assert(a@ =~= b@);
    true
}

/// Resolves a chromosome name against the reference.
pub fn resolve_contig(contigs: &Vec<Contig>, chr: &[u8]) -> (r: Option<usize>)
    ensures
        r matches Some(i) ==> i < contigs@.len(),
        resolve(contigs@, chr@) == (match r {
            Some(i) => Some(i as int),
            None => None::<int>,
        }),
{
    if let Some(i) = find_contig(contigs, chr) {
        return Some(i);
    }
    let mut with: Vec<u8> = Vec::new();
    with.push(99);
    with.push(104);
    with.push(114);
    crate::text::push_all(&mut with, chr);
    assert(with@ =~= chr_prefix() + chr@);
    if let Some(i) = find_contig(contigs, with.as_slice()) {
        return Some(i);
    }
    let mut stripped: Vec<u8> = Vec::new();
    if chr.len() >= 3 && chr[0] == 99 && chr[1] == 104 && chr[2] == 114 {
        let mut j: usize = 3;
        while j < chr.len()
            invariant
                3 <= j <= chr@.len(),
                stripped@ == chr@.subrange(3, j as int),
            decreases chr@.len() - j,
        {
            stripped.push(chr[j]);
            j = j + 1;
            assert(stripped@ =~= chr@.subrange(3, j as int));
        }
        assert(chr@.subrange(0, 3) =~= chr_prefix());
    } else {
        crate::text::push_all(&mut stripped, chr);
        assert(stripped@ =~= chr@);
        proof {
            if chr@.len() >= 3 {
                assert(chr@.subrange(0, 3)[0] == chr@[0]);
                assert(chr@.subrange(0, 3)[1] == chr@[1]);
                assert(chr@.subrange(0, 3)[2] == chr@[2]);
            }
        }
    }
    find_contig(contigs, stripped.as_slice())
}

/// The upper-cased region `[start, end)` of the resolved contig.
pub fn extract_region(contigs: &Vec<Contig>, chr: &[u8], start: i32, end: i32) -> (r: Vec<u8>)
    ensures
        r@ == region_of(contigs@, chr@, start as int, end as int),
{
    proof {
        lemma_first_named_in_range(contigs@, chr@, 0);
        lemma_first_named_in_range(contigs@, chr_prefix() + chr@, 0);
        lemma_first_named_in_range(contigs@, strip_chr(chr@), 0);
    }
    match resolve_contig(contigs, chr) {
        None => {
            assert(resolve(contigs@, chr@) is None);
            Vec::new()
        },
        Some(i) => {
            assert(resolve(contigs@, chr@) == Some(i as int));
            let s = &contigs[i].seq;
            assert(s@ == contigs@[i as int].seq@);
            if start < 0 || end < start || end as usize > s.len() {
                return Vec::new();
            }
            let mut out: Vec<u8> = Vec::new();
            let mut j: usize = start as usize;
            while j < end as usize
                invariant
                    0 <= start <= end <= s@.len(),
                    start <= j <= end,
                    out@ == upper_seq(s@.subrange(start as int, j as int)),
                decreases end - j,
            {
                let b = s[j];
                let u = if 97 <= b && b <= 122 {
                    b - 32
                } else {
                    b
                };
                out.push(u);
                j = j + 1;
                assert(out@ =~= upper_seq(s@.subrange(start as int, j as int)));
            }
            out
        },
    }
}

/// The key of site `gp` moved back by `i`.
pub open spec fn moved_key(gp: GenePos, i: int) -> int {
    crate::kmer::gp_long(GenePos { contig: gp.contig, position: (gp.position - i) as i32 })
}

/// The placement keys that k-mer `kmer` at offset `i` of a read votes for.
pub open spec fn placement_keys(m: Map<i64, GenePos>, d: Seq<Seq<GenePos>>, kmer: i64, i: int) -> Seq<int> {
    if !m.contains_key(kmer) || m[kmer].contig == DUPE_HIGH_LEVEL {
        Seq::empty()
    } else if m[kmer].contig == DUPE_NORMAL_LEVEL {
        d[m[kmer].position as int].map_values(|gp: GenePos| moved_key(gp, i))
    } else {
        seq![moved_key(m[kmer], i)]
    }
}

/// Largest vote count kept for one placement.
pub const VOTE_CAP: i64 = 0x3FFF_FFFF;

/// The votes of a read: placement keys with their counts, one entry per key.
pub open spec fn votes_ok(votes: Seq<(i64, i64)>) -> bool {
    &&& forall|i: int|
        0 <= i < votes.len() ==> gp_long_range((#[trigger] votes[i]).0 as int) && 0 <= votes[i].1
            <= VOTE_CAP
    &&& forall|a: int, b: int| 0 <= a < b < votes.len() ==> (#[trigger] votes[a]).0 != (#[trigger] votes[b]).0
}

/// Adds one vote for placement `key`.
pub fn add_vote(votes: &mut Vec<(i64, i64)>, key: i64)
    requires
        votes_ok(old(votes)@),
        gp_long_range(key as int),
    ensures
        votes_ok(final(votes)@),
        final(votes)@ == vote_once(old(votes)@, key),
{
    let mut i: usize = 0;
    while i < votes.len()
        invariant
            votes_ok(votes@),
            votes@ == old(votes)@,
            i <= votes@.len(),
            gp_long_range(key as int),
            forall|j: int| 0 <= j < i ==> (#[trigger] votes@[j]).0 != key,
            find_key(votes@, key, 0) == find_key(votes@, key, i as int),
        decreases votes@.len() - i,
    {
        let (k, c) = votes[i];
        if k == key {
            let nc = if c < VOTE_CAP {
                c + 1
            } else {
                c
            };
            assert(find_key(old(votes)@, key, i as int) == Some(i as int));
            votes.set(i, (k, nc));
            return;
        }
        i = i + 1;
    }
    votes.push((key, 1));
}

/// Index of the first vote for `key` at or after `i`.
pub open spec fn find_key(votes: Seq<(i64, i64)>, key: i64, i: int) -> Option<int>
    decreases votes.len() - i,
{
    if i < 0 || i >= votes.len() {
        None
    } else if votes[i].0 == key {
        Some(i)
    } else {
        find_key(votes, key, i + 1)
    }
}

/// The votes after one more vote for `key`.
pub open spec fn vote_once(votes: Seq<(i64, i64)>, key: i64) -> Seq<(i64, i64)> {
    match find_key(votes, key, 0) {
        Some(p) => votes.update(
            p,
            (key, if votes[p].1 < VOTE_CAP {
                (votes[p].1 + 1) as i64
            } else {
                votes[p].1
            }),
        ),
        None => votes.push((key, 1i64)),
    }
}

/// The votes after one vote for each of `keys`, in order.
pub open spec fn vote_all(votes: Seq<(i64, i64)>, keys: Seq<int>) -> Seq<(i64, i64)>
    decreases keys.len(),
{
    if keys.len() == 0 {
        votes
    } else {
        vote_once(vote_all(votes, keys.drop_last()), keys.last() as i64)
    }
}

/// The k-mer of the window at `i`, or -1 when it holds anything but bases.
pub open spec fn window_code(s: Seq<u8>, i: int) -> int {
    if 0 <= i && i + KMER <= s.len() && all_bases(window(s, i)) {
        kmer_of(window(s, i))
    } else {
        -1
    }
}

/// The mark of a placement key against the two best placements.
pub open spec fn classify_spec(key: int, g1: i64, g2: i64) -> u8 {
    if -1 <= key - g1 <= 1 {
        MATCH_TOP
    } else if -1 <= key - g2 <= 1 {
        MATCH_SECOND
    } else if key == 0 {
        MATCH_NONE
    } else {
        MATCH_UNKNOWN
    }
}

/// The marks after raising the window at `start` to at least `f`.
pub open spec fn raise(m: Seq<u8>, f: u8, start: int) -> Seq<u8> {
    Seq::new(m.len(), |j: int| if start <= j < start + KMER && m[j] < f { f } else { m[j] })
}

/// The marks after the window at `i` is classified against each of `keys`.
pub open spec fn mark_all(m: Seq<u8>, keys: Seq<int>, g1: i64, g2: i64, i: int) -> Seq<u8>
    decreases keys.len(),
{
    if keys.len() == 0 {
        m
    } else {
        let m0 = mark_all(m, keys.drop_last(), g1, g2, i);
        let f = classify_spec(keys.last(), g1, g2);
        if f == MATCH_UNKNOWN {
            m0
        } else {
            raise(m0, f, i)
        }
    }
}

/// Number of windows of the first pass, one every two bases.
pub open spec fn coarse_windows(n: int) -> int {
    if n < KMER {
        0
    } else {
        (n - KMER) / 2 + 1
    }
}

/// Number of windows of the second pass, one at every base.
pub open spec fn fine_windows(n: int) -> int {
    if n < KMER {
        0
    } else {
        n - KMER + 1
    }
}

/// Whether `(k, v)` ranks above `(g, c)`: more votes, then the smaller key.
pub open spec fn ranks_above(k: i64, v: i64, g: i64, c: i64) -> bool {
    v > c || (v == c && v > 0 && k < g)
}

/// The two placements with the most votes, with their counts; key 0 takes
/// no part, ties go to the smaller key, and a missing placement is `(0, 0)`.
pub fn top_two(votes: &Vec<(i64, i64)>) -> (r: (i64, i64, i64, i64))
    requires
        votes_ok(votes@),
    ensures
        gp_long_range(r.0 as int),
        gp_long_range(r.2 as int),
        0 <= r.3 <= r.1 <= VOTE_CAP,
        top_of(votes@, votes@.len() as int, r.0, r.1),
        second_of(votes@, votes@.len() as int, r.0, r.1, r.2, r.3),
{
    let mut gp1: i64 = 0;
    let mut count1: i64 = 0;
    let mut gp2: i64 = 0;
    let mut count2: i64 = 0;
    let mut i: usize = 0;
    while i < votes.len()
        invariant
            votes_ok(votes@),
            i <= votes@.len(),
            gp_long_range(gp1 as int),
            gp_long_range(gp2 as int),
            0 <= count2 <= count1 <= VOTE_CAP,
            top_of(votes@, i as int, gp1, count1),
            second_of(votes@, i as int, gp1, count1, gp2, count2),
            (gp2, count2) == (0i64, 0i64) || !ranks_above(gp2, count2, gp1, count1),
        decreases votes@.len() - i,
    {
        let (k, v) = votes[i];
        proof {
            if gp1 != 0 {
                let w = choose|j: int| 0 <= j < i && #[trigger] votes@[j] == (gp1, count1) && gp1 != 0 && count1 > 0;
                assert(votes@[w].0 != votes@[i as int].0);
            }
        }
        if k != 0 {
            if v > count1 || (v == count1 && v > 0 && k < gp1) {
                gp2 = gp1;
                count2 = count1;
                gp1 = k;
                count1 = v;
            } else if k != gp1 && (v > count2 || (v == count2 && v > 0 && k < gp2)) {
                let ghost old2 = (gp2, count2);
                gp2 = k;
                count2 = v;
                assert forall|j: int|
                    0 <= j < i + 1 && (#[trigger] votes@[j]).0 != 0 && votes@[j] != (gp1, count1) implies votes@[j]
                    == (gp2, count2) || !ranks_above(votes@[j].0, votes@[j].1, gp2, count2) by {
                    if j < i && votes@[j] != old2 {
                        assert(!ranks_above(votes@[j].0, votes@[j].1, old2.0, old2.1));
                    }
                }
            }
        }
        i = i + 1;
    }
    (gp1, count1, gp2, count2)
}

/// The best-ranked vote is unique.
pub proof fn lemma_top_unique(v: Seq<(i64, i64)>, g: i64, c: i64, g2: i64, c2: i64)
    requires
        votes_ok(v),
        top_of(v, v.len() as int, g, c),
        top_of(v, v.len() as int, g2, c2),
    ensures
        g == g2 && c == c2,
{
    if (g, c) != (0i64, 0i64) {
        let j = choose|j: int| 0 <= j < v.len() && #[trigger] v[j] == (g, c) && g != 0 && c > 0;
        assert(v[j].0 != 0);
        if (g2, c2) != (0i64, 0i64) {
            let j2 = choose|j: int| 0 <= j < v.len() && #[trigger] v[j] == (g2, c2) && g2 != 0 && c2 > 0;
            assert(v[j2].0 != 0);
            if j != j2 {
                assert(v[j].0 != v[j2].0);
            }
        }
    } else if (g2, c2) != (0i64, 0i64) {
        let j2 = choose|j: int| 0 <= j < v.len() && #[trigger] v[j] == (g2, c2) && g2 != 0 && c2 > 0;
        assert(v[j2].0 != 0);
    }
}

/// The second best-ranked vote is unique.
pub proof fn lemma_second_unique(v: Seq<(i64, i64)>, g: i64, c: i64, a: i64, b: i64, a2: i64, b2: i64)
    requires
        votes_ok(v),
        second_of(v, v.len() as int, g, c, a, b),
        second_of(v, v.len() as int, g, c, a2, b2),
    ensures
        a == a2 && b == b2,
{
    if (a, b) != (0i64, 0i64) {
        let j = choose|j: int| 0 <= j < v.len() && #[trigger] v[j] == (a, b) && a != 0 && b > 0 && (a, b) != (g, c);
        assert(v[j].0 != 0);
        if (a2, b2) != (0i64, 0i64) {
            let j2 = choose|j: int| 0 <= j < v.len() && #[trigger] v[j] == (a2, b2) && a2 != 0 && b2 > 0 && (a2, b2) != (g, c);
            assert(v[j2].0 != 0);
            if j != j2 {
                assert(v[j].0 != v[j2].0);
            }
        }
    } else if (a2, b2) != (0i64, 0i64) {
        let j2 = choose|j: int| 0 <= j < v.len() && #[trigger] v[j] == (a2, b2) && a2 != 0 && b2 > 0 && (a2, b2) != (g, c);
        assert(v[j2].0 != 0);
    }
}

/// `(g, c)` is the best-ranked vote among the first `n`, or `(0, 0)` when
/// none has a vote.
pub open spec fn top_of(votes: Seq<(i64, i64)>, n: int, g: i64, c: i64) -> bool {
    &&& ((g, c) == (0i64, 0i64) || exists|j: int| 0 <= j < n && #[trigger] votes[j] == (g, c) && g != 0 && c > 0)
    &&& forall|j: int| 0 <= j < n && (#[trigger] votes[j]).0 != 0 ==> votes[j] == (g, c) || !ranks_above(votes[j].0, votes[j].1, g, c)
}

/// `(g2, c2)` is the best-ranked vote among the first `n` after `(g, c)`.
pub open spec fn second_of(votes: Seq<(i64, i64)>, n: int, g: i64, c: i64, g2: i64, c2: i64) -> bool {
    &&& ((g2, c2) == (0i64, 0i64) || exists|j: int| 0 <= j < n && #[trigger] votes[j] == (g2, c2) && g2 != 0 && c2 > 0
        && (g2, c2) != (g, c))
    &&& forall|j: int|
        0 <= j < n && (#[trigger] votes[j]).0 != 0 && votes[j] != (g, c) ==> votes[j] == (g2, c2) || !ranks_above(
            votes[j].0,
            votes[j].1,
            g2,
            c2,
        )
}

/// The mark of a placement key: the best or second placement within one
/// base, or no match for key 0.
pub fn classify(gplong: i64, gp1: i64, gp2: i64) -> (r: u8)
    requires
        gp_long_range(gplong as int),
        gp_long_range(gp1 as int),
        gp_long_range(gp2 as int),
    ensures
        r == (if -1 <= gplong - gp1 <= 1 {
            MATCH_TOP
        } else if -1 <= gplong - gp2 <= 1 {
            MATCH_SECOND
        } else if gplong == 0 {
            MATCH_NONE
        } else {
            MATCH_UNKNOWN
        }),
{
    let d1 = gplong - gp1;
    let d2 = gplong - gp2;
    if -1 <= d1 && d1 <= 1 {
        MATCH_TOP
    } else if -1 <= d2 && d2 <= 1 {
        MATCH_SECOND
    } else if gplong == 0 {
        MATCH_NONE
    } else {
        MATCH_UNKNOWN
    }
}

/// Orientation flag of gene `c`; an unknown gene counts as forward.
pub open spec fn reversed_at(fusions: Seq<Fusion>, c: int) -> bool {
    0 <= c < fusions.len() && fusions[c].m_gene.m_reversed
}

/// Whether a two-segment mapping is in the orientation that all supporting
/// reads of a fusion are brought to: both forward is kept, both reverse is
/// not (its reverse complement is), and mixed strands keep the forward gene
/// on the left, else the smaller contig on the left.
pub open spec fn required_direction(fusions: Seq<Fusion>, mapping: Seq<SeqMatch>) -> bool {
    if mapping.len() < 2 {
        false
    } else {
        let (l, r) = if mapping[0].seq_start > mapping[1].seq_start {
            (mapping[1], mapping[0])
        } else {
            (mapping[0], mapping[1])
        };
        if l.start_gp.position > 0 && r.start_gp.position > 0 {
            true
        } else if l.start_gp.position < 0 && r.start_gp.position < 0 {
            false
        } else {
            let lrev = reversed_at(fusions, l.start_gp.contig as int);
            let rrev = reversed_at(fusions, r.start_gp.contig as int);
            if lrev && !rrev {
                false
            } else if !lrev && rrev {
                true
            } else {
                l.start_gp.contig < r.start_gp.contig
            }
        }
    }
}

pub struct Indexer {
    pub m_fusions: Vec<Fusion>,
    pub m_kmer_pos: HashMap<i64, GenePos>,
    pub m_bloom_filter: Vec<u8>,
    pub m_dupe_list: Vec<Vec<GenePos>>,
    pub m_fusion_seq: Vec<Vec<u8>>,
    pub m_settings: GlobalSettings,
}

impl Indexer {
    pub open spec fn dupes(&self) -> Seq<Seq<GenePos>> {
        dupes_view(self.m_dupe_list@)
    }

    /// The invariant of the index.
    pub open spec fn wf(&self) -> bool {
        &&& self.m_bloom_filter@.len() == BLOOM_FILTER_SIZE
        &&& forall|c: int| 0 <= c < self.m_fusion_seq@.len() ==> (#[trigger] self.m_fusion_seq@[c])@.len() < MAX_REGION_LEN
        &&& forall|k: i64| #[trigger]
            self.m_kmer_pos@.contains_key(k) ==> 0 <= k < 0x1_0000_0000 && bloom_bit(
                self.m_bloom_filter@,
                k as int,
            ) && self.entry_ok(self.m_kmer_pos@[k])
        &&& forall|i: int, j: int|
            0 <= i < self.m_dupe_list@.len() && 0 <= j < self.m_dupe_list@[i]@.len() ==> site_ok(
                #[trigger] self.m_dupe_list@[i]@[j],
                self.m_fusions@.len() as int,
            )
    }

    /// An entry of the k-mer map: a place, or a duplicate marker.
    pub open spec fn entry_ok(&self, gp: GenePos) -> bool {
        ||| site_ok(gp, self.m_fusions@.len() as int)
        ||| (gp.contig == DUPE_NORMAL_LEVEL && 0 <= gp.position < self.m_dupe_list@.len())
        ||| gp.contig == DUPE_HIGH_LEVEL
    }

    /// An empty index over the given gene regions.
    pub fn new(fusions: Vec<Fusion>, settings: GlobalSettings) -> (r: Indexer)
        ensures
            r.wf(),
            r.m_fusions@ == fusions@,
            r.m_kmer_pos@ == Map::<i64, GenePos>::empty(),
            r.dupes().len() == 0,
            r.m_fusion_seq@.len() == 0,
            r.m_settings == settings,
    {
        Indexer {
            m_fusions: fusions,
            m_kmer_pos: HashMap::new(),
            m_bloom_filter: vec![0u8; BLOOM_FILTER_SIZE],
            m_dupe_list: Vec::new(),
            m_fusion_seq: Vec::new(),
            m_settings: settings,
        }
    }

    /// Whether the bloom filter may hold k-mer `k`; `false` means that the
    /// index does not hold it.
    pub fn bloom_contains(&self, kmer: i64) -> (r: bool)
        requires
            self.wf(),
            0 <= kmer < 0x1_0000_0000,
        ensures
            r == bloom_bit(self.m_bloom_filter@, kmer as int),
            !r ==> !self.m_kmer_pos@.contains_key(kmer),
    {
        let k = kmer as u64;
        let idx = (k / 8) as usize;
        let bit = (k % 8) as u8;
        self.m_bloom_filter[idx] & (1u8 << bit) != 0
    }

    fn set_bloom(&mut self, kmer: i64)
        requires
            old(self).wf(),
            0 <= kmer < 0x1_0000_0000,
        ensures
            final(self).m_bloom_filter@.len() == BLOOM_FILTER_SIZE,
            bloom_bit(final(self).m_bloom_filter@, kmer as int),
            forall|k2: int|
                0 <= k2 < 0x1_0000_0000 && bloom_bit(old(self).m_bloom_filter@, k2) ==> bloom_bit(
                    final(self).m_bloom_filter@,
                    k2,
                ),
            final(self).m_kmer_pos == old(self).m_kmer_pos,
            final(self).m_dupe_list == old(self).m_dupe_list,
            final(self).m_fusions == old(self).m_fusions,
            final(self).m_fusion_seq == old(self).m_fusion_seq,
            final(self).m_settings == old(self).m_settings,
    {
        let k = kmer as u64;
        let idx = (k / 8) as usize;
        let bit = (k % 8) as u8;
        let old_byte = self.m_bloom_filter[idx];
        let new_byte = old_byte | (1u8 << bit);
        self.m_bloom_filter.set(idx, new_byte);
        proof {
            assert(new_byte & (1u8 << bit) != 0) by (bit_vector)
                requires
                    new_byte == old_byte | (1u8 << bit),
                    bit < 8,
            ;
            assert forall|k2: int|
                0 <= k2 < 0x1_0000_0000 && bloom_bit(
                    old(self).m_bloom_filter@,
                    k2,
                ) implies bloom_bit(self.m_bloom_filter@, k2) by {
                if k2 / 8 == idx {
                    let b2 = (k2 % 8) as u8;
                    assert(new_byte & (1u8 << b2) != 0) by (bit_vector)
                        requires
                            new_byte == old_byte | (1u8 << bit),
                            old_byte & (1u8 << b2) != 0,
                    ;
                }
            }
        }
    }

    /// Extracts each gene's region from the reference and records its k-mers
    /// on both strands: forward k-mers at their offset, reverse-complement
    /// k-mers at `1 - length + offset`. A gene whose chromosome is not found
    /// keeps an empty region, and so does a region too long to index; a
    /// region that would overflow the duplicate table is kept but not
    /// indexed.
    pub fn make_index(&mut self, contigs: &Vec<Contig>)
        requires
            old(self).wf(),
            old(self).m_fusion_seq@.len() == 0,
            old(self).m_fusions@.len() < 0x8000,
        ensures
            final(self).wf(),
            final(self).m_fusions == old(self).m_fusions,
            final(self).m_settings == old(self).m_settings,
            final(self).m_fusion_seq@.len() == final(self).m_fusions@.len(),
            forall|c: int|
                0 <= c < final(self).m_fusion_seq@.len() ==> #[trigger] final(self).m_fusion_seq@[c]@
                    == indexed_region(region_of(
                    contigs@,
                    final(self).m_fusions@[c].m_gene.m_chr@,
                    final(self).m_fusions@[c].m_gene.m_start as int,
                    final(self).m_fusions@[c].m_gene.m_end as int,
                )),
            final(self).m_dupe_list@.len() < 0x1000_0000 ==> forall|c: int, i: int|
                0 <= c < final(self).m_fusion_seq@.len() ==> #[trigger] region_indexed(final(self).m_kmer_pos@, final(self).m_fusion_seq@[c]@, i),
    {
        let n = self.m_fusions.len();
        let mut ctg: usize = 0;
        while ctg < n
            invariant
                self.wf(),
                n == self.m_fusions@.len(),
                n < 0x8000,
                ctg <= n,
                self.m_fusion_seq@.len() == ctg,
                self.m_fusions == old(self).m_fusions,
                self.m_settings == old(self).m_settings,
                forall|c: int|
                    0 <= c < ctg ==> #[trigger] self.m_fusion_seq@[c]@ == indexed_region(region_of(
                        contigs@,
                        self.m_fusions@[c].m_gene.m_chr@,
                        self.m_fusions@[c].m_gene.m_start as int,
                        self.m_fusions@[c].m_gene.m_end as int,
                    )),
                self.m_dupe_list@.len() < 0x1000_0000 ==> forall|c: int, i: int|
                    0 <= c < ctg ==> #[trigger] region_indexed(self.m_kmer_pos@, self.m_fusion_seq@[c]@, i),
            decreases n - ctg,
        {
            let s = extract_region(
                contigs,
                self.m_fusions[ctg].m_gene.m_chr.as_slice(),
                self.m_fusions[ctg].m_gene.m_start,
                self.m_fusions[ctg].m_gene.m_end,
            );
            let len = s.len();
            let ghost k0 = self.m_kmer_pos@;
            let ghost fs0 = self.m_fusion_seq@;
            if len >= MAX_REGION_LEN {
                self.m_fusion_seq.push(Vec::new());
                proof {
                    assert forall|c: int, i: int| 0 <= c < ctg + 1 && self.m_dupe_list@.len() < 0x1000_0000 implies #[trigger] region_indexed(self.m_kmer_pos@, self.m_fusion_seq@[c]@, i) by {
                        if c == ctg {
                            assert(self.m_fusion_seq@[c]@.len() == 0);
                        } else {
                            assert(self.m_fusion_seq@[c] == fs0[c]);
                        }
                    }
                }
            } else {
                if 0 < len && self.m_dupe_list.len() < 0x1000_0000 {
                    self.index_contig(ctg, s.as_slice(), 0);
                    let ghost k1 = self.m_kmer_pos@;
                    let rc = reverse_complement(s.as_slice());
                    self.index_contig(ctg, rc.as_slice(), 1 - len as i32);
                    proof {
                        assert forall|i: int| #![trigger region_indexed(self.m_kmer_pos@, s@, i)] true implies region_indexed(self.m_kmer_pos@, s@, i) by {
                            if 0 <= i < s@.len() - KMER && all_bases(window(s@, i)) {
                                assert(k1.contains_key(kmer_of(window(s@, i)) as i64));
                            }
                            if 0 <= i < s@.len() - KMER && all_bases(window(crate::sequence::revcomp(s@), i)) {
                                assert(rc@ == crate::sequence::revcomp(s@));
                                assert(all_bases(window(rc@, i)));
                            }
                        }
                        assert forall|c: int, i: int| 0 <= c < ctg && self.m_dupe_list@.len() < 0x1000_0000 implies #[trigger] region_indexed(self.m_kmer_pos@, fs0[c]@, i) by {
                            assert(region_indexed(k0, fs0[c]@, i));
                        }
                    }
                }
                self.m_fusion_seq.push(s);
                proof {
                    assert forall|c: int, i: int|
                        0 <= c < ctg + 1 && self.m_dupe_list@.len() < 0x1000_0000 implies #[trigger] region_indexed(self.m_kmer_pos@, self.m_fusion_seq@[c]@, i) by {
                        if c < ctg {
                            assert(self.m_fusion_seq@[c] == fs0[c]);
                        }
                    }
                }
            }
            ctg = ctg + 1;
        }
    }

    /// Records every k-mer of `seq` but its last window, at `start` plus its
    /// offset, on contig `ctg`.
    pub fn index_contig(&mut self, ctg: usize, seq: &[u8], start: i32)
        requires
            old(self).wf(),
            ctg < old(self).m_fusions@.len(),
            ctg < 0x8000,
            seq@.len() < MAX_REGION_LEN,
            1 - seq@.len() <= start <= 0,
            old(self).m_dupe_list@.len() + seq@.len() < i32::MAX,
        ensures
            final(self).wf(),
            final(self).m_dupe_list@.len() <= old(self).m_dupe_list@.len() + seq@.len(),
            final(self).m_dupe_list@.len() >= old(self).m_dupe_list@.len(),
            forall|k: i64| old(self).m_kmer_pos@.contains_key(k) ==> #[trigger] final(self).m_kmer_pos@.contains_key(k),
            forall|i: int|
                0 <= i < seq@.len() - KMER && all_bases(#[trigger] window(seq@, i))
                    ==> final(self).m_kmer_pos@.contains_key(kmer_of(window(seq@, i)) as i64),
            forall|k: i64| #[trigger] final(self).m_kmer_pos@.contains_key(k) ==> old(self).m_kmer_pos@.contains_key(k)
                || exists|i: int| 0 <= i < seq@.len() - KMER && all_bases(#[trigger] window(seq@, i)) && kmer_of(window(seq@, i)) == k,
            (final(self).m_kmer_pos@, final(self).dupes()) == indexed_fold(
                old(self).m_kmer_pos@,
                old(self).dupes(),
                seq@,
                ctg as int,
                start as int,
                old(self).m_settings.skip_key_dup_threshold as nat,
                if seq@.len() <= KMER { 0 } else { seq@.len() - KMER },
            ),
            final(self).m_fusions == old(self).m_fusions,
            final(self).m_fusion_seq == old(self).m_fusion_seq,
            final(self).m_settings == old(self).m_settings,
    {
        let mut kmer: i64 = -1;
        let n = seq.len();
        if n <= KMER as usize {
            return;
        }
        let ghost md0 = (self.m_kmer_pos@, self.dupes());
        let last = (n - KMER as usize) as i32;
        let ghost d0 = self.m_dupe_list@.len();
        let ghost m0 = self.m_kmer_pos@;
        let mut i: i32 = 0;
        while i < last
            invariant
                self.wf(),
                0 <= i <= last,
                last == n - KMER,
                n == seq@.len(),
                ctg < self.m_fusions@.len(),
                ctg < 0x8000,
                seq@.len() < MAX_REGION_LEN,
                1 - seq@.len() <= start <= 0,
                d0 + seq@.len() < i32::MAX,
                self.m_dupe_list@.len() <= d0 + i,
                self.m_dupe_list@.len() >= d0,
                (self.m_kmer_pos@, self.dupes()) == indexed_fold(
                    md0.0,
                    md0.1,
                    seq@,
                    ctg as int,
                    start as int,
                    self.m_settings.skip_key_dup_threshold as nat,
                    i as int,
                ),
                kmer == -1 || (i >= 1 && all_bases(window(seq@, i - 1)) && kmer == kmer_of(
                    window(seq@, i - 1),
                )),
                forall|k: i64| m0.contains_key(k) ==> #[trigger] self.m_kmer_pos@.contains_key(k),
                forall|k: i64| #[trigger] self.m_kmer_pos@.contains_key(k) ==> m0.contains_key(k) || exists|j: int|
                    0 <= j < i && all_bases(#[trigger] window(seq@, j)) && kmer_of(window(seq@, j)) == k,
                forall|j: int|
                    0 <= j < i && all_bases(#[trigger] window(seq@, j)) ==> self.m_kmer_pos@.contains_key(
                        kmer_of(window(seq@, j)) as i64,
                    ),
                self.m_fusions == old(self).m_fusions,
                self.m_fusion_seq == old(self).m_fusion_seq,
                self.m_settings == old(self).m_settings,
            decreases last - i,
        {
            kmer = make_kmer(seq, i, kmer, 1);
            assert(window_code(seq@, i as int) == if kmer >= 0 { kmer as int } else { -1 });
            if kmer >= 0 {
                let site = GenePos { contig: ctg as i16, position: i + start };
                let ghost mb = self.m_kmer_pos@;
                proof {
                    lemma_inserted_keeps_keys(
                        self.m_kmer_pos@,
                        self.dupes(),
                        kmer,
                        site,
                        self.m_settings.skip_key_dup_threshold as nat,
                    );
                }
                self.insert_kmer(kmer, site);
                assert(kmer_of(window(seq@, i as int)) as i64 == kmer);
                assert(self.m_kmer_pos@.contains_key(kmer));
                assert forall|k: i64| #[trigger] self.m_kmer_pos@.contains_key(k) implies m0.contains_key(k) || exists|j: int|
                    0 <= j < i + 1 && all_bases(#[trigger] window(seq@, j)) && kmer_of(window(seq@, j)) == k by {
                    if k == kmer && !m0.contains_key(k) && !mb.contains_key(k) {
                        assert(all_bases(window(seq@, i as int)) && kmer_of(window(seq@, i as int)) == k);
                    }
                }
            }
            assert forall|j: int|
                0 <= j < i + 1 && all_bases(#[trigger] window(seq@, j)) implies self.m_kmer_pos@.contains_key(
                kmer_of(window(seq@, j)) as i64,
            ) by {
                if j == i {
                    assert(kmer >= 0);
                }
            }
            i = i + 1;
        }
    }

    /// The placements, as keys, that the k-mer at offset `i` of a read votes
    /// for: its own site, or each site of its duplicate list, moved back by
    /// `i`; none for an unknown k-mer or a high duplicate.
    pub fn placements(&self, kmer: i64, i: i32) -> (r: Vec<i64>)
        requires
            self.wf(),
            0 <= kmer < 0x1_0000_0000,
            0 <= i < MAX_REGION_LEN,
        ensures
            forall|j: int| 0 <= j < r@.len() ==> gp_long_range(#[trigger] r@[j] as int),
            !self.m_kmer_pos@.contains_key(kmer) ==> r@.len() == 0,
            r@.len() == placement_keys(self.m_kmer_pos@, self.dupes(), kmer, i as int).len(),
            forall|j: int|
                0 <= j < r@.len() ==> r@[j] as int == #[trigger] placement_keys(
                    self.m_kmer_pos@,
                    self.dupes(),
                    kmer,
                    i as int,
                )[j],
    {
        let mut out: Vec<i64> = Vec::new();
        if !self.bloom_contains(kmer) {
            return out;
        }
        match self.m_kmer_pos.get(&kmer) {
            None => {},
            Some(found) => {
                let gp = *found;
                if gp.contig == DUPE_HIGH_LEVEL {
                } else if gp.contig == DUPE_NORMAL_LEVEL {
                    let p = gp.position as usize;
                    let list = &self.m_dupe_list[p];
                    let mut g: usize = 0;
                    while g < list.len()
                        invariant
                            self.wf(),
                            p < self.m_dupe_list@.len(),
                            list == self.m_dupe_list@[p as int],
                            g <= list@.len(),
                            0 <= i < MAX_REGION_LEN,
                            out@.len() == g,
                            forall|j: int| 0 <= j < out@.len() ==> gp_long_range(#[trigger] out@[j] as int),
                            forall|j: int| 0 <= j < g ==> out@[j] as int == moved_key(#[trigger] list@[j], i as int),
                        decreases list@.len() - g,
                    {
                        assert(site_ok(list@[g as int], self.m_fusions@.len() as int));
                        let moved = shift(&list[g], i);
                        out.push(gp_to_i64(&moved));
                        g = g + 1;
                    }
                    assert(self.dupes()[p as int] == list@);
                } else {
                    assert(site_ok(gp, self.m_fusions@.len() as int));
                    let moved = shift(&gp, i);
                    out.push(gp_to_i64(&moved));
                }
            },
        }
        out
    }

    /// A read that the index can place: the best and second placements of
    /// the coarse pass have enough votes, and the fine pass leaves at most
    /// the allowed number of bases matched by neither.
    pub open spec fn mappable(&self, s: Seq<u8>) -> bool {
        let v = self.votes_for(s, coarse_windows(s.len() as int));
        exists|g1: i64, c1: i64, g2: i64, c2: i64|
            #![trigger top_of(v, v.len() as int, g1, c1), second_of(v, v.len() as int, g1, c1, g2, c2)]
            top_of(v, v.len() as int, g1, c1) && second_of(v, v.len() as int, g1, c1, g2, c2) && c1 * 2
                >= self.m_settings.major_gene_key_requirement && c2 * 2
                >= self.m_settings.minor_gene_key_requirement && count_at_most(
                self.mask_for(s, g1, g2, fine_windows(s.len() as int)),
                MATCH_NONE,
            ) <= self.m_settings.mismatch_threshold
    }

    /// The segments `r` are those of the read's marks against its best and
    /// second placements, which pass the thresholds of `mappable`.
    pub open spec fn mapped_as(&self, s: Seq<u8>, r: Seq<SeqMatch>) -> bool {
        let v = self.votes_for(s, coarse_windows(s.len() as int));
        exists|g1: i64, c1: i64, g2: i64, c2: i64|
            #![trigger top_of(v, v.len() as int, g1, c1), second_of(v, v.len() as int, g1, c1, g2, c2)]
            top_of(v, v.len() as int, g1, c1) && second_of(v, v.len() as int, g1, c1, g2, c2) && c1 * 2
                >= self.m_settings.major_gene_key_requirement && c2 * 2
                >= self.m_settings.minor_gene_key_requirement && count_at_most(
                self.mask_for(s, g1, g2, fine_windows(s.len() as int)),
                MATCH_NONE,
            ) <= self.m_settings.mismatch_threshold && gp_long_range(g1 as int) && gp_long_range(
                g2 as int,
            ) && r == segments(
                self.mask_for(s, g1, g2, fine_windows(s.len() as int)),
                gp_of_long(g1 as int),
                gp_of_long(g2 as int),
            )
    }

    /// The votes of the first `c` windows of the coarse pass, at offsets 0,
    /// 2, 4 and so on.
    pub open spec fn votes_for(&self, s: Seq<u8>, c: int) -> Seq<(i64, i64)>
        decreases c,
    {
        if c <= 0 {
            Seq::empty()
        } else {
            let v = self.votes_for(s, c - 1);
            let i = 2 * (c - 1);
            let k = window_code(s, i);
            if k < 0 {
                v
            } else {
                vote_all(v, placement_keys(self.m_kmer_pos@, self.dupes(), k as i64, i))
            }
        }
    }

    /// The marks of the bases of `s` after the first `c` windows of the fine
    /// pass against placements `g1` and `g2`.
    pub open spec fn mask_for(&self, s: Seq<u8>, g1: i64, g2: i64, c: int) -> Seq<u8>
        decreases c,
    {
        if c <= 0 {
            Seq::new(s.len(), |j: int| MATCH_UNKNOWN)
        } else {
            let m = self.mask_for(s, g1, g2, c - 1);
            let i = c - 1;
            let k = window_code(s, i);
            if k < 0 {
                m
            } else {
                mark_all(m, placement_keys(self.m_kmer_pos@, self.dupes(), k as i64, i), g1, g2, i)
            }
        }
    }

    /// Maps a read sequence on the index: at most two segments, the one that
    /// follows the best placement first. A read that no two placements
    /// support well enough, or with too many bases matched by neither, gives
    /// none.
    pub fn map_seq(&self, seq: &[u8]) -> (r: Vec<SeqMatch>)
        requires
            self.wf(),
        ensures
            r@.len() <= 2,
            forall|k: int|
                0 <= k < r@.len() ==> {
                    let m = #[trigger] r@[k];
                    &&& 0 <= m.seq_start
                    &&& m.seq_end < seq@.len()
                    &&& m.seq_end - m.seq_start > THRESHOLD_LEN
                },
            r@.len() > 0 ==> self.mappable(seq@) && self.mapped_as(seq@, r@),
            seq@.len() < MAX_REGION_LEN && self.mappable(seq@) ==> self.mapped_as(seq@, r@),
            seq@.len() < MAX_REGION_LEN ==> forall|mp: Seq<SeqMatch>| #[trigger] self.mapped_as(seq@, mp) ==> mp == r@,
    {
        let n = seq.len();
        if n >= MAX_REGION_LEN {
            return Vec::new();
        }
        let seqlen = n as i32;
        let mut votes: Vec<(i64, i64)> = Vec::new();
        let mut kmer: i64 = -1;
        let mut i: i32 = 0;
        while i + KMER <= seqlen
            invariant
                self.wf(),
                n == seq@.len(),
                seqlen == n,
                n < MAX_REGION_LEN,
                0 <= i,
                i % 2 == 0,
                i <= seqlen + 2,
                i == 0 || i + KMER <= seqlen + 2,
                votes_ok(votes@),
                votes@ == self.votes_for(seq@, i / 2),
                kmer == -1 || (i >= 2 && all_bases(window(seq@, i - 2)) && kmer == kmer_of(
                    window(seq@, i - 2),
                )),
            decreases seqlen + 2 - i,
        {
            kmer = make_kmer(seq, i, kmer, 2);
            let ghost v0 = votes@;
            let ghost c = i / 2 + 1;
            assert(2 * (c - 1) == i);
            if kmer >= 0 {
                let keys = self.placements(kmer, i);
                let ghost pk = placement_keys(self.m_kmer_pos@, self.dupes(), kmer, i as int);
                let mut q: usize = 0;
                while q < keys.len()
                    invariant
                        votes_ok(votes@),
                        q <= keys@.len(),
                        keys@.len() == pk.len(),
                        forall|j: int| 0 <= j < keys@.len() ==> gp_long_range(#[trigger] keys@[j] as int),
                        forall|j: int| 0 <= j < keys@.len() ==> keys@[j] as int == #[trigger] pk[j],
                        votes@ == vote_all(v0, pk.subrange(0, q as int)),
                    decreases keys@.len() - q,
                {
                    assert(pk.subrange(0, q + 1).drop_last() =~= pk.subrange(0, q as int));
                    assert(keys@[q as int] as int == pk[q as int]);
                    add_vote(&mut votes, keys[q]);
                    q = q + 1;
                }
                assert(pk.subrange(0, pk.len() as int) =~= pk);
                assert(window_code(seq@, i as int) == kmer);
            } else {
                assert(window_code(seq@, i as int) == -1);
            }
            i = i + 2;
        }
        assert(i / 2 == coarse_windows(n as int));
        let (gp1, count1, gp2, count2) = top_two(&votes);
        let ghost v = votes@;
        proof {
            if self.mappable(seq@) {
                let (w1, wc1, w2, wc2) = choose|g1: i64, c1: i64, g2: i64, c2: i64|
                    top_of(v, v.len() as int, g1, c1) && second_of(v, v.len() as int, g1, c1, g2, c2) && c1 * 2
                        >= self.m_settings.major_gene_key_requirement && c2 * 2
                        >= self.m_settings.minor_gene_key_requirement && count_at_most(
                        self.mask_for(seq@, g1, g2, fine_windows(seq@.len() as int)),
                        MATCH_NONE,
                    ) <= self.m_settings.mismatch_threshold;
                lemma_top_unique(v, w1, wc1, gp1, count1);
                lemma_second_unique(v, gp1, count1, w2, wc2, gp2, count2);
            }
            assert forall|mp: Seq<SeqMatch>| #[trigger] self.mapped_as(seq@, mp) implies count1 * 2
                >= self.m_settings.major_gene_key_requirement && count2 * 2
                >= self.m_settings.minor_gene_key_requirement && count_at_most(
                self.mask_for(seq@, gp1, gp2, fine_windows(seq@.len() as int)),
                MATCH_NONE,
            ) <= self.m_settings.mismatch_threshold && mp == segments(
                self.mask_for(seq@, gp1, gp2, fine_windows(seq@.len() as int)),
                gp_of_long(gp1 as int),
                gp_of_long(gp2 as int),
            ) by {
                let (w1, wc1, w2, wc2) = choose|g1: i64, c1: i64, g2: i64, c2: i64|
                    top_of(v, v.len() as int, g1, c1) && second_of(v, v.len() as int, g1, c1, g2, c2) && c1 * 2
                        >= self.m_settings.major_gene_key_requirement && c2 * 2
                        >= self.m_settings.minor_gene_key_requirement && count_at_most(
                        self.mask_for(seq@, g1, g2, fine_windows(seq@.len() as int)),
                        MATCH_NONE,
                    ) <= self.m_settings.mismatch_threshold && gp_long_range(g1 as int) && gp_long_range(
                        g2 as int,
                    ) && mp == segments(
                        self.mask_for(seq@, g1, g2, fine_windows(seq@.len() as int)),
                        gp_of_long(g1 as int),
                        gp_of_long(g2 as int),
                    );
                lemma_top_unique(v, w1, wc1, gp1, count1);
                lemma_second_unique(v, gp1, count1, w2, wc2, gp2, count2);
            }
        }
        if (count1 * 2) < self.m_settings.major_gene_key_requirement as i64 || (count2 * 2)
            < self.m_settings.minor_gene_key_requirement as i64 {
            return Vec::new();
        }
        let mut mask: Vec<u8> = vec![MATCH_UNKNOWN; n];
        assert(mask@ =~= self.mask_for(seq@, gp1, gp2, 0));
        kmer = -1;
        let mut i: i32 = 0;
        while i + KMER <= seqlen
            invariant
                self.wf(),
                n == seq@.len(),
                seqlen == n,
                n < MAX_REGION_LEN,
                0 <= i <= seqlen + 1,
                i == 0 || i + KMER <= seqlen + 1,
                mask@.len() == n,
                mask@ == self.mask_for(seq@, gp1, gp2, i as int),
                gp_long_range(gp1 as int),
                gp_long_range(gp2 as int),
                kmer == -1 || (i >= 1 && all_bases(window(seq@, i - 1)) && kmer == kmer_of(
                    window(seq@, i - 1),
                )),
            decreases seqlen + 1 - i,
        {
            kmer = make_kmer(seq, i, kmer, 1);
            let ghost m0 = mask@;
            if kmer >= 0 {
                let keys = self.placements(kmer, i);
                let ghost pk = placement_keys(self.m_kmer_pos@, self.dupes(), kmer, i as int);
                let mut q: usize = 0;
                while q < keys.len()
                    invariant
                        mask@.len() == n,
                        n == seqlen,
                        n < MAX_REGION_LEN,
                        0 <= i <= seqlen,
                        q <= keys@.len(),
                        keys@.len() == pk.len(),
                        gp_long_range(gp1 as int),
                        gp_long_range(gp2 as int),
                        forall|j: int| 0 <= j < keys@.len() ==> gp_long_range(#[trigger] keys@[j] as int),
                        forall|j: int| 0 <= j < keys@.len() ==> keys@[j] as int == #[trigger] pk[j],
                        mask@ == mark_all(m0, pk.subrange(0, q as int), gp1, gp2, i as int),
                    decreases keys@.len() - q,
                {
                    assert(pk.subrange(0, q + 1).drop_last() =~= pk.subrange(0, q as int));
                    assert(keys@[q as int] as int == pk[q as int]);
                    let ghost mb = mask@;
                    let flag = classify(keys[q], gp1, gp2);
                    if flag != MATCH_UNKNOWN {
                        make_mask(&mut mask, flag, seqlen, i, KMER);
                        assert(mask@ =~= raise(mb, flag, i as int));
                    }
                    q = q + 1;
                }
                assert(pk.subrange(0, pk.len() as int) =~= pk);
                assert(window_code(seq@, i as int) == kmer);
            } else {
                assert(window_code(seq@, i as int) == -1);
            }
            i = i + 1;
        }
        assert(i == fine_windows(n as int));
        let mismatches = count_mismatches(&mask);
        if mismatches as i64 > self.m_settings.mismatch_threshold as i64 {
            return Vec::new();
        }
        assert(top_of(votes@, votes@.len() as int, gp1, count1) && second_of(votes@, votes@.len() as int, gp1, count1, gp2, count2));
        let r = segment_mask(&mask, seqlen, i64_to_gp(gp1), i64_to_gp(gp2));
        assert(self.mapped_as(seq@, r@));
        r
    }

    pub fn is_reversed_at(&self, c: i16) -> (r: bool)
        ensures
            r == reversed_at(self.m_fusions@, c as int),
    {
        if c < 0 || c as usize >= self.m_fusions.len() {
            return false;
        }
        self.m_fusions[c as usize].is_reversed()
    }

    /// Whether the mapping is in the required orientation.
    pub fn in_required_direction(&self, mapping: &[SeqMatch]) -> (r: bool)
        ensures
            r == required_direction(self.m_fusions@, mapping@),
    {
        if mapping.len() < 2 {
            return false;
        }
        let (left, right) = if mapping[0].seq_start > mapping[1].seq_start {
            (mapping[1], mapping[0])
        } else {
            (mapping[0], mapping[1])
        };
        if left.start_gp.position > 0 && right.start_gp.position > 0 {
            return true;
        }
        if left.start_gp.position < 0 && right.start_gp.position < 0 {
            return false;
        }
        let lrev = self.is_reversed_at(left.start_gp.contig);
        let rrev = self.is_reversed_at(right.start_gp.contig);
        if lrev && !rrev {
            false
        } else if !lrev && rrev {
            true
        } else {
            left.start_gp.contig < right.start_gp.contig
        }
    }

    /// Maps a read on the index, as `map_seq` does its bases.
    pub fn map_read(&self, r: &SequenceRead) -> (res: Vec<SeqMatch>)
        requires
            self.wf(),
        ensures
            res@.len() <= 2,
            forall|k: int|
                0 <= k < res@.len() ==> {
                    let m = #[trigger] res@[k];
                    &&& 0 <= m.seq_start
                    &&& m.seq_end < r.m_seq@.len()
                    &&& m.seq_end - m.seq_start > THRESHOLD_LEN
                },
            res@.len() > 0 ==> self.mappable(r.m_seq@) && self.mapped_as(r.m_seq@, res@),
            r.m_seq@.len() < MAX_REGION_LEN && self.mappable(r.m_seq@) ==> self.mapped_as(r.m_seq@, res@),
            r.m_seq@.len() < MAX_REGION_LEN ==> forall|mp: Seq<SeqMatch>| #[trigger] self.mapped_as(r.m_seq@, mp) ==> mp == res@,
    {
        self.map_seq(r.m_seq.m_str.as_slice())
    }

    /// Records that k-mer `kmer` occurs at `site`.
    pub fn insert_kmer(&mut self, kmer: i64, site: GenePos)
        requires
            old(self).wf(),
            0 <= kmer < 0x1_0000_0000,
            site_ok(site, old(self).m_fusions@.len() as int),
            old(self).m_dupe_list@.len() < i32::MAX,
        ensures
            final(self).wf(),
            (final(self).m_kmer_pos@, final(self).dupes()) == inserted(
                old(self).m_kmer_pos@,
                old(self).dupes(),
                kmer,
                site,
                old(self).m_settings.skip_key_dup_threshold as nat,
            ),
            final(self).m_dupe_list@.len() <= old(self).m_dupe_list@.len() + 1,
            final(self).m_dupe_list@.len() >= old(self).m_dupe_list@.len(),
            final(self).m_fusions == old(self).m_fusions,
            final(self).m_fusion_seq == old(self).m_fusion_seq,
            final(self).m_settings == old(self).m_settings,
    {
        let ghost d0 = self.dupes();
        let ghost m0 = self.m_kmer_pos@;
        match self.m_kmer_pos.get(&kmer) {
            None => {
                self.set_bloom(kmer);
                self.m_kmer_pos.insert(kmer, site);
                assert(self.dupes() =~= d0);
            },
            Some(found) => {
                let gp = *found;
                if gp.contig == DUPE_HIGH_LEVEL {
                } else if gp.contig == DUPE_NORMAL_LEVEL {
                    let p = gp.position as usize;
                    if self.m_dupe_list[p].len() >= self.m_settings.skip_key_dup_threshold {
                        self.m_kmer_pos.insert(
                            kmer,
                            GenePos { contig: DUPE_HIGH_LEVEL, position: gp.position },
                        );
                        self.m_dupe_list.set(p, Vec::new());
                        assert(self.dupes() =~= d0.update(p as int, Seq::empty()));
                    } else {
                        let mut l = self.m_dupe_list[p].clone();
                        l.push(site);
                        self.m_dupe_list.set(p, l);
                        assert(self.dupes() =~= d0.update(p as int, d0[p as int].push(site)));
                    }
                } else {
                    let mut gps: Vec<GenePos> = Vec::new();
                    gps.push(gp);
                    gps.push(site);
                    assert(gps@ =~= seq![gp, site]);
                    let n = self.m_dupe_list.len();
                    self.m_dupe_list.push(gps);
                    self.m_kmer_pos.insert(
                        kmer,
                        GenePos { contig: DUPE_NORMAL_LEVEL, position: n as i32 },
                    );
                    assert(self.dupes() =~= d0.push(seq![gp, site]));
                }
            },
        }
    }
}

} // verus!
