//! A whole-reference matcher that tells whether a read aligns to the genome
//! without a breakpoint. Only k-mers of the candidate reads are indexed: a
//! bloom filter of those k-mers selects what to record while the reference
//! is scanned.
use vstd::prelude::*;
use std::collections::HashMap;
use crate::common::GenePos;
use crate::indexer::{add_vote, bloom_bit, find_key, fine_windows, moved_key, ranks_above, vote_all, votes_ok, window_code, Contig, BLOOM_FILTER_SIZE};
use crate::kmer::{all_bases, gp_long_range, gp_to_i64, i64_to_gp, kmer_of, make_kmer, shift, window, KMER};
use crate::sequence::{revcomp, reverse_complement};

verus! {

broadcast use vstd::std_specs::hash::group_hash_axioms;

/// K-mers seen at more places than this do not vote.
pub const SKIP_THRESHOLD: usize = 50;

/// Number of best placements tried.
pub const TOP: usize = 5;

/// A read aligns when fewer bases than this are left uncovered.
pub const MAX_MISMATCHES: usize = 10;

/// Bound on the length of an indexed contig.
pub const MAX_CONTIG_LEN: usize = 0x4000_0000;

/// Gene positions in increasing order: by contig, then by position.
pub open spec fn gp_lt(a: GenePos, b: GenePos) -> bool {
    a.contig < b.contig || (a.contig == b.contig && a.position < b.position)
}

pub open spec fn sorted_gps(s: Seq<GenePos>) -> bool {
    forall|i: int, j: int| 0 <= i < j < s.len() ==> gp_lt(s[i], s[j])
}

/// Where a read aligns without a breakpoint.
#[derive(Debug)]
pub struct MatchResult {
    pub start_gp: GenePos,
    pub reversed: bool,
    /// Offsets of the bases that no consistent k-mer covers.
    pub mismatches: Vec<i32>,
}

pub struct Matcher {
    pub m_kmer_positions: HashMap<i64, Vec<GenePos>>,
    pub m_bloom_filter_array: Vec<u8>,
    pub m_contig_names: Vec<Vec<u8>>,
}

impl Matcher {
    /// The invariant of the matcher: every list of places is sorted and
    /// holds places on indexed contigs.
    pub open spec fn wf(&self) -> bool {
        &&& self.m_bloom_filter_array@.len() == BLOOM_FILTER_SIZE
        &&& forall|k: i64| #[trigger] self.m_kmer_positions@.contains_key(k) ==> sorted_gps(
            self.m_kmer_positions@[k]@,
        ) && places_ok(self.m_kmer_positions@[k]@)
    }

    pub fn new() -> (r: Matcher)
        ensures
            r.wf(),
            r.m_kmer_positions@ == Map::<i64, Vec<GenePos>>::empty(),
    {
        Matcher { m_kmer_positions: HashMap::new(), m_bloom_filter_array: vec![0u8; BLOOM_FILTER_SIZE], m_contig_names: Vec::new() }
    }

    fn set_bloom(&mut self, kmer: i64)
        requires
            old(self).wf(),
            0 <= kmer < 0x1_0000_0000,
        ensures
            final(self).wf(),
            bloom_bit(final(self).m_bloom_filter_array@, kmer as int),
            forall|k2: int|
                0 <= k2 < 0x1_0000_0000 && bloom_bit(old(self).m_bloom_filter_array@, k2) ==> bloom_bit(
                    final(self).m_bloom_filter_array@,
                    k2,
                ),
            final(self).m_kmer_positions == old(self).m_kmer_positions,
            final(self).m_contig_names == old(self).m_contig_names,
    {
        let k = kmer as u64;
        let idx = (k / 8) as usize;
        let bit = (k % 8) as u8;
        let old_byte = self.m_bloom_filter_array[idx];
        let new_byte = old_byte | (1u8 << bit);
        self.m_bloom_filter_array.set(idx, new_byte);
        assert(new_byte & (1u8 << bit) != 0) by (bit_vector)
            requires
                new_byte == old_byte | (1u8 << bit),
                bit < 8,
        ;
        proof {
            assert forall|k2: int|
                0 <= k2 < 0x1_0000_0000 && bloom_bit(old(self).m_bloom_filter_array@, k2) implies bloom_bit(
                self.m_bloom_filter_array@,
                k2,
            ) by {
                lemma_bloom_kept(old(self).m_bloom_filter_array@, self.m_bloom_filter_array@, kmer as int, k2);
            }
        }
    }

    pub fn bloom_contains(&self, kmer: i64) -> (r: bool)
        requires
            self.wf(),
            0 <= kmer < 0x1_0000_0000,
        ensures
            r == bloom_bit(self.m_bloom_filter_array@, kmer as int),
    {
        let k = kmer as u64;
        let idx = (k / 8) as usize;
        let bit = (k % 8) as u8;
        self.m_bloom_filter_array[idx] & (1u8 << bit) != 0
    }

    /// Sets the bloom bit of every k-mer of `seq`.
    pub fn init_bloom_filter_with_seq(&mut self, seq: &[u8])
        requires
            old(self).wf(),
            seq@.len() < MAX_CONTIG_LEN,
        ensures
            final(self).wf(),
            final(self).m_kmer_positions == old(self).m_kmer_positions,
            final(self).m_contig_names == old(self).m_contig_names,
            forall|i: int|
                0 <= i && i + KMER <= seq@.len() && all_bases(#[trigger] window(seq@, i)) ==> bloom_bit(
                    final(self).m_bloom_filter_array@,
                    kmer_of(window(seq@, i)),
                ),
    {
        let n = seq.len();
        let mut kmer: i64 = -1;
        let mut i: i32 = 0;
        while (i as usize) + (KMER as usize) <= n
            invariant
                self.wf(),
                n == seq@.len(),
                n < MAX_CONTIG_LEN,
                0 <= i <= n + 1,
                kmer == -1 || (i >= 1 && all_bases(window(seq@, i - 1)) && kmer == kmer_of(window(seq@, i - 1))),
                self.m_kmer_positions == old(self).m_kmer_positions,
                self.m_contig_names == old(self).m_contig_names,
                forall|j: int|
                    0 <= j < i && j + KMER <= seq@.len() && all_bases(#[trigger] window(seq@, j)) ==> bloom_bit(
                        self.m_bloom_filter_array@,
                        kmer_of(window(seq@, j)),
                    ),
            decreases n + 1 - i,
        {
            kmer = make_kmer(seq, i, kmer, 1);
            let ghost bf0 = self.m_bloom_filter_array@;
            if kmer >= 0 {
                self.set_bloom(kmer);
                proof {
                    assert forall|j: int|
                        0 <= j < i && j + KMER <= seq@.len() && all_bases(#[trigger] window(seq@, j)) implies bloom_bit(
                        self.m_bloom_filter_array@,
                        kmer_of(window(seq@, j)),
                    ) by {
                        crate::kmer::lemma_kmer_bound(window(seq@, j));
                        reveal_with_fuel(crate::kmer::pow4, 17);
                    }
                }
            }
            i = i + 1;
        }
    }

    /// Sets the bloom bits of the k-mers of every candidate read and of its
    /// reverse complement.
    pub fn init_bloom_filter(&mut self, seqs: &Vec<Vec<u8>>)
        requires
            old(self).wf(),
        ensures
            final(self).wf(),
            final(self).m_kmer_positions == old(self).m_kmer_positions,
    {
        let mut s: usize = 0;
        while s < seqs.len()
            invariant
                self.wf(),
                self.m_kmer_positions == old(self).m_kmer_positions,
            decreases seqs@.len() - s,
        {
            if seqs[s].len() < MAX_CONTIG_LEN {
                self.init_bloom_filter_with_seq(seqs[s].as_slice());
                let rc = reverse_complement(seqs[s].as_slice());
                self.init_bloom_filter_with_seq(rc.as_slice());
            }
            s = s + 1;
        }
    }

    /// Records, for every k-mer of contig `ctg` whose bloom bit is set, its
    /// place; the places of a k-mer stay sorted as contigs are indexed in
    /// increasing order.
    pub fn index_contig(&mut self, ctg: i16, seq: &[u8])
        requires
            old(self).wf(),
            0 <= ctg,
            seq@.len() < MAX_CONTIG_LEN,
            forall|k: i64| #[trigger] old(self).m_kmer_positions@.contains_key(k) ==> all_before(
                old(self).m_kmer_positions@[k]@,
                ctg,
            ),
        ensures
            final(self).wf(),
            forall|k: i64| #[trigger] final(self).m_kmer_positions@.contains_key(k) ==> all_before(
                final(self).m_kmer_positions@[k]@,
                (ctg + 1) as i16,
            ) || ctg == i16::MAX,
    {
        let n = seq.len();
        let mut kmer: i64 = -1;
        let mut i: i32 = 0;
        while (i as usize) + (KMER as usize) <= n
            invariant
                self.wf(),
                n == seq@.len(),
                n < MAX_CONTIG_LEN,
                0 <= ctg,
                0 <= i <= n + 1,
                kmer == -1 || (i >= 1 && all_bases(window(seq@, i - 1)) && kmer == kmer_of(window(seq@, i - 1))),
                forall|k: i64| #[trigger] self.m_kmer_positions@.contains_key(k) ==> all_before_at(
                    self.m_kmer_positions@[k]@,
                    ctg,
                    i as int,
                ),
            decreases n + 1 - i,
        {
            kmer = make_kmer(seq, i, kmer, 1);
            if kmer >= 0 && self.bloom_contains(kmer) {
                let site = GenePos { contig: ctg, position: i };
                let ghost m0 = self.m_kmer_positions@;
                let mut list: Vec<GenePos> = match self.m_kmer_positions.get(&kmer) {
                    Some(l) => l.clone(),
                    None => Vec::new(),
                };
                assert(m0.contains_key(kmer) ==> list@ =~= m0[kmer]@);
                let ghost before = list@;
                list.push(site);
                proof {
                    assert forall|a: int, b: int| 0 <= a < b < list@.len() implies gp_lt(list@[a], list@[b]) by {
                        if b == list@.len() - 1 && a < before.len() {
                            assert(list@[a] == before[a]);
                        }
                    }
                }
                self.m_kmer_positions.insert(kmer, list);
            }
            i = i + 1;
        }
        proof {
            assert forall|k: i64| #[trigger] self.m_kmer_positions@.contains_key(k) implies all_before(
                self.m_kmer_positions@[k]@,
                (ctg + 1) as i16,
            ) || ctg == i16::MAX by {
                if ctg < i16::MAX {
                    let s = self.m_kmer_positions@[k]@;
                    assert forall|j: int| 0 <= j < s.len() implies (#[trigger] s[j]).contig < ctg + 1 by {}
                }
            }
        }
    }

    /// Indexes every contig of the reference, in order; contigs past the
    /// largest contig number, or too long, are left out.
    pub fn make_index(&mut self, contigs: &Vec<Contig>)
        requires
            old(self).wf(),
            old(self).m_kmer_positions@ == Map::<i64, Vec<GenePos>>::empty(),
        ensures
            final(self).wf(),
    {
        let n = contigs.len();
        let mut c: usize = 0;
        while c < n && c < 0x7FFF
            invariant
                self.wf(),
                c <= n,
                n == contigs@.len(),
                forall|k: i64| #[trigger] self.m_kmer_positions@.contains_key(k) ==> all_before(
                    self.m_kmer_positions@[k]@,
                    c as i16,
                ),
            decreases n - c,
        {
            self.m_contig_names.push(contigs[c].name.clone());
            if contigs[c].seq.len() < MAX_CONTIG_LEN {
                let up = upper_bytes(contigs[c].seq.as_slice());
                self.index_contig(c as i16, up.as_slice());
            } else {
                proof {
                    assert forall|k: i64| #[trigger] self.m_kmer_positions@.contains_key(k) implies all_before(
                        self.m_kmer_positions@[k]@,
                        (c + 1) as i16,
                    ) by {
                        let s = self.m_kmer_positions@[k]@;
                        assert forall|j: int| 0 <= j < s.len() implies (#[trigger] s[j]).contig < c + 1 by {}
                    }
                }
            }
            c = c + 1;
        }
    }

    /// Whether k-mer `kmer` at offset `seqpos` of a read has a place within
    /// `threshold` of placement `thisgp`, found by binary search.
    pub fn is_consistent(&self, thisgp: i64, kmer: i64, seqpos: i32, threshold: i32) -> (r: bool)
        requires
            self.wf(),
            self.m_kmer_positions@.contains_key(kmer),
            0 <= seqpos < 0x1000_0000,
            0 <= threshold <= 16,
        ensures
            r == (gp_long_range(thisgp as int) && exists|j: int|
                0 <= j < self.m_kmer_positions@[kmer]@.len() && near(
                    #[trigger] self.m_kmer_positions@[kmer]@[j],
                    i64_to_gp_spec(thisgp) ,
                    seqpos as int,
                    threshold as int,
                )),
    {
        if !(-0x8000_0000_0000 <= thisgp && thisgp < 0x8000_0000_0000) {
            return false;
        }
        let gps = match self.m_kmer_positions.get(&kmer) {
            Some(g) => g,
            None => {
                return false;
            },
        };
        let t = i64_to_gp(thisgp);
        let tc = t.contig;
        let tp: i64 = t.position as i64 + seqpos as i64;
        let mut left: usize = 0;
        let mut right: usize = gps.len();
        while left < right
            invariant
                right <= gps@.len(),
                left <= right,
                sorted_gps(gps@),
                gps@ == self.m_kmer_positions@[kmer]@,
                t == i64_to_gp_spec(thisgp),
                gp_long_range(thisgp as int),
                tc == t.contig,
                tp == t.position + seqpos,
                0 <= threshold <= 16,
                forall|j: int| 0 <= j < left ==> !near(#[trigger] gps@[j], t, seqpos as int, threshold as int),
                forall|j: int| right <= j < gps@.len() ==> !near(#[trigger] gps@[j], t, seqpos as int, threshold as int),
            decreases right - left,
        {
            let center = left + (right - left) / 2;
            let c = gps[center];
            let cp = c.position as i64;
            if c.contig < tc || (c.contig == tc && cp < tp - threshold as i64) {
                proof {
                    assert forall|j: int| 0 <= j < center + 1 implies !near(#[trigger] gps@[j], t, seqpos as int, threshold as int) by {
                        if j < center {
                            assert(gp_lt(gps@[j], gps@[center as int]));
                        }
                    }
                }
                left = center + 1;
            } else if c.contig > tc || (c.contig == tc && cp > tp + threshold as i64) {
                proof {
                    assert forall|j: int| center <= j < gps@.len() implies !near(#[trigger] gps@[j], t, seqpos as int, threshold as int) by {
                        if j > center {
                            assert(gp_lt(gps@[center as int], gps@[j]));
                        }
                    }
                }
                right = center;
            } else {
                assert(near(self.m_kmer_positions@[kmer]@[center as int], t, seqpos as int, threshold as int));
                assert(gp_long_range(thisgp as int));
                assert(exists|j: int|
                    0 <= j < self.m_kmer_positions@[kmer]@.len() && near(
                        #[trigger] self.m_kmer_positions@[kmer]@[j],
                        i64_to_gp_spec(thisgp),
                        seqpos as int,
                        threshold as int,
                    ));
                return true;
            }
        }
        false
    }
}

/// The vote count of `g`, for a key that has votes.
pub open spec fn count_of(votes: Seq<(i64, i64)>, g: i64) -> i64 {
    match find_key(votes, g, 0) {
        Some(p) => votes[p].1,
        None => 0,
    }
}

/// A vote for a key with votes that is not among `taken`.
pub open spec fn candidate(votes: Seq<(i64, i64)>, taken: Seq<i64>, q: int) -> bool {
    0 <= q < votes.len() && votes[q].0 != 0 && votes[q].1 > 0 && !taken.contains(votes[q].0)
}

/// `g` is the best-ranked placement among those not in `taken`.
pub open spec fn best_outside(votes: Seq<(i64, i64)>, taken: Seq<i64>, g: i64) -> bool {
    &&& g != 0
    &&& !taken.contains(g)
    &&& count_of(votes, g) > 0
    &&& forall|q: int| #[trigger] candidate(votes, taken, q) ==> votes[q].0 == g || !ranks_above(
        votes[q].0,
        votes[q].1,
        g,
        count_of(votes, g),
    )
}

pub proof fn lemma_find_key_at(votes: Seq<(i64, i64)>, idx: int, i: int)
    requires
        votes_ok(votes),
        0 <= i <= idx < votes.len(),
    ensures
        find_key(votes, votes[idx].0, i) == Some(idx),
    decreases idx - i,
{
    if i < idx {
        assert(votes[i].0 != votes[idx].0);
        lemma_find_key_at(votes, idx, i + 1);
    }
}

/// Up to `TOP` placements with votes, most votes first, the smaller key
/// first on ties; key 0 takes no part.
pub fn top_placements(votes: &Vec<(i64, i64)>) -> (r: Vec<i64>)
    requires
        votes_ok(votes@),
    ensures
        r@.len() <= TOP,
        forall|j: int| 0 <= j < r@.len() ==> gp_long_range(#[trigger] r@[j] as int) && r@[j] != 0,
        forall|a: int, b: int| 0 <= a < b < r@.len() ==> r@[a] != r@[b],
        forall|a: int| 0 <= a < r@.len() ==> best_outside(votes@, r@.subrange(0, a), #[trigger] r@[a]),
        r@.len() < TOP ==> forall|q: int| !#[trigger] candidate(votes@, r@, q),
{
    let mut chosen: Vec<i64> = Vec::new();
    let mut round: usize = 0;
    while round < TOP
        invariant
            votes_ok(votes@),
            chosen@.len() == round <= TOP,
            forall|j: int| 0 <= j < chosen@.len() ==> gp_long_range(#[trigger] chosen@[j] as int) && chosen@[j] != 0,
            forall|a: int, b: int| 0 <= a < b < chosen@.len() ==> chosen@[a] != chosen@[b],
            forall|a: int| 0 <= a < chosen@.len() ==> best_outside(votes@, chosen@.subrange(0, a), #[trigger] chosen@[a]),
        decreases TOP - round,
    {
        let mut best: i64 = 0;
        let mut best_count: i64 = 0;
        let ghost mut at: int = 0;
        let mut i: usize = 0;
        while i < votes.len()
            invariant
                votes_ok(votes@),
                i <= votes@.len(),
                best_count == 0 <==> best == 0,
                best != 0 ==> gp_long_range(best as int) && !chosen@.contains(best) && 0 <= at < i && votes@[at]
                    == (best, best_count) && best_count > 0,
                0 <= best_count,
                forall|q: int| 0 <= q < i && #[trigger] candidate(votes@, chosen@, q) ==> votes@[q].0 == best
                    || !ranks_above(votes@[q].0, votes@[q].1, best, best_count),
            decreases votes@.len() - i,
        {
            let (k, c) = votes[i];
            if k != 0 && c > 0 && !contains_key(&chosen, k) && (c > best_count || (c == best_count && k < best)) {
                best = k;
                best_count = c;
                proof {
                    at = i as int;
                }
            }
            i = i + 1;
        }
        if best == 0 {
            assert forall|q: int| !#[trigger] candidate(votes@, chosen@, q) by {
                if candidate(votes@, chosen@, q) {
                    assert(!ranks_above(votes@[q].0, votes@[q].1, 0, 0));
                }
            }
            return chosen;
        }
        proof {
            lemma_find_key_at(votes@, at, 0);
            assert(count_of(votes@, best) == best_count);
        }
        let ghost before = chosen@;
        chosen.push(best);
        assert forall|a: int, b: int| 0 <= a < b < chosen@.len() implies chosen@[a] != chosen@[b] by {
            if b == chosen@.len() - 1 {
                assert(chosen@[a] == before[a]);
                assert(before.contains(before[a]));
            }
        }
        assert forall|a: int| 0 <= a < chosen@.len() implies best_outside(votes@, chosen@.subrange(0, a), #[trigger] chosen@[a]) by {
            assert(chosen@.subrange(0, a) =~= if a < before.len() { before.subrange(0, a) } else { before });
            if a < before.len() {
                assert(chosen@[a] == before[a]);
            } else {
                assert(chosen@[a] == best);
                assert(before.subrange(0, before.len() as int) =~= before);
            }
        }
        round = round + 1;
    }
    chosen
}

fn contains_key(v: &Vec<i64>, k: i64) -> (r: bool)
    ensures
        r == v@.contains(k),
{
    let mut i: usize = 0;
    while i < v.len()
        invariant
            i <= v@.len(),
            forall|j: int| 0 <= j < i ==> v@[j] != k,
        decreases v@.len() - i,
    {
        if v[i] == k {
            assert(v@[i as int] == k);
            return true;
        }
        i = i + 1;
    }
    false
}

impl Matcher {
    /// Tries to align a sequence without a breakpoint: places vote as in the
    /// region index (k-mers seen at more than `SKIP_THRESHOLD` places do not
    /// vote), and for each of the best placements the bases covered by a
    /// k-mer with a place within 2 bases of it are counted; the first
    /// placement that leaves fewer than `MAX_MISMATCHES` bases uncovered is
    /// the match.
    pub fn map_to_index(&self, seq: &[u8]) -> (r: Option<MatchResult>)
        requires
            self.wf(),
        ensures
            r matches Some(m) ==> m.mismatches@.len() < MAX_MISMATCHES && !m.reversed && self.aligns(seq@, m),
            seq@.len() < 0x1000_0000 ==> self.aligned(seq@, result_view(r)),
            seq@.len() < 0x1000_0000 ==> votes_ok(self.matcher_votes(seq@, fine_windows(seq@.len() as int))),
            seq@.len() >= 0x1000_0000 ==> r is None,
    {
        let n = seq.len();
        if n >= 0x1000_0000 {
            return None;
        }
        let mut votes: Vec<(i64, i64)> = Vec::new();
        let mut kmers: Vec<i64> = Vec::new();
        let mut kmer: i64 = -1;
        let mut i: i32 = 0;
        while (i as usize) + (KMER as usize) <= n
            invariant
                self.wf(),
                n == seq@.len(),
                n < 0x1000_0000,
                0 <= i <= n + 1,
                i == 0 || i + 15 <= n,
                kmers@.len() == i,
                forall|j: int| 0 <= j < i ==> #[trigger] kmers@[j] as int == window_code(seq@, j),
                votes_ok(votes@),
                votes@ == self.matcher_votes(seq@, i as int),
                kmer == -1 || (i >= 1 && all_bases(window(seq@, i - 1)) && kmer == kmer_of(window(seq@, i - 1))),
                forall|j: int| 0 <= j < kmers@.len() ==> -1 <= #[trigger] kmers@[j] < 0x1_0000_0000,
            decreases n + 1 - i,
        {
            kmer = make_kmer(seq, i, kmer, 1);
            kmers.push(kmer);
            assert(kmers@[i as int] as int == window_code(seq@, i as int));
            let ghost v0 = votes@;
            if kmer >= 0 {
                match self.m_kmer_positions.get(&kmer) {
                    None => {},
                    Some(list) => {
                        if list.len() <= SKIP_THRESHOLD {
                            let ghost pk = self.place_keys(kmer, i as int);
                            let mut g: usize = 0;
                            while g < list.len()
                                invariant
                                    votes_ok(votes@),
                                    g <= list@.len(),
                                    places_ok(list@),
                                    0 <= i < 0x1000_0000,
                                    pk == list@.map_values(|gp: GenePos| moved_key(gp, i as int)),
                                    votes@ == vote_all(v0, pk.subrange(0, g as int)),
                                decreases list@.len() - g,
                            {
                                assert(pk.subrange(0, g + 1).drop_last() =~= pk.subrange(0, g as int));
                                let moved = shift(&list[g], i);
                                add_vote(&mut votes, gp_to_i64(&moved));
                                g = g + 1;
                            }
                            assert(pk.subrange(0, pk.len() as int) =~= pk);
                        }
                    },
                }
            }
            i = i + 1;
        }
        let tops = top_placements(&votes);
        assert(kmers@.len() == fine_windows(n as int));
        assert(ranked_tops(votes@, tops@));
        let mut t: usize = 0;
        while t < tops.len()
            invariant
                self.wf(),
                ranked_tops(votes@, tops@),
                votes_ok(votes@),
                votes@ == self.matcher_votes(seq@, fine_windows(n as int)),
                self.first_fit(seq@, tops@, 0) == self.first_fit(seq@, tops@, t as int),
                n == seq@.len(),
                n < 0x1000_0000,
                kmers@.len() == fine_windows(n as int),
                forall|j: int| 0 <= j < kmers@.len() ==> #[trigger] kmers@[j] as int == window_code(seq@, j),
                forall|j: int| 0 <= j < kmers@.len() ==> -1 <= #[trigger] kmers@[j] < 0x1_0000_0000,
                forall|j: int| 0 <= j < tops@.len() ==> gp_long_range(#[trigger] tops@[j] as int),
            decreases tops@.len() - t,
        {
            let top = tops[t];
            let mut mask: Vec<u8> = vec![0u8; n];
            assert(mask@ =~= self.cover_mask(seq@, top, 0));
            let mut w: usize = 0;
            while w < kmers.len()
                invariant
                    self.wf(),
                    n == seq@.len(),
                    mask@.len() == n,
                    n < 0x1000_0000,
                    w <= kmers@.len(),
                    kmers@.len() == fine_windows(n as int),
                    gp_long_range(top as int),
                    mask@ == self.cover_mask(seq@, top, w as int),
                    forall|j: int| 0 <= j < kmers@.len() ==> #[trigger] kmers@[j] as int == window_code(seq@, j),
                    forall|j: int| 0 <= j < kmers@.len() ==> -1 <= #[trigger] kmers@[j] < 0x1_0000_0000,
                decreases kmers@.len() - w,
            {
                let k = kmers[w];
                let ghost m0 = mask@;
                assert(k as int == window_code(seq@, w as int));
                if k >= 0 && self.m_kmer_positions.contains_key(&k) && self.is_consistent(top, k, w as i32, 2) {
                    let end = w + KMER as usize;
                    let mut m: usize = w;
                    while m < end
                        invariant
                            mask@.len() == n,
                            w <= m <= end,
                            end == w + KMER,
                            end <= n,
                            forall|j: int| 0 <= j < n ==> #[trigger] mask@[j] == if w <= j < m {
                                1u8
                            } else {
                                m0[j]
                            },
                        decreases end - m,
                    {
                        mask.set(m, 1);
                        m = m + 1;
                    }
                    assert(mask@ =~= Seq::new(m0.len(), |j: int| if w <= j < w + KMER { 1u8 } else { m0[j] }));
                } else {
                    assert(!(k >= 0 && self.consistent_at(top, k, w as int)));
                }
                w = w + 1;
            }
            let mut mismatches: Vec<i32> = Vec::new();
            let mut j: usize = 0;
            while j < n
                invariant
                    mask@.len() == n,
                    n < 0x1000_0000,
                    j <= n,
                    mismatches@ == uncovered(mask@, j as int),
                    mismatches@.len() <= j,
                decreases n - j,
            {
                if mask[j] == 0 {
                    mismatches.push(j as i32);
                }
                j = j + 1;
            }
            if mismatches.len() < MAX_MISMATCHES {
                let r = MatchResult { start_gp: i64_to_gp(top), reversed: false, mismatches };
                assert(r.mismatches@ == uncovered(self.cover_mask(seq@, top, fine_windows(seq@.len() as int)), seq@.len() as int));
                assert(self.first_fit(seq@, tops@, t as int) == Some(t as int));
                assert(result_view(Some(r)) == self.align_result(seq@, tops@));
                return Some(r);
            }
            t = t + 1;
        }
        assert(result_view(None) == self.align_result(seq@, tops@));
        None
    }

    /// Aligns a sequence and its reverse complement, keeping the one with
    /// fewer uncovered bases, the sequence itself on ties.
    pub fn do_match(&self, seq: &[u8]) -> (r: Option<MatchResult>)
        requires
            self.wf(),
        ensures
            r matches Some(m) ==> m.mismatches@.len() < MAX_MISMATCHES && self.aligns(
                if m.reversed {
                    revcomp(seq@)
                } else {
                    seq@
                },
                m,
            ),
            seq@.len() < 0x1000_0000 ==> self.votes_known(seq@) && exists|f: Option<(GenePos, Seq<i32>)>, b: Option<(GenePos, Seq<i32>)>|
                #![trigger self.aligned(seq@, f), self.aligned(revcomp(seq@), b)]
                self.aligned(seq@, f) && self.aligned(revcomp(seq@), b) && full_view(r) == combine(f, b),
    {
        let rc = reverse_complement(seq);
        let fwd = self.map_to_index(seq);
        let ghost fv = result_view(fwd);
        assert(fwd matches Some(m) ==> self.aligns(seq@, m));
        let rev0 = self.map_to_index(rc.as_slice());
        let ghost bv = result_view(rev0);
        let rev = match rev0 {
            Some(m) => {
                assert(self.aligns(rc@, m));
                let x = MatchResult { start_gp: m.start_gp, reversed: true, mismatches: m.mismatches };
                assert(self.aligns(rc@, x));
                Some(x)
            },
            None => None,
        };
        let r = match (fwd, rev) {
            (None, r) => r,
            (Some(f), None) => Some(f),
            (Some(f), Some(r)) => if f.mismatches.len() <= r.mismatches.len() {
                Some(f)
            } else {
                Some(r)
            },
        };
        assert(full_view(r) == combine(fv, bv));
        r
    }

    /// The vote tables of `s` and of its reverse complement are well formed.
    pub open spec fn votes_known(&self, s: Seq<u8>) -> bool {
        &&& votes_ok(self.matcher_votes(s, fine_windows(s.len() as int)))
        &&& votes_ok(self.matcher_votes(revcomp(s), fine_windows(s.len() as int)))
    }

    /// Neither `s` nor its reverse complement aligns.
    pub open spec fn unaligned(&self, s: Seq<u8>) -> bool {
        exists|f: Option<(GenePos, Seq<i32>)>, b: Option<(GenePos, Seq<i32>)>|
            #![trigger self.aligned(s, f), self.aligned(revcomp(s), b)]
            self.aligned(s, f) && self.aligned(revcomp(s), b) && combine(f, b) is None
    }

    /// The alignment of a sequence is unique.
    pub proof fn lemma_aligned_unique(&self, s: Seq<u8>, f1: Option<(GenePos, Seq<i32>)>, f2: Option<(GenePos, Seq<i32>)>)
        requires
            votes_ok(self.matcher_votes(s, fine_windows(s.len() as int))),
            self.aligned(s, f1),
            self.aligned(s, f2),
        ensures
            f1 == f2,
    {
        let v = self.matcher_votes(s, fine_windows(s.len() as int));
        let t1 = choose|t: Seq<i64>| #[trigger] ranked_tops(v, t) && f1 == self.align_result(s, t);
        let t2 = choose|t: Seq<i64>| #[trigger] ranked_tops(v, t) && f2 == self.align_result(s, t);
        lemma_ranked_unique(v, t1, t2);
    }

    /// A matcher over the whole reference for the k-mers of `seqs`.
    pub fn from_ref_and_seqs(contigs: &Vec<Contig>, seqs: &Vec<Vec<u8>>) -> (r: Matcher)
        ensures
            r.wf(),
    {
        let mut m = Matcher::new();
        m.init_bloom_filter(seqs);
        m.make_index(contigs);
        m
    }
}

/// The offsets among the first `j` whose mark is 0.
pub open spec fn uncovered(m: Seq<u8>, j: int) -> Seq<i32>
    decreases j,
{
    if j <= 0 {
        Seq::empty()
    } else {
        let u = uncovered(m, j - 1);
        if m[j - 1] == 0 {
            u.push((j - 1) as i32)
        } else {
            u
        }
    }
}

impl Matcher {
    /// K-mer `k` at offset `i` of a read has a place within 2 bases of
    /// placement `top`.
    pub open spec fn consistent_at(&self, top: i64, k: i64, i: int) -> bool {
        &&& gp_long_range(top as int)
        &&& self.m_kmer_positions@.contains_key(k)
        &&& exists|j: int|
            0 <= j < self.m_kmer_positions@[k]@.len() && near(
                #[trigger] self.m_kmer_positions@[k]@[j],
                i64_to_gp_spec(top),
                i,
                2,
            )
    }

    /// `m` places `s` at some placement and lists exactly the bases that no
    /// consistent k-mer covers.
    pub open spec fn aligns(&self, s: Seq<u8>, m: MatchResult) -> bool {
        exists|top: i64|
            #![trigger self.cover_mask(s, top, fine_windows(s.len() as int))]
            gp_long_range(top as int) && m.start_gp == i64_to_gp_spec(top) && m.mismatches@ == uncovered(
                self.cover_mask(s, top, fine_windows(s.len() as int)),
                s.len() as int,
            )
    }

    /// The bases of `s` covered, after the first `c` windows, by k-mers
    /// consistent with placement `top`, marked 1.
    pub open spec fn cover_mask(&self, s: Seq<u8>, top: i64, c: int) -> Seq<u8>
        decreases c,
    {
        if c <= 0 {
            Seq::new(s.len(), |j: int| 0u8)
        } else {
            let m = self.cover_mask(s, top, c - 1);
            let i = c - 1;
            let k = window_code(s, i);
            if k >= 0 && self.consistent_at(top, k as i64, i) {
                Seq::new(m.len(), |j: int| if i <= j < i + KMER { 1u8 } else { m[j] })
            } else {
                m
            }
        }
    }
}

/// The placements that `top_placements` picks from `votes`: best-ranked
/// first, each the best outside those before it, all of them when fewer
/// than `TOP`.
pub open spec fn ranked_tops(votes: Seq<(i64, i64)>, t: Seq<i64>) -> bool {
    &&& t.len() <= TOP
    &&& forall|a: int| 0 <= a < t.len() ==> best_outside(votes, t.subrange(0, a), #[trigger] t[a])
    &&& (t.len() < TOP ==> forall|q: int| !#[trigger] candidate(votes, t, q))
}

pub proof fn lemma_find_key_some(votes: Seq<(i64, i64)>, k: i64, i: int)
    ensures
        find_key(votes, k, i) matches Some(p) ==> 0 <= p < votes.len() && votes[p].0 == k,
    decreases votes.len() - i,
{
    if 0 <= i < votes.len() && votes[i].0 != k {
        lemma_find_key_some(votes, k, i + 1);
    }
}

/// The best placement outside a set is unique.
pub proof fn lemma_best_outside_unique(votes: Seq<(i64, i64)>, taken: Seq<i64>, g: i64, g2: i64)
    requires
        votes_ok(votes),
        best_outside(votes, taken, g),
        best_outside(votes, taken, g2),
    ensures
        g == g2,
{
    lemma_find_key_some(votes, g, 0);
    lemma_find_key_some(votes, g2, 0);
    let p = find_key(votes, g, 0)->Some_0;
    let p2 = find_key(votes, g2, 0)->Some_0;
    assert(candidate(votes, taken, p));
    assert(candidate(votes, taken, p2));
}

pub proof fn lemma_ranked_prefix(votes: Seq<(i64, i64)>, t1: Seq<i64>, t2: Seq<i64>, a: int, m: int)
    requires
        votes_ok(votes),
        ranked_tops(votes, t1),
        ranked_tops(votes, t2),
        0 <= a <= m,
        m <= t1.len(),
        m <= t2.len(),
        t1.subrange(0, a) == t2.subrange(0, a),
    ensures
        t1.subrange(0, m) == t2.subrange(0, m),
    decreases m - a,
{
    if a < m {
        assert(best_outside(votes, t1.subrange(0, a), t1[a]));
        assert(best_outside(votes, t2.subrange(0, a), t2[a]));
        lemma_best_outside_unique(votes, t1.subrange(0, a), t1[a], t2[a]);
        assert(t1.subrange(0, a + 1) =~= t2.subrange(0, a + 1));
        lemma_ranked_prefix(votes, t1, t2, a + 1, m);
    }
}

/// The placements ranked from one vote table are unique.
pub proof fn lemma_ranked_unique(votes: Seq<(i64, i64)>, t1: Seq<i64>, t2: Seq<i64>)
    requires
        votes_ok(votes),
        ranked_tops(votes, t1),
        ranked_tops(votes, t2),
    ensures
        t1 == t2,
{
    let m: int = if t1.len() < t2.len() { t1.len() as int } else { t2.len() as int };
    assert(t1.subrange(0, 0) =~= t2.subrange(0, 0));
    lemma_ranked_prefix(votes, t1, t2, 0, m);
    if t1.len() < t2.len() {
        assert(t2.subrange(0, m) =~= t1);
        assert(best_outside(votes, t2.subrange(0, m), t2[m]));
        lemma_find_key_some(votes, t2[m], 0);
        let p = find_key(votes, t2[m], 0)->Some_0;
        assert(candidate(votes, t1, p));
    } else if t2.len() < t1.len() {
        assert(t1.subrange(0, m) =~= t2);
        assert(best_outside(votes, t1.subrange(0, m), t1[m]));
        lemma_find_key_some(votes, t1[m], 0);
        let p = find_key(votes, t1[m], 0)->Some_0;
        assert(candidate(votes, t2, p));
    } else {
        assert(t1 =~= t1.subrange(0, m));
        assert(t2 =~= t2.subrange(0, m));
    }
}

/// An alignment on either strand, with the strand.
pub open spec fn full_view(r: Option<MatchResult>) -> Option<(GenePos, Seq<i32>, bool)> {
    match r {
        Some(m) => Some((m.start_gp, m.mismatches@, m.reversed)),
        None => None,
    }
}

/// The alignment kept of the two strands: the one with fewer uncovered
/// bases, the read's own strand on ties.
pub open spec fn combine(f: Option<(GenePos, Seq<i32>)>, b: Option<(GenePos, Seq<i32>)>) -> Option<(GenePos, Seq<i32>, bool)> {
    match (f, b) {
        (None, None) => None,
        (None, Some(y)) => Some((y.0, y.1, true)),
        (Some(x), None) => Some((x.0, x.1, false)),
        (Some(x), Some(y)) => if x.1.len() <= y.1.len() {
            Some((x.0, x.1, false))
        } else {
            Some((y.0, y.1, true))
        },
    }
}

/// What an alignment result holds: placement and uncovered offsets.
pub open spec fn result_view(r: Option<MatchResult>) -> Option<(GenePos, Seq<i32>)> {
    match r {
        Some(m) => Some((m.start_gp, m.mismatches@)),
        None => None,
    }
}

impl Matcher {
    /// The placement keys that k-mer `k` at offset `i` votes for: its places
    /// moved back by `i`, none when it is not indexed or too frequent.
    pub open spec fn place_keys(&self, k: i64, i: int) -> Seq<int> {
        if !self.m_kmer_positions@.contains_key(k) || self.m_kmer_positions@[k]@.len() > SKIP_THRESHOLD {
            Seq::empty()
        } else {
            self.m_kmer_positions@[k]@.map_values(|gp: GenePos| moved_key(gp, i))
        }
    }

    /// The votes of the first `c` windows of a sequence.
    pub open spec fn matcher_votes(&self, s: Seq<u8>, c: int) -> Seq<(i64, i64)>
        decreases c,
    {
        if c <= 0 {
            Seq::empty()
        } else {
            let v = self.matcher_votes(s, c - 1);
            let k = window_code(s, c - 1);
            if k < 0 {
                v
            } else {
                vote_all(v, self.place_keys(k as i64, c - 1))
            }
        }
    }

    /// Placement `top` leaves fewer than `MAX_MISMATCHES` bases of `s`
    /// uncovered.
    pub open spec fn fits(&self, s: Seq<u8>, top: i64) -> bool {
        uncovered(self.cover_mask(s, top, fine_windows(s.len() as int)), s.len() as int).len() < MAX_MISMATCHES
    }

    /// Index of the first placement of `t` from `a` on that fits.
    pub open spec fn first_fit(&self, s: Seq<u8>, t: Seq<i64>, a: int) -> Option<int>
        decreases t.len() - a,
    {
        if a < 0 || a >= t.len() {
            None
        } else if self.fits(s, t[a]) {
            Some(a)
        } else {
            self.first_fit(s, t, a + 1)
        }
    }

    /// The alignment of `s` over placements `t`: the first that fits, with
    /// its uncovered offsets.
    pub open spec fn align_result(&self, s: Seq<u8>, t: Seq<i64>) -> Option<(GenePos, Seq<i32>)> {
        match self.first_fit(s, t, 0) {
            Some(a) => Some(
                (
                    crate::kmer::gp_of_long(t[a] as int),
                    uncovered(self.cover_mask(s, t[a], fine_windows(s.len() as int)), s.len() as int),
                ),
            ),
            None => None,
        }
    }

    /// `res` is the alignment of `s` over its best-voted placements.
    pub open spec fn aligned(&self, s: Seq<u8>, res: Option<(GenePos, Seq<i32>)>) -> bool {
        exists|t: Seq<i64>|
            #[trigger] ranked_tops(self.matcher_votes(s, fine_windows(s.len() as int)), t) && res
                == self.align_result(s, t)
    }
}

/// The gene position of a key, as `i64_to_gp` computes it within range.
pub open spec fn i64_to_gp_spec(v: i64) -> GenePos {
    crate::kmer::gp_of_long(v as int)
}

/// Place `gp` lies within `threshold` of placement `t` moved by `seqpos`.
pub open spec fn near(gp: GenePos, t: GenePos, seqpos: int, threshold: int) -> bool {
    gp.contig == t.contig && t.position + seqpos - threshold <= gp.position <= t.position + seqpos + threshold
}

/// Every place lies on a contig before `ctg`.
pub open spec fn all_before(s: Seq<GenePos>, ctg: i16) -> bool {
    forall|j: int| 0 <= j < s.len() ==> (#[trigger] s[j]).contig < ctg
}

/// Every place lies before offset `i` of contig `ctg`.
pub open spec fn all_before_at(s: Seq<GenePos>, ctg: i16, i: int) -> bool {
    forall|j: int| 0 <= j < s.len() ==> gp_lt(#[trigger] s[j], GenePos { contig: ctg, position: i as i32 }) && 0
        <= s[j].contig <= ctg
}

/// Places that a matcher records.
pub open spec fn places_ok(s: Seq<GenePos>) -> bool {
    forall|j: int| 0 <= j < s.len() ==> 0 <= (#[trigger] s[j]).contig && 0 <= s[j].position < MAX_CONTIG_LEN
}

pub proof fn lemma_bloom_kept(bf0: Seq<u8>, bf1: Seq<u8>, k: int, k2: int)
    requires
        bf0.len() == BLOOM_FILTER_SIZE,
        bf1.len() == BLOOM_FILTER_SIZE,
        0 <= k < 0x1_0000_0000,
        0 <= k2 < 0x1_0000_0000,
        bloom_bit(bf0, k2),
        bf1 == bf0.update(k / 8, bf0[k / 8] | (1u8 << ((k % 8) as u8))),
    ensures
        bloom_bit(bf1, k2),
{
    if k2 / 8 == k / 8 {
        let x = bf0[k / 8];
        let b = (k % 8) as u8;
        let b2 = (k2 % 8) as u8;
        assert((x | (1u8 << b)) & (1u8 << b2) != 0) by (bit_vector)
            requires
                x & (1u8 << b2) != 0,
        ;
    }
}

/// The bytes of `s` in upper case.
pub fn upper_bytes(s: &[u8]) -> (r: Vec<u8>)
    ensures
        r@ == crate::indexer::upper_seq(s@),
{
    let mut out: Vec<u8> = Vec::new();
    let mut j: usize = 0;
    while j < s.len()
        invariant
            j <= s@.len(),
            out@ == crate::indexer::upper_seq(s@.subrange(0, j as int)),
        decreases s@.len() - j,
    {
        let b = s[j];
        out.push(if 97 <= b && b <= 122 {
            b - 32
        } else {
            b
        });
        j = j + 1;
        assert(out@ =~= crate::indexer::upper_seq(s@.subrange(0, j as int)));
    }
    assert(s@.subrange(0, s@.len() as int) =~= s@);
    out
}

} // verus!
