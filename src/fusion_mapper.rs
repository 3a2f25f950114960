//! Maps reads to fusion breakpoints, keeps their matches per pair of genes,
//! filters them, and clusters them into fusion calls.
use vstd::prelude::*;
use crate::common::{GenePos, GlobalSettings};
use crate::edit_distance::{edit_distance_from_str, lemma_lev_le_max, lev};
use crate::fusion_result::{best_shift, first_gapless, fusions_ok, longest_left, longest_right, match_ok, ref_window, shifted, sum_left, sum_right, supports_same, title_text, trunc_div, unique_count, FusionResult, MAX_READ_LEN};
use crate::gene::pos_text;
use crate::gene::{abs, Fusion};
use crate::indexer::{required_direction, Contig, Indexer, SeqMatch, MAX_REGION_LEN};
use crate::matcher::{combine, full_view, Matcher};
use crate::read::SequenceRead;
use crate::read_match::{sort_matches_desc, sorted_desc, ReadMatch};
use crate::sequence::{revcomp, reverse_complement};
use crate::text::{disconnected, dis_connected_count};

verus! {

broadcast use vstd::seq_lib::group_to_multiset_ensures;

/// Matches whose two distances add up to this much are dropped.
pub const DIFF_THRESHOLD: i32 = 5;

/// A flank shorter than this is of low complexity.
pub const MIN_FLANK_LEN: usize = 20;

/// A flank with fewer base changes than this is of low complexity.
pub const MIN_FLANK_CHANGES: usize = 7;

/// The edit distance of `seq` against the window `[start, end]` of region
/// `fs`: -1 when the ends straddle strands, -2 when the window leaves the
/// region. On the reverse strand the reverse complement of `seq` is compared.
pub open spec fn window_distance(fs: Seq<u8>, seq: Seq<u8>, start: int, end: int) -> int {
    if (start >= 0 && end <= 0) || (start <= 0 && end >= 0) {
        -1
    } else if abs(start) >= fs.len() || abs(end) >= fs.len() || start > end + 1 {
        -2
    } else if start < 0 {
        lev(revcomp(seq), fs.subrange(-end, -start + 1)) as int
    } else {
        lev(seq, fs.subrange(start, end + 1)) as int
    }
}

/// A flank too short or too repetitive to place a breakpoint in.
pub open spec fn low_complexity(s: Seq<u8>) -> bool {
    s.len() < MIN_FLANK_LEN || disconnected(s) < MIN_FLANK_CHANGES
}

/// Which matches a filter drops.
pub enum MatchFilter {
    /// A flank on either side of the breakpoint is of low complexity.
    Complexity,
    /// The two distances add up to `DIFF_THRESHOLD` or more.
    Distance,
    /// Both sides lie on one contig closer than the deletion threshold.
    Indel,
}

pub open spec fn split_at(m: ReadMatch) -> int {
    let b = m.m_read_break + 1;
    let n = m.m_read.m_seq@.len() as int;
    if b < 0 {
        0
    } else if b > n {
        n
    } else {
        b
    }
}

/// Whether `filter` drops match `m`.
pub open spec fn dropped(filter: MatchFilter, m: ReadMatch, settings: GlobalSettings) -> bool {
    match filter {
        MatchFilter::Complexity => low_complexity(m.m_read.m_seq@.subrange(0, split_at(m)))
            || low_complexity(m.m_read.m_seq@.subrange(split_at(m), m.m_read.m_seq@.len() as int)),
        MatchFilter::Distance => m.m_left_distance + m.m_right_distance >= DIFF_THRESHOLD,
        MatchFilter::Indel => m.m_left_gp.contig == m.m_right_gp.contig && abs(
            m.m_left_gp.position - m.m_right_gp.position,
        ) < settings.deletion_threshold,
    }
}

/// The matches of `s` that `filter` keeps, in order.
pub open spec fn kept(s: Seq<ReadMatch>, filter: MatchFilter, settings: GlobalSettings) -> Seq<ReadMatch>
    decreases s.len(),
{
    if s.len() == 0 {
        Seq::empty()
    } else if dropped(filter, s.last(), settings) {
        kept(s.drop_last(), filter, settings)
    } else {
        kept(s.drop_last(), filter, settings).push(s.last())
    }
}

/// Whether a flank is of low complexity.
pub fn is_low_complexity(s: &[u8]) -> (r: bool)
    ensures
        r == low_complexity(s@),
{
    if s.len() < MIN_FLANK_LEN {
        return true;
    }
    dis_connected_count(s) < MIN_FLANK_CHANGES
}

/// Whether `filter` drops match `m`.
pub fn drops(filter: &MatchFilter, m: &ReadMatch, settings: &GlobalSettings) -> (r: bool)
    requires
        match_ok(*m),
    ensures
        r == dropped(*filter, *m, *settings),
{
    match filter {
        MatchFilter::Complexity => {
            let s = m.m_read.m_seq.m_str.as_slice();
            let n = s.len();
            let b = m.m_read_break as i64 + 1;
            let k: usize = if b < 0 {
                0
            } else if b > n as i64 {
                n
            } else {
                b as usize
            };
            is_low_complexity(&s[0..k]) || is_low_complexity(&s[k..n])
        },
        MatchFilter::Distance => m.m_left_distance as i64 + m.m_right_distance as i64 >= DIFF_THRESHOLD
            as i64,
        MatchFilter::Indel => {
            let d = m.m_left_gp.position as i64 - m.m_right_gp.position as i64;
            let ad: i64 = if d < 0 {
                -d
            } else {
                d
            };
            m.m_left_gp.contig == m.m_right_gp.contig && (ad as u64) < settings.deletion_threshold as u64
        },
    }
}

/// Keeps the matches that `filter` does not drop, in order.
pub fn retain_matches(v: &mut Vec<ReadMatch>, filter: &MatchFilter, settings: &GlobalSettings)
    requires
        forall|i: int| 0 <= i < old(v)@.len() ==> match_ok(#[trigger] old(v)@[i]),
    ensures
        final(v)@ == kept(old(v)@, *filter, *settings),
        forall|i: int| 0 <= i < final(v)@.len() ==> match_ok(#[trigger] final(v)@[i]),
{
    let mut input: Vec<ReadMatch> = Vec::new();
    std::mem::swap(v, &mut input);
    let ghost orig = input@;
    let mut k: usize = 0;
    let n = input.len();
    let mut out: Vec<ReadMatch> = Vec::new();
    while input.len() > 0
        invariant
            k + input@.len() == n,
            n == orig.len(),
            input@ == orig.subrange(k as int, n as int),
            out@ == kept(orig.subrange(0, k as int), *filter, *settings),
            forall|i: int| 0 <= i < orig.len() ==> match_ok(#[trigger] orig[i]),
            forall|i: int| 0 <= i < out@.len() ==> match_ok(#[trigger] out@[i]),
        decreases input@.len(),
    {
        let m = input.remove(0);
        assert(orig.subrange(0, k + 1).drop_last() =~= orig.subrange(0, k as int));
        assert(m == orig[k as int]);
        assert(match_ok(orig[k as int]));
        if !drops(filter, &m, settings) {
            out.push(m);
        }
        k = k + 1;
        assert(input@ =~= orig.subrange(k as int, n as int));
    }
    assert(orig.subrange(0, n as int) =~= orig);
    *v = out;
}

/// Fusion calls ordered by distinct support, then by all support, both
/// descending.
pub open spec fn result_ge(a: &FusionResult, b: &FusionResult) -> bool {
    a.m_unique > b.m_unique || (a.m_unique == b.m_unique && a.m_matches@.len() >= b.m_matches@.len())
}

pub open spec fn results_sorted(s: Seq<FusionResult>) -> bool {
    forall|i: int, j: int| 0 <= i < j < s.len() ==> result_ge(&s[i], &s[j])
}

/// Whether `r1` ranks at or above `r2`.
pub fn more_reads(r1: &FusionResult, r2: &FusionResult) -> (r: bool)
    ensures
        r == result_ge(r1, r2),
{
    r1.m_unique > r2.m_unique || (r1.m_unique == r2.m_unique && r1.m_matches.len() >= r2.m_matches.len())
}

/// Sorts fusion calls by `result_ge`, equal ones keeping their order.
pub fn sort_fusion_results(v: Vec<FusionResult>) -> (r: Vec<FusionResult>)
    ensures
        results_sorted(r@),
        r@.to_multiset() == v@.to_multiset(),
        r@.len() == v@.len(),
{
    broadcast use vstd::multiset::group_multiset_axioms;

    let mut input = v;
    let mut out: Vec<FusionResult> = Vec::new();
    let ghost orig = input@;
    assert(out@.to_multiset().add(input@.to_multiset()) =~= orig.to_multiset());
    while input.len() > 0
        invariant
            results_sorted(out@),
            out@.to_multiset().add(input@.to_multiset()) =~= orig.to_multiset(),
        decreases input@.len(),
    {
        let ghost in0 = input@;
        let x = input.remove(0);
        let mut p: usize = 0;
        while p < out.len() && more_reads(&out[p], &x)
            invariant
                p <= out@.len(),
                forall|i: int| 0 <= i < p ==> result_ge(&out@[i], &x),
            decreases out@.len() - p,
        {
            p = p + 1;
        }
        let ghost before = out@;
        out.insert(p, x);
        proof {
            assert(out@ =~= before.insert(p as int, x));
            assert forall|i: int, j: int| 0 <= i < j < out@.len() implies result_ge(&out@[i], &out@[j]) by {
                if p < before.len() {
                    assert(!result_ge(&before[p as int], &x));
                }
                if j < p {
                    assert(out@[i] == before[i] && out@[j] == before[j]);
                } else if j == p {
                    assert(out@[i] == before[i] && out@[j] == x);
                } else if i < p {
                    assert(out@[i] == before[i] && out@[j] == before[j - 1]);
                } else if i == p {
                    assert(out@[i] == x && out@[j] == before[j - 1]);
                    assert(result_ge(&before[p as int], &before[j - 1]));
                } else {
                    assert(out@[i] == before[i - 1] && out@[j] == before[j - 1]);
                }
            }
            vstd::seq_lib::to_multiset_insert(before, p as int, x);
            vstd::seq_lib::to_multiset_remove(in0, 0);
            assert(in0[0] == x);
            assert(in0.to_multiset().count(x) > 0);
            assert(out@.to_multiset().add(input@.to_multiset()) =~= orig.to_multiset());
        }
    }
    proof {
        vstd::seq_lib::to_multiset_len(out@);
        vstd::seq_lib::to_multiset_len(orig);
        assert(out@.to_multiset() =~= orig.to_multiset());
    }
    out
}

/// The read mapper: the region index and the match table, one bucket per
/// ordered pair of genes.
pub struct FusionMapper {
    pub m_indexer: Indexer,
    pub fusion_matches: Vec<Vec<ReadMatch>>,
    pub m_fusion_results: Vec<FusionResult>,
}

impl FusionMapper {
    pub open spec fn n_fusions(&self) -> int {
        self.m_indexer.m_fusions@.len() as int
    }

    /// The invariant of the mapper.
    pub open spec fn wf(&self) -> bool {
        &&& self.m_indexer.wf()
        &&& self.n_fusions() < 0x8000
        &&& fusions_ok(self.m_indexer.m_fusions@)
        &&& self.m_indexer.m_fusion_seq@.len() == self.n_fusions()
        &&& self.fusion_matches@.len() == self.n_fusions() * self.n_fusions()
        &&& forall|i: int, j: int|
            0 <= i < self.fusion_matches@.len() && 0 <= j < self.fusion_matches@[i]@.len()
                ==> match_in(#[trigger] self.fusion_matches@[i]@[j], self.n_fusions())
    }

    /// A mapper over an index, with an empty match table.
    pub fn new(indexer: Indexer) -> (r: FusionMapper)
        requires
            indexer.wf(),
            indexer.m_fusions@.len() < 0x8000,
            fusions_ok(indexer.m_fusions@),
            indexer.m_fusion_seq@.len() == indexer.m_fusions@.len(),
        ensures
            r.wf(),
            r.m_indexer == indexer,
            forall|i: int| 0 <= i < r.fusion_matches@.len() ==> #[trigger] r.fusion_matches@[i]@.len() == 0,
            r.m_fusion_results@.len() == 0,
    {
        let n = indexer.m_fusions.len();
        assert(n * n < 0x4000_0000) by (nonlinear_arith)
            requires
                n < 0x8000,
        ;
        let size = n * n;
        let mut table: Vec<Vec<ReadMatch>> = Vec::new();
        let mut i: usize = 0;
        while i < size
            invariant
                i <= size,
                table@.len() == i,
                forall|k: int| 0 <= k < i ==> #[trigger] table@[k]@.len() == 0,
            decreases size - i,
        {
            table.push(Vec::new());
            i = i + 1;
        }
        FusionMapper { m_indexer: indexer, fusion_matches: table, m_fusion_results: Vec::new() }
    }

    /// Edit distance of `seq` against the window `[start, end]` of region
    /// `contig`, or the sentinels -1 and -2 of `window_distance`; an unknown
    /// region counts as out of bounds.
    pub fn calc_ed(&self, seq: &[u8], contig: i32, start: i32, end: i32) -> (r: i32)
        requires
            self.wf(),
            seq@.len() < MAX_READ_LEN,
        ensures
            0 <= contig < self.m_indexer.m_fusion_seq@.len() ==> r == window_distance(
                self.m_indexer.m_fusion_seq@[contig as int]@,
                seq@,
                start as int,
                end as int,
            ),
            !(0 <= contig < self.m_indexer.m_fusion_seq@.len()) ==> r == -1 || r == -2,
    {
        if (start >= 0 && end <= 0) || (start <= 0 && end >= 0) {
            return -1;
        }
        if contig < 0 || contig as usize >= self.m_indexer.m_fusion_seq.len() {
            return -2;
        }
        let fs = self.m_indexer.m_fusion_seq[contig as usize].as_slice();
        let n = fs.len();
        let sa: u64 = if start < 0 {
            (-(start as i64)) as u64
        } else {
            start as u64
        };
        let ea: u64 = if end < 0 {
            (-(end as i64)) as u64
        } else {
            end as u64
        };
        if sa >= n as u64 || ea >= n as u64 {
            return -2;
        }
        if start as i64 > end as i64 + 1 {
            return -2;
        }
        if start < 0 {
            let rc = reverse_complement(seq);
            let from = ea as usize;
            let to = sa as usize + 1;
            proof {
                lemma_lev_le_max(rc@, fs@.subrange(from as int, to as int));
            }
            edit_distance_from_str(rc.as_slice(), &fs[from..to]) as i32
        } else {
            let from = sa as usize;
            let to = ea as usize + 1;
            proof {
                lemma_lev_le_max(seq@, fs@.subrange(from as int, to as int));
            }
            edit_distance_from_str(seq, &fs[from..to]) as i32
        }
    }
}

/// The read match a two-segment mapping gives, before its distances: the
/// breakpoint halfway between the segments, each side's position moved to it.
pub open spec fn match_of(mapping: Seq<SeqMatch>) -> (int, GenePos, GenePos, int) {
    let (l, r) = if mapping[0].seq_start > mapping[1].seq_start {
        (mapping[1], mapping[0])
    } else {
        (mapping[0], mapping[1])
    };
    let rb = (l.seq_end + r.seq_start) / 2;
    (
        rb,
        GenePos { position: (l.start_gp.position + rb) as i32, ..l.start_gp },
        GenePos { position: (r.start_gp.position + rb + 1) as i32, ..r.start_gp },
        r.seq_start - l.seq_end - 1,
    )
}

/// A two-segment mapping that `make_match` turns into a read match.
pub open spec fn mapping_ok(mapping: Seq<SeqMatch>, n: int) -> bool {
    &&& mapping.len() == 2
    &&& forall|k: int|
        0 <= k < 2 ==> 0 <= (#[trigger] mapping[k]).seq_start <= mapping[k].seq_end < n
            && -MAX_REGION_LEN < mapping[k].start_gp.position < MAX_REGION_LEN
}

impl FusionMapper {
    /// Fills in the distances of both parts of a match against the
    /// reference windows that end and start at its breakpoint.
    pub fn calc_distance(&self, m: &mut ReadMatch)
        requires
            self.wf(),
            match_ok(*old(m)),
            0 <= old(m).m_read_break < old(m).m_read.m_seq@.len(),
        ensures
            *final(m) == (ReadMatch {
                m_left_distance: final(m).m_left_distance,
                m_right_distance: final(m).m_right_distance,
                ..*old(m)
            }),
            distances_ok(self.m_indexer.m_fusion_seq@, *final(m)),
    {
        let seq = m.m_read.m_seq.m_str.as_slice();
        let n = seq.len();
        let rb = m.m_read_break;
        let left_len = rb + 1;
        let right_len = n as i32 - left_len;
        let left_seq = &seq[0..left_len as usize];
        let right_seq = &seq[left_len as usize..n];
        let ld = self.calc_ed(left_seq, m.m_left_gp.contig as i32, m.m_left_gp.position - left_len + 1, m.m_left_gp.position);
        let rd = self.calc_ed(right_seq, m.m_right_gp.contig as i32, m.m_right_gp.position, m.m_right_gp.position + right_len - 1);
        m.m_left_distance = ld;
        m.m_right_distance = rd;
    }

    /// The read match of a two-segment mapping of read `r`, with its
    /// distances; `None` for any other mapping.
    pub fn make_match(&self, r: &SequenceRead, mapping: &[SeqMatch]) -> (res: Option<ReadMatch>)
        requires
            self.wf(),
            r.m_seq@.len() < MAX_READ_LEN,
        ensures
            mapping_ok(mapping@, r.m_seq@.len() as int) <==> res is Some,
            res matches Some(m) ==> self.built_from(m, mapping@, *r),
    {
        if mapping.len() != 2 {
            return None;
        }
        let n = r.m_seq.len() as i32;
        let mut k: usize = 0;
        while k < 2
            invariant
                mapping@.len() == 2,
                k <= 2,
                n == r.m_seq@.len(),
                forall|j: int|
                    0 <= j < k ==> 0 <= (#[trigger] mapping@[j]).seq_start <= mapping@[j].seq_end < n
                        && -MAX_REGION_LEN < mapping@[j].start_gp.position < MAX_REGION_LEN,
            decreases 2 - k,
        {
            let m = mapping[k];
            if !(0 <= m.seq_start && m.seq_start <= m.seq_end && m.seq_end < n && -(MAX_REGION_LEN as i32)
                < m.start_gp.position && m.start_gp.position < MAX_REGION_LEN as i32) {
                return None;
            }
            k = k + 1;
        }
        let (left, right) = if mapping[0].seq_start > mapping[1].seq_start {
            (mapping[1], mapping[0])
        } else {
            (mapping[0], mapping[1])
        };
        let read_break = (left.seq_end + right.seq_start) / 2;
        let left_gp = GenePos { contig: left.start_gp.contig, position: left.start_gp.position + read_break };
        let right_gp = GenePos { contig: right.start_gp.contig, position: right.start_gp.position + read_break + 1 };
        let gap = right.seq_start - left.seq_end - 1;
        let mut m = ReadMatch::new(r.duplicate(), read_break, left_gp, right_gp, gap, false);
        self.calc_distance(&mut m);
        Some(m)
    }

    /// Maps one read: `mapable` tells whether the index placed it on two
    /// regions; a match comes back only for a mapping in the required
    /// orientation.
    pub fn map_read(&self, r: &SequenceRead, mapable: &mut bool) -> (res: Option<ReadMatch>)
        requires
            self.wf(),
            r.m_seq@.len() < MAX_READ_LEN,
        ensures
            *final(mapable) == self.two_placed(r.m_seq@),
            *final(mapable) ==> self.m_indexer.mappable(r.m_seq@),
            forall|mp: Seq<SeqMatch>| #[trigger] self.m_indexer.mapped_as(r.m_seq@, mp) && mp.len() >= 2 ==> *final(mapable),
            res is Some <==> self.match_owed(r.m_seq@),
            res matches Some(m) ==> exists|mp: Seq<SeqMatch>|
                #![trigger self.built_from(m, mp, *r)]
                self.m_indexer.mapped_as(r.m_seq@, mp) && required_direction(self.m_indexer.m_fusions@, mp)
                    && self.built_from(m, mp, *r),
    {
        let mapping = self.m_indexer.map_seq(r.m_seq.m_str.as_slice());
        if mapping.len() < 2 {
            *mapable = false;
            assert(!self.two_placed(r.m_seq@)) by {
                if self.two_placed(r.m_seq@) {
                    let mp = choose|mp: Seq<SeqMatch>| self.m_indexer.mapped_as(r.m_seq@, mp) && mp.len() >= 2;
                    assert(mp == mapping@);
                }
            }
            assert(!self.match_owed(r.m_seq@)) by {
                if self.match_owed(r.m_seq@) {
                    let mp = choose|mp: Seq<SeqMatch>|
                        self.m_indexer.mapped_as(r.m_seq@, mp) && required_direction(self.m_indexer.m_fusions@, mp)
                            && mapping_ok(mp, r.m_seq@.len() as int);
                    assert(mp == mapping@);
                }
            }
            return None;
        }
        *mapable = true;
        assert(self.m_indexer.mapped_as(r.m_seq@, mapping@));
        if !self.m_indexer.in_required_direction(mapping.as_slice()) {
            assert(!self.match_owed(r.m_seq@)) by {
                if self.match_owed(r.m_seq@) {
                    let mp = choose|mp: Seq<SeqMatch>|
                        self.m_indexer.mapped_as(r.m_seq@, mp) && required_direction(self.m_indexer.m_fusions@, mp)
                            && mapping_ok(mp, r.m_seq@.len() as int);
                    assert(mp == mapping@);
                }
            }
            return None;
        }
        let res = self.make_match(r, mapping.as_slice());
        proof {
            if res is Some {
                assert(self.built_from(res->Some_0, mapping@, *r));
            } else {
                if self.match_owed(r.m_seq@) {
                    let mp = choose|mp: Seq<SeqMatch>|
                        self.m_indexer.mapped_as(r.m_seq@, mp) && required_direction(self.m_indexer.m_fusions@, mp)
                            && mapping_ok(mp, r.m_seq@.len() as int);
                    assert(mp == mapping@);
                }
            }
        }
        res
    }

    /// The index places read `s` on at least two segments.
    pub open spec fn two_placed(&self, s: Seq<u8>) -> bool {
        exists|mp: Seq<SeqMatch>| #[trigger] self.m_indexer.mapped_as(s, mp) && mp.len() >= 2
    }

    /// The index places read `s` on two segments in the required orientation
    /// that `make_match` turns into a match.
    pub open spec fn match_owed(&self, s: Seq<u8>) -> bool {
        exists|mp: Seq<SeqMatch>|
            #[trigger] self.m_indexer.mapped_as(s, mp) && required_direction(self.m_indexer.m_fusions@, mp)
                && mapping_ok(mp, s.len() as int)
    }

    /// Match `m` of read `r` is the one a two-segment mapping `mp` gives:
    /// the breakpoint halfway between the segments, each side's position
    /// moved to it, and the distances of both parts.
    pub open spec fn built_from(&self, m: ReadMatch, mp: Seq<SeqMatch>, r: SequenceRead) -> bool {
        let (rb, lgp, rgp, gap) = match_of(mp);
        &&& mapping_ok(mp, r.m_seq@.len() as int)
        &&& m.m_read.m_seq@ == r.m_seq@
        &&& m.m_read.m_name@ == r.m_name@
        &&& m.m_read.m_quality@ == r.m_quality@
        &&& m.m_read_break == rb
        &&& m.m_left_gp == lgp
        &&& m.m_right_gp == rgp
        &&& m.m_gap == gap
        &&& !m.m_reversed
        &&& m.m_original_reads@.len() == 0
        &&& match_ok(m)
        &&& distances_ok(self.m_indexer.m_fusion_seq@, m)
    }

    /// Index of the bucket of the gene pair `(left, right)`.
    pub open spec fn bucket_of(&self, m: ReadMatch) -> int {
        self.n_fusions() * m.m_right_gp.contig + m.m_left_gp.contig
    }

    /// Files a match under its pair of genes; a match naming an unknown gene
    /// is not filed and `false` comes back.
    pub fn add_match(&mut self, m: ReadMatch) -> (r: bool)
        requires
            old(self).wf(),
            match_ok(m),
        ensures
            final(self).wf(),
            final(self).m_indexer == old(self).m_indexer,
            final(self).m_fusion_results == old(self).m_fusion_results,
            r == (0 <= m.m_left_gp.contig < old(self).n_fusions() && 0 <= m.m_right_gp.contig
                < old(self).n_fusions()),
            r ==> final(self).fusion_matches@.len() == old(self).fusion_matches@.len() && forall|i: int|
                0 <= i < old(self).fusion_matches@.len() ==> #[trigger] final(self).fusion_matches@[i]@ == if i
                    == old(self).bucket_of(m) {
                    old(self).fusion_matches@[i]@.push(m)
                } else {
                    old(self).fusion_matches@[i]@
                },
            !r ==> final(self).fusion_matches == old(self).fusion_matches,
    {
        let n = self.m_indexer.m_fusions.len();
        let lc = m.m_left_gp.contig;
        let rc = m.m_right_gp.contig;
        if lc < 0 || rc < 0 || lc as usize >= n || rc as usize >= n {
            return false;
        }
        assert(n * rc + lc < n * n && n * n < 0x4000_0000 && n * rc >= 0) by (nonlinear_arith)
            requires
                0 <= lc < n,
                0 <= rc < n,
                n < 0x8000,
        ;
        let index = n * (rc as usize) + lc as usize;
        self.fusion_matches[index].push(m);
        true
    }
}

/// A well-formed match between two known genes.
pub open spec fn match_in(m: ReadMatch, n: int) -> bool {
    &&& match_ok(m)
    &&& 0 <= m.m_left_gp.contig < n
    &&& 0 <= m.m_right_gp.contig < n
}

/// A cluster whose matches all lie between two known genes.
pub open spec fn cluster_in(fr: FusionResult, n: int) -> bool {
    &&& fr.wf()
    &&& fr.m_matches@.len() > 0
    &&& forall|j: int| 0 <= j < fr.m_matches@.len() ==> match_in(#[trigger] fr.m_matches@[j], n)
}

pub open spec fn total_size(frs: Seq<FusionResult>) -> int
    decreases frs.len(),
{
    if frs.len() == 0 {
        0
    } else {
        total_size(frs.drop_last()) + frs.last().m_matches@.len()
    }
}

/// Index of the first cluster at or after `f` with a match that supports
/// the breakpoint of `m`.
pub open spec fn first_supporting(cs: Seq<Seq<ReadMatch>>, m: ReadMatch, f: int) -> Option<int>
    decreases cs.len() - f,
{
    if f < 0 || f >= cs.len() {
        None
    } else if exists|j: int| 0 <= j < cs[f].len() && supports_same(m, #[trigger] cs[f][j]) {
        Some(f)
    } else {
        first_supporting(cs, m, f + 1)
    }
}

/// Greedy clustering of `ms` in order: each match joins the first cluster
/// with a match supporting its breakpoint, or starts a new cluster.
pub open spec fn clusters_of(ms: Seq<ReadMatch>) -> Seq<Seq<ReadMatch>>
    decreases ms.len(),
{
    if ms.len() == 0 {
        Seq::empty()
    } else {
        let cs = clusters_of(ms.drop_last());
        let m = ms.last();
        match first_supporting(cs, m, 0) {
            Some(f) => cs.update(f, cs[f].push(m)),
            None => cs.push(seq![m]),
        }
    }
}

pub open spec fn cluster_matches_view(frs: Seq<FusionResult>) -> Seq<Seq<ReadMatch>> {
    frs.map_values(|fr: FusionResult| fr.m_matches@)
}

/// Greedy clustering: each match joins the first cluster that has a match
/// supporting the same breakpoint, or starts a new one.
pub fn cluster_bucket(ms: Vec<ReadMatch>, n: usize) -> (r: Vec<FusionResult>)
    requires
        forall|j: int| 0 <= j < ms@.len() ==> match_in(#[trigger] ms@[j], n as int),
    ensures
        forall|k: int| 0 <= k < r@.len() ==> cluster_in(#[trigger] r@[k], n as int),
        total_size(r@) == ms@.len(),
        cluster_matches_view(r@) == clusters_of(ms@),
{
    let mut input = ms;
    let ghost orig = input@;
    let total: usize = input.len();
    let mut k: usize = 0;
    let mut frs: Vec<FusionResult> = Vec::new();
    assert(orig.subrange(0, 0) =~= Seq::<ReadMatch>::empty());
    assert(cluster_matches_view(frs@) =~= Seq::<Seq<ReadMatch>>::empty());
    while input.len() > 0
        invariant
            total == orig.len(),
            k + input@.len() == orig.len(),
            input@ == orig.subrange(k as int, orig.len() as int),
            forall|j: int| 0 <= j < orig.len() ==> match_in(#[trigger] orig[j], n as int),
            forall|q: int| 0 <= q < frs@.len() ==> cluster_in(#[trigger] frs@[q], n as int),
            total_size(frs@) == k,
            cluster_matches_view(frs@) == clusters_of(orig.subrange(0, k as int)),
        decreases input@.len(),
    {
        let rm = input.remove(0);
        assert(rm == orig[k as int]);
        assert(match_in(orig[k as int], n as int));
        let ghost pre = orig.subrange(0, k + 1);
        assert(pre.drop_last() =~= orig.subrange(0, k as int));
        let ghost cs = cluster_matches_view(frs@);
        let mut found = false;
        let mut f: usize = 0;
        while f < frs.len()
            invariant_except_break
                !found,
            invariant
                f <= frs@.len(),
                cs == cluster_matches_view(frs@),
                forall|q: int| 0 <= q < frs@.len() ==> cluster_in(#[trigger] frs@[q], n as int),
                first_supporting(cs, rm, 0) == first_supporting(cs, rm, f as int),
            ensures
                found ==> f < frs@.len() && first_supporting(cs, rm, 0) == Some(f as int),
                !found ==> first_supporting(cs, rm, 0) is None,
                forall|q: int| 0 <= q < frs@.len() ==> cluster_in(#[trigger] frs@[q], n as int),
            decreases frs@.len() - f,
        {
            assert(cs[f as int] == frs@[f as int].m_matches@);
            if frs[f].support(&rm) {
                found = true;
                break;
            }
            f = f + 1;
        }
        let ghost before = frs@;
        if found {
            assert(cluster_in(frs@[f as int], n as int));
            frs[f].add_match(rm);
            proof {
                assert forall|q: int| 0 <= q < frs@.len() implies cluster_in(#[trigger] frs@[q], n as int) by {
                    if q == f {
                        assert(frs@[q].m_matches@ == before[q].m_matches@.push(rm));
                    } else {
                        assert(frs@[q] == before[q]);
                    }
                }
                lemma_total_size_update(before, f as int, frs@[f as int]);
                assert(cluster_matches_view(frs@) =~= cs.update(f as int, cs[f as int].push(rm)));
            }
        } else {
            let mut fr = FusionResult::with_minimum();
            fr.add_match(rm);
            frs.push(fr);
            proof {
                assert(frs@.drop_last() =~= before);
                assert(fr.m_matches@ =~= seq![rm]);
                assert forall|q: int| 0 <= q < frs@.len() implies cluster_in(#[trigger] frs@[q], n as int) by {
                    if q < before.len() {
                        assert(frs@[q] == before[q]);
                    }
                }
                assert(cluster_matches_view(frs@) =~= cs.push(seq![rm]));
            }
        }
        k = k + 1;
        assert(input@ =~= orig.subrange(k as int, orig.len() as int));
    }
    assert(orig.subrange(0, total as int) =~= orig);
    frs
}

/// Match `t` of `c` supports the breakpoint of an earlier match.
pub open spec fn supported_before(c: Seq<ReadMatch>, t: int) -> bool {
    exists|u: int| 0 <= u < t && supports_same(c[t], #[trigger] c[u])
}

/// Every match of `c` after the first supports the breakpoint of an
/// earlier one.
pub open spec fn chained(c: Seq<ReadMatch>) -> bool {
    forall|t: int| 0 < t < c.len() ==> #[trigger] supported_before(c, t)
}

pub proof fn lemma_clusters_chained(ms: Seq<ReadMatch>)
    ensures
        forall|f: int| 0 <= f < clusters_of(ms).len() ==> chained(#[trigger] clusters_of(ms)[f]) && clusters_of(
            ms,
        )[f].len() > 0,
    decreases ms.len(),
{
    if ms.len() > 0 {
        let cs = clusters_of(ms.drop_last());
        let m = ms.last();
        lemma_clusters_chained(ms.drop_last());
        lemma_first_supporting_found(cs, m, 0);
        match first_supporting(cs, m, 0) {
            Some(f) => {
                let c = cs[f].push(m);
                assert forall|t: int| 0 < t < c.len() implies #[trigger] supported_before(c, t) by {
                    if t == c.len() - 1 {
                        let j = choose|j: int| 0 <= j < cs[f].len() && supports_same(m, #[trigger] cs[f][j]);
                        assert(c[j] == cs[f][j]);
                        assert(supports_same(c[t], c[j]));
                    } else {
                        assert(chained(cs[f]));
                        assert(supported_before(cs[f], t));
                        let u = choose|u: int| 0 <= u < t && supports_same(cs[f][t], #[trigger] cs[f][u]);
                        assert(c[u] == cs[f][u]);
                        assert(supports_same(c[t], c[u]));
                    }
                }
                assert forall|g: int| 0 <= g < clusters_of(ms).len() implies chained(#[trigger] clusters_of(ms)[g])
                    && clusters_of(ms)[g].len() > 0 by {
                    if g != f {
                        assert(clusters_of(ms)[g] == cs[g]);
                    } else {
                        assert(clusters_of(ms)[g] == c);
                    }
                }
            },
            None => {
                assert forall|g: int| 0 <= g < clusters_of(ms).len() implies chained(#[trigger] clusters_of(ms)[g])
                    && clusters_of(ms)[g].len() > 0 by {
                    if g < cs.len() {
                        assert(clusters_of(ms)[g] == cs[g]);
                    } else {
                        assert(clusters_of(ms)[g] =~= seq![m]);
                    }
                }
            },
        }
    }
}

pub proof fn lemma_first_supporting_found(cs: Seq<Seq<ReadMatch>>, m: ReadMatch, f: int)
    requires
        0 <= f,
    ensures
        first_supporting(cs, m, f) matches Some(g) ==> f <= g < cs.len() && exists|j: int|
            0 <= j < cs[g].len() && supports_same(m, #[trigger] cs[g][j]),
    decreases cs.len() - f,
{
    if f < cs.len() && !(exists|j: int| 0 <= j < cs[f].len() && supports_same(m, #[trigger] cs[f][j])) {
        lemma_first_supporting_found(cs, m, f + 1);
    }
}

/// A chain of matches, each supporting an earlier one, clusters into itself.
pub proof fn lemma_chained_single_cluster(c: Seq<ReadMatch>)
    requires
        c.len() > 0,
        chained(c),
    ensures
        clusters_of(c) == seq![c],
    decreases c.len(),
{
    let p = c.drop_last();
    let m = c.last();
    if p.len() == 0 {
        assert(clusters_of(p) =~= Seq::<Seq<ReadMatch>>::empty());
        assert(seq![m] =~= c);
    } else {
        assert forall|t: int| 0 < t < p.len() implies #[trigger] supported_before(p, t) by {
            assert(supported_before(c, t));
            let u = choose|u: int| 0 <= u < t && supports_same(c[t], #[trigger] c[u]);
            assert(p[u] == c[u] && p[t] == c[t]);
        }
        lemma_chained_single_cluster(p);
        assert(supported_before(c, c.len() - 1));
        let u = choose|u: int| 0 <= u < c.len() - 1 && supports_same(c[c.len() - 1], #[trigger] c[u]);
        let cs = seq![p];
        assert(cs[0][u] == c[u]);
        assert(supports_same(m, cs[0][u]));
        assert(first_supporting(cs, m, 0) == Some(0int));
        assert(p.push(m) =~= c);
        assert(cs.update(0, cs[0].push(m)) =~= seq![c]);
    }
}

/// Clustering the matches of one cluster again gives back that very
/// cluster, so its consensus breakpoint and its count of distinct
/// supporting reads, which depend on its matches alone, come out the same.
pub proof fn lemma_reclustering_keeps_cluster(ms: Seq<ReadMatch>, f: int)
    requires
        0 <= f < clusters_of(ms).len(),
    ensures
        clusters_of(clusters_of(ms)[f]) == seq![clusters_of(ms)[f]],
{
    lemma_clusters_chained(ms);
    lemma_chained_single_cluster(clusters_of(ms)[f]);
}

/// Replacing one cluster changes the total by the difference of sizes.
pub proof fn lemma_total_size_update(s: Seq<FusionResult>, i: int, x: FusionResult)
    requires
        0 <= i < s.len(),
    ensures
        total_size(s.update(i, x)) == total_size(s) - s[i].m_matches@.len() + x.m_matches@.len(),
    decreases s.len(),
{
    if i < s.len() - 1 {
        assert(s.update(i, x).drop_last() =~= s.drop_last().update(i, x));
        lemma_total_size_update(s.drop_last(), i, x);
    } else {
        assert(s.update(i, x).drop_last() =~= s.drop_last());
    }
}

/// Cluster `c` of bucket `b` of the match table.
pub open spec fn cluster_at(table: Seq<Vec<ReadMatch>>, b: int, c: int) -> Seq<ReadMatch> {
    clusters_of(table[b]@)[c]
}

pub open spec fn valid_cluster(table: Seq<Vec<ReadMatch>>, b: int, c: int) -> bool {
    0 <= b < table.len() && 0 <= c < clusters_of(table[b]@).len()
}

/// The matches of `f` are those of `ms`, each with its breakpoint moved by
/// its best shift against the windows of `f`.
pub open spec fn adjusted_from(f: FusionResult, ms: Seq<ReadMatch>) -> bool {
    &&& f.m_matches@.len() == ms.len()
    &&& forall|i: int|
        0 <= i < ms.len() ==> #[trigger] f.m_matches@[i] == shifted(
            ms[i],
            f.m_left_ref@,
            f.m_right_ref@,
            best_shift(ms[i].m_read.m_seq@, f.m_left_ref@, f.m_right_ref@, ms[i].m_read_break as int),
        )
}

/// `f` comes from cluster `c` of bucket `b` of the match table.
pub open spec fn from_cluster(f: FusionResult, table: Seq<Vec<ReadMatch>>, b: int, c: int) -> bool {
    &&& 0 <= b < table.len()
    &&& 0 <= c < clusters_of(table[b]@).len()
    &&& adjusted_from(f, clusters_of(table[b]@)[c])
}

/// `f` comes from some cluster of some bucket of the match table.
pub open spec fn from_table(f: FusionResult, table: Seq<Vec<ReadMatch>>) -> bool {
    exists|b: int, c: int| #[trigger] from_cluster(f, table, b, c)
}

/// A fusion call that is reported: qualified, a deletion only when
/// deletions are asked for, and an untranslated fusion only when those are.
pub open spec fn accepted(fr: FusionResult, settings: GlobalSettings) -> bool {
    &&& fr.qualified(settings)
    &&& (settings.output_deletions || !fr.is_deletion_spec())
    &&& (settings.output_untranslated || protein_forward(fr.m_left_gene.m_reversed, fr.m_left_gp.position)
        == protein_forward(fr.m_right_gene.m_reversed, fr.m_right_gp.position))
}

pub open spec fn protein_forward(reversed: bool, pos: i32) -> bool {
    if reversed {
        pos < 0
    } else {
        pos > 0
    }
}

impl FusionMapper {
    /// Drops, in every bucket, the matches of low complexity, those too far
    /// from the reference, and those that are small indels.
    pub fn filter_matches(&mut self, settings: &GlobalSettings)
        requires
            old(self).wf(),
        ensures
            final(self).wf(),
            final(self).m_indexer == old(self).m_indexer,
            final(self).m_fusion_results == old(self).m_fusion_results,
            final(self).fusion_matches@.len() == old(self).fusion_matches@.len(),
            forall|i: int|
                0 <= i < old(self).fusion_matches@.len() ==> #[trigger] final(self).fusion_matches@[i]@
                    == kept(
                    kept(
                        kept(old(self).fusion_matches@[i]@, MatchFilter::Complexity, *settings),
                        MatchFilter::Distance,
                        *settings,
                    ),
                    MatchFilter::Indel,
                    *settings,
                ),
    {
        let n = self.fusion_matches.len();
        let mut i: usize = 0;
        while i < n
            invariant
                self.wf(),
                n == self.fusion_matches@.len(),
                i <= n,
                self.m_indexer == old(self).m_indexer,
                self.m_fusion_results == old(self).m_fusion_results,
                forall|k: int| i <= k < n ==> #[trigger] self.fusion_matches@[k] == old(self).fusion_matches@[k],
                forall|k: int|
                    0 <= k < i ==> #[trigger] self.fusion_matches@[k]@ == kept(
                        kept(
                            kept(old(self).fusion_matches@[k]@, MatchFilter::Complexity, *settings),
                            MatchFilter::Distance,
                            *settings,
                        ),
                        MatchFilter::Indel,
                        *settings,
                    ),
            decreases n - i,
        {
            let mut bucket: Vec<ReadMatch> = Vec::new();
            let ghost before = self.fusion_matches@;
            std::mem::swap(&mut self.fusion_matches[i], &mut bucket);
            assert(bucket == before[i as int]);
            let ghost nf = self.n_fusions();
            assert forall|j: int| 0 <= j < bucket@.len() implies match_ok(#[trigger] bucket@[j]) by {
                assert(match_in(before[i as int]@[j], nf));
            }
            retain_matches(&mut bucket, &MatchFilter::Complexity, settings);
            retain_matches(&mut bucket, &MatchFilter::Distance, settings);
            retain_matches(&mut bucket, &MatchFilter::Indel, settings);
            proof {
                lemma_kept_within(before[i as int]@, MatchFilter::Complexity, *settings, nf);
                let a = kept(before[i as int]@, MatchFilter::Complexity, *settings);
                lemma_kept_within(a, MatchFilter::Distance, *settings, nf);
                let b = kept(a, MatchFilter::Distance, *settings);
                lemma_kept_within(b, MatchFilter::Indel, *settings, nf);
            }
            let ghost mid = self.fusion_matches@;
            std::mem::swap(&mut self.fusion_matches[i], &mut bucket);
            proof {
                assert forall|k: int, j: int|
                    0 <= k < self.fusion_matches@.len() && 0 <= j < self.fusion_matches@[k]@.len()
                        implies match_in(#[trigger] self.fusion_matches@[k]@[j], nf) by {
                    if k != i {
                        assert(self.fusion_matches@[k] == before[k]);
                    }
                }
            }
            i = i + 1;
        }
    }

    /// Sorts every bucket by breakpoint, descending.
    pub fn sort_matches(&mut self)
        requires
            old(self).wf(),
        ensures
            final(self).wf(),
            final(self).m_indexer == old(self).m_indexer,
            final(self).m_fusion_results == old(self).m_fusion_results,
            final(self).fusion_matches@.len() == old(self).fusion_matches@.len(),
            forall|i: int|
                0 <= i < old(self).fusion_matches@.len() ==> sorted_desc(#[trigger] final(self).fusion_matches@[i]@)
                    && final(self).fusion_matches@[i]@.to_multiset() == old(self).fusion_matches@[i]@.to_multiset(),
    {
        let n = self.fusion_matches.len();
        let mut i: usize = 0;
        while i < n
            invariant
                self.wf(),
                n == self.fusion_matches@.len(),
                i <= n,
                self.m_indexer == old(self).m_indexer,
                self.m_fusion_results == old(self).m_fusion_results,
                forall|k: int| i <= k < n ==> #[trigger] self.fusion_matches@[k] == old(self).fusion_matches@[k],
                forall|k: int|
                    0 <= k < i ==> sorted_desc(#[trigger] self.fusion_matches@[k]@)
                        && self.fusion_matches@[k]@.to_multiset() == old(self).fusion_matches@[k]@.to_multiset(),
            decreases n - i,
        {
            let mut bucket: Vec<ReadMatch> = Vec::new();
            let ghost before = self.fusion_matches@;
            std::mem::swap(&mut self.fusion_matches[i], &mut bucket);
            let sorted = sort_matches_desc(bucket);
            let mut sorted_mut = sorted;
            let ghost nf = self.n_fusions();
            proof {
                assert forall|j: int| 0 <= j < sorted_mut@.len() implies match_in(#[trigger] sorted_mut@[j], nf) by {
                    let x = sorted_mut@[j];
                    assert(sorted_mut@.to_multiset().count(x) > 0);
                    assert(before[i as int]@.to_multiset().count(x) > 0);
                    assert(before[i as int]@.contains(x));
                }
            }
            std::mem::swap(&mut self.fusion_matches[i], &mut sorted_mut);
            proof {
                assert forall|k: int, j: int|
                    0 <= k < self.fusion_matches@.len() && 0 <= j < self.fusion_matches@[k]@.len()
                        implies match_in(#[trigger] self.fusion_matches@[k]@[j], nf) by {
                    if k != i {
                        assert(self.fusion_matches@[k] == before[k]);
                    }
                }
            }
            i = i + 1;
        }
    }

    /// `f` is the fusion call built from cluster `ms`: its consensus
    /// breakpoint, its reference windows, its matches with adjusted
    /// breakpoints, its count of distinct reads, its genes and texts.
    pub open spec fn finalizes(&self, ms: Seq<ReadMatch>, f: FusionResult) -> bool {
        let lp = f.m_left_gp.position as int;
        let rp = f.m_right_gp.position as int;
        let ll = longest_left(ms);
        let lr = longest_right(ms);
        let fs = self.m_indexer.m_fusion_seq@;
        let ref_l = fs[f.m_left_gp.contig as int]@;
        let ref_r = fs[f.m_right_gp.contig as int]@;
        let lg = self.m_indexer.m_fusions@[f.m_left_gp.contig as int].m_gene;
        let rg = self.m_indexer.m_fusions@[f.m_right_gp.contig as int].m_gene;
        &&& ms.len() > 0
        &&& match first_gapless(ms, 0) {
            Some(i) => f.m_left_gp == ms[i].m_left_gp && f.m_right_gp == ms[i].m_right_gp,
            None => f.m_left_gp == (GenePos {
                contig: ms[0].m_left_gp.contig,
                position: trunc_div(sum_left(ms), ms.len() as int) as i32,
            }) && f.m_right_gp == (GenePos {
                contig: ms[0].m_right_gp.contig,
                position: trunc_div(sum_right(ms), ms.len() as int) as i32,
            }),
        }
        &&& f.m_left_ref@ == ref_window(ref_l, lp - ll + 1, lp)
        &&& f.m_right_ref@ == ref_window(ref_r, rp, rp + lr - 1)
        &&& f.m_left_ref_ext@ == ref_window(ref_l, lp, lp + lr - 1)
        &&& f.m_right_ref_ext@ == ref_window(ref_r, rp - ll + 1, rp)
        &&& adjusted_from(f, ms)
        &&& f.m_unique == unique_count(f.m_matches@)
        &&& f.m_left_gene.m_reversed == lg.m_reversed
        &&& f.m_right_gene.m_reversed == rg.m_reversed
        &&& f.m_left_pos@ == pos_text(&lg, lp)
        &&& f.m_right_pos@ == pos_text(&rg, rp)
        &&& f.m_title@ == title_text(f.is_deletion_spec(), pos_text(&lg, lp), pos_text(&rg, rp), ms.len() as int, f.m_unique as int)
    }

    /// Cluster `c` of bucket `b` yields a reported fusion call.
    pub open spec fn cluster_reported(&self, table: Seq<Vec<ReadMatch>>, settings: GlobalSettings, b: int, c: int) -> bool {
        &&& valid_cluster(table, b, c)
        &&& cluster_at(table, b, c).len() < MAX_READ_LEN
        &&& exists|f: FusionResult| #[trigger] self.finalizes(cluster_at(table, b, c), f) && accepted(f, settings)
    }

    /// Some call of `rs` is the one built from cluster `c` of bucket `b`.
    pub open spec fn covered(&self, rs: Seq<FusionResult>, table: Seq<Vec<ReadMatch>>, b: int, c: int) -> bool {
        exists|k: int| 0 <= k < rs.len() && #[trigger] self.finalizes(cluster_at(table, b, c), rs[k])
    }

    pub proof fn lemma_covered_push(&self, rs: Seq<FusionResult>, x: FusionResult, table: Seq<Vec<ReadMatch>>)
        ensures
            forall|b: int, c: int| self.covered(rs, table, b, c) ==> #[trigger] self.covered(rs.push(x), table, b, c),
    {
        assert forall|b: int, c: int| self.covered(rs, table, b, c) implies #[trigger] self.covered(rs.push(x), table, b, c) by {
            let k = choose|k: int| 0 <= k < rs.len() && #[trigger] self.finalizes(cluster_at(table, b, c), rs[k]);
            assert(rs.push(x)[k] == rs[k]);
        }
    }

    pub proof fn lemma_covered_perm(&self, a: Seq<FusionResult>, s: Seq<FusionResult>, table: Seq<Vec<ReadMatch>>, b: int, c: int)
        requires
            s.to_multiset() == a.to_multiset(),
            self.covered(a, table, b, c),
        ensures
            self.covered(s, table, b, c),
    {
        broadcast use vstd::seq_lib::group_to_multiset_ensures;

        let k = choose|k: int| 0 <= k < a.len() && #[trigger] self.finalizes(cluster_at(table, b, c), a[k]);
        let x = a[k];
        assert(a.contains(x));
        assert(a.to_multiset().count(x) > 0);
        assert(s.to_multiset().count(x) > 0);
        assert(s.contains(x));
        let q = choose|q: int| 0 <= q < s.len() && s[q] == x;
        assert(self.finalizes(cluster_at(table, b, c), s[q]));
    }

    /// Whether a cluster's call is reported depends on the cluster alone.
    pub proof fn lemma_finalizes_accept(&self, ms: Seq<ReadMatch>, f1: FusionResult, f2: FusionResult, settings: GlobalSettings)
        requires
            self.finalizes(ms, f1),
            self.finalizes(ms, f2),
        ensures
            accepted(f1, settings) == accepted(f2, settings),
    {
        assert(f1.m_matches@ =~= f2.m_matches@);
    }

    /// Builds, checks and keeps one fusion call from a cluster, or drops it.
    pub fn finalize(&self, fr: FusionResult, settings: &GlobalSettings) -> (r: Option<FusionResult>)
        requires
            self.wf(),
            cluster_in(fr, self.n_fusions()),
        ensures
            r matches Some(f) ==> accepted(f, *settings) && adjusted_from(f, fr.m_matches@) && self.finalizes(
                fr.m_matches@,
                f,
            ),
            r is None && fr.m_matches@.len() < MAX_READ_LEN ==> exists|f: FusionResult|
                #[trigger] self.finalizes(fr.m_matches@, f) && !accepted(f, *settings),
    {
        let ghost ms0 = fr.m_matches@;
        let mut fr = fr;
        if fr.m_matches.len() >= MAX_READ_LEN as usize {
            return None;
        }
        let ghost ms = fr.m_matches@;
        fr.calc_fusion_point();
        let lc = fr.m_left_gp.contig;
        let rc = fr.m_right_gp.contig;
        proof {
            assert(match_in(ms[0], self.n_fusions()));
            match first_gapless(ms, 0) {
                Some(i) => {
                    lemma_first_gapless_in_range(ms, 0);
                    assert(match_in(ms[i], self.n_fusions()));
                },
                None => {},
            }
        }
        let lref = self.m_indexer.m_fusion_seq[lc as usize].as_slice();
        let rref = self.m_indexer.m_fusion_seq[rc as usize].as_slice();
        fr.make_reference(lref, rref);
        fr.adjust_fusion_break();
        assert(adjusted_from(fr, ms0));
        fr.calc_unique();
        fr.update_info(&self.m_indexer.m_fusions);
        assert(self.finalizes(ms0, fr));
        if !fr.is_qualified(settings) {
            return None;
        }
        if !settings.output_deletions && fr.is_deletion() {
            return None;
        }
        if fr.is_left_protein_forward() != fr.is_right_protein_forward() {
            if !settings.output_untranslated {
                return None;
            }
        }
        Some(fr)
    }

    /// Clusters every bucket, keeps the accepted fusion calls and sorts them
    /// by support; the buckets are emptied.
    #[verifier::rlimit(100)]
    pub fn cluster_matches(&mut self, settings: &GlobalSettings)
        requires
            old(self).wf(),
        ensures
            final(self).wf(),
            final(self).m_indexer == old(self).m_indexer,
            results_sorted(final(self).m_fusion_results@),
            forall|k: int| 0 <= k < final(self).m_fusion_results@.len() ==> accepted(
                #[trigger] final(self).m_fusion_results@[k],
                *settings,
            ),
            forall|k: int| 0 <= k < final(self).m_fusion_results@.len() ==> from_table(
                #[trigger] final(self).m_fusion_results@[k],
                old(self).fusion_matches@,
            ),
            forall|b: int, c: int|
                #[trigger] old(self).cluster_reported(old(self).fusion_matches@, *settings, b, c) ==> old(self).covered(
                    final(self).m_fusion_results@,
                    old(self).fusion_matches@,
                    b,
                    c,
                ),
    {
        let n = self.fusion_matches.len();
        let nf = self.m_indexer.m_fusions.len();
        let mut results: Vec<FusionResult> = Vec::new();
        let mut i: usize = 0;
        while i < n
            invariant
                self.wf(),
                n == self.fusion_matches@.len(),
                nf == self.n_fusions(),
                i <= n,
                self.m_indexer == old(self).m_indexer,
                forall|k: int| 0 <= k < results@.len() ==> accepted(#[trigger] results@[k], *settings),
                forall|k: int| 0 <= k < results@.len() ==> from_table(#[trigger] results@[k], old(self).fusion_matches@),
                forall|k: int| i <= k < n ==> #[trigger] self.fusion_matches@[k] == old(self).fusion_matches@[k],
                n == old(self).fusion_matches@.len(),
                forall|b: int, c: int|
                    0 <= b < i && #[trigger] old(self).cluster_reported(old(self).fusion_matches@, *settings, b, c) ==> old(self).covered(
                        results@,
                        old(self).fusion_matches@,
                        b,
                        c,
                    ),
            decreases n - i,
        {
            let mut bucket: Vec<ReadMatch> = Vec::new();
            let ghost before = self.fusion_matches@;
            std::mem::swap(&mut self.fusion_matches[i], &mut bucket);
            proof {
                assert forall|j: int| 0 <= j < bucket@.len() implies match_in(#[trigger] bucket@[j], nf as int) by {
                    assert(match_in(before[i as int]@[j], nf as int));
                }
                assert forall|k: int| i + 1 <= k < n implies #[trigger] self.fusion_matches@[k] == old(self).fusion_matches@[k] by {
                    assert(self.fusion_matches@[k] == before[k]);
                }
                assert forall|k: int, j: int|
                    0 <= k < self.fusion_matches@.len() && 0 <= j < self.fusion_matches@[k]@.len()
                        implies match_in(#[trigger] self.fusion_matches@[k]@[j], nf as int) by {
                    if k != i {
                        assert(self.fusion_matches@[k] == before[k]);
                    }
                }
            }
            let ghost b0 = bucket@;
            assert(b0 == old(self).fusion_matches@[i as int]@);
            let mut frs = cluster_bucket(bucket, nf);
            let ghost cl = clusters_of(b0);
            let ghost mut taken: int = 0;
            while frs.len() > 0
                invariant
                    self.wf(),
                    nf == self.n_fusions(),
                    i < n,
                    n == old(self).fusion_matches@.len(),
                    b0 == old(self).fusion_matches@[i as int]@,
                    cl == clusters_of(b0),
                    0 <= taken,
                    taken + frs@.len() == cl.len(),
                    forall|k: int| 0 <= k < frs@.len() ==> (#[trigger] frs@[k]).m_matches@ == cl[taken + k],
                    forall|k: int| 0 <= k < frs@.len() ==> cluster_in(#[trigger] frs@[k], nf as int),
                    forall|k: int| 0 <= k < results@.len() ==> accepted(#[trigger] results@[k], *settings),
                    forall|k: int| 0 <= k < results@.len() ==> from_table(#[trigger] results@[k], old(self).fusion_matches@),
                    self.m_indexer == old(self).m_indexer,
                    forall|b: int, c: int|
                        ((0 <= b < i) || (b == i && 0 <= c < taken)) && #[trigger] old(self).cluster_reported(
                            old(self).fusion_matches@,
                            *settings,
                            b,
                            c,
                        ) ==> old(self).covered(results@, old(self).fusion_matches@, b, c),
                decreases frs@.len(),
            {
                let ghost f0 = frs@;
                let fr = frs.remove(0);
                assert(cluster_in(f0[0], nf as int));
                assert(fr.m_matches@ == cl[taken]);
                assert forall|k: int| 0 <= k < frs@.len() implies cluster_in(#[trigger] frs@[k], nf as int) by {
                    assert(frs@[k] == f0[k + 1]);
                }
                assert forall|k: int| 0 <= k < frs@.len() implies (#[trigger] frs@[k]).m_matches@ == cl[taken + 1 + k] by {
                    assert(frs@[k] == f0[k + 1]);
                }
                let ghost t0 = taken;
                let ghost ms = fr.m_matches@;
                let ghost r0 = results@;
                match self.finalize(fr, settings) {
                    Some(f) => {
                        assert(from_cluster(f, old(self).fusion_matches@, i as int, t0));
                        results.push(f);
                        proof {
                            old(self).lemma_covered_push(r0, f, old(self).fusion_matches@);
                            assert(old(self).finalizes(cluster_at(old(self).fusion_matches@, i as int, t0), results@[r0.len() as int]));
                        }
                    },
                    None => {
                        proof {
                            if old(self).cluster_reported(old(self).fusion_matches@, *settings, i as int, t0) {
                                let f1 = choose|f: FusionResult| #[trigger] old(self).finalizes(ms, f) && accepted(f, *settings);
                                let f2 = choose|f: FusionResult| #[trigger] self.finalizes(ms, f) && !accepted(f, *settings);
                                assert(old(self).finalizes(ms, f2));
                                old(self).lemma_finalizes_accept(ms, f1, f2, *settings);
                            }
                        }
                    },
                }
                proof {
                    taken = taken + 1;
                }
            }
            i = i + 1;
        }
        let ghost unsorted = results@;
        let sorted = sort_fusion_results(results);
        proof {
            assert forall|k: int| 0 <= k < sorted@.len() implies accepted(#[trigger] sorted@[k], *settings)
                && from_table(sorted@[k], old(self).fusion_matches@) by {
                let x = sorted@[k];
                assert(sorted@.to_multiset().count(x) > 0);
                assert(unsorted.to_multiset().count(x) > 0);
                assert(unsorted.contains(x));
            }
            assert forall|b: int, c: int|
                #[trigger] old(self).cluster_reported(old(self).fusion_matches@, *settings, b, c) implies old(self).covered(
                sorted@,
                old(self).fusion_matches@,
                b,
                c,
            ) by {
                old(self).lemma_covered_perm(unsorted, sorted@, old(self).fusion_matches@, b, c);
            }
        }
        self.m_fusion_results = sorted;
    }
}

/// The matches of `s` whose read the matcher cannot align without a
/// breakpoint, on either strand, in order.
pub open spec fn kept_unaligned(matcher: Matcher, s: Seq<ReadMatch>) -> Seq<ReadMatch>
    decreases s.len(),
{
    if s.len() == 0 {
        Seq::empty()
    } else if matcher.unaligned(s.last().m_read.m_seq@) {
        kept_unaligned(matcher, s.drop_last()).push(s.last())
    } else {
        kept_unaligned(matcher, s.drop_last())
    }
}

/// Keeps the matches whose read the matcher cannot align without a
/// breakpoint, in order.
pub fn retain_unaligned(v: &mut Vec<ReadMatch>, matcher: &Matcher)
    requires
        matcher.wf(),
        forall|i: int| 0 <= i < old(v)@.len() ==> match_ok(#[trigger] old(v)@[i]),
    ensures
        final(v)@ == kept_unaligned(*matcher, old(v)@),
        final(v)@.len() <= old(v)@.len(),
        forall|i: int| 0 <= i < final(v)@.len() ==> old(v)@.contains(#[trigger] final(v)@[i]),
{
    let mut input: Vec<ReadMatch> = Vec::new();
    std::mem::swap(v, &mut input);
    let ghost orig = input@;
    let total: usize = input.len();
    let mut out: Vec<ReadMatch> = Vec::new();
    let mut k: usize = 0;
    assert(orig.subrange(0, 0) =~= Seq::<ReadMatch>::empty());
    while input.len() > 0
        invariant
            matcher.wf(),
            total == orig.len(),
            k + input@.len() == orig.len(),
            input@ == orig.subrange(k as int, orig.len() as int),
            forall|i: int| 0 <= i < orig.len() ==> match_ok(#[trigger] orig[i]),
            out@ == kept_unaligned(*matcher, orig.subrange(0, k as int)),
            out@.len() <= k,
            forall|i: int| 0 <= i < out@.len() ==> orig.contains(#[trigger] out@[i]),
        decreases input@.len(),
    {
        let m = input.remove(0);
        assert(m == orig[k as int]);
        assert(match_ok(orig[k as int]));
        let ghost pre = orig.subrange(0, k + 1);
        assert(pre.drop_last() =~= orig.subrange(0, k as int));
        let ghost sq = m.m_read.m_seq@;
        let res = matcher.do_match(m.m_read.m_seq.m_str.as_slice());
        proof {
            let (f, b) = choose|f: Option<(GenePos, Seq<i32>)>, b: Option<(GenePos, Seq<i32>)>|
                matcher.aligned(sq, f) && matcher.aligned(revcomp(sq), b) && full_view(res) == combine(f, b);
            if matcher.unaligned(sq) {
                let (f2, b2) = choose|f: Option<(GenePos, Seq<i32>)>, b: Option<(GenePos, Seq<i32>)>|
                    matcher.aligned(sq, f) && matcher.aligned(revcomp(sq), b) && combine(f, b) is None;
                matcher.lemma_aligned_unique(sq, f, f2);
                matcher.lemma_aligned_unique(revcomp(sq), b, b2);
            }
        }
        if res.is_none() {
            out.push(m);
        }
        k = k + 1;
        assert(input@ =~= orig.subrange(k as int, orig.len() as int));
    }
    assert(orig.subrange(0, total as int) =~= orig);
    *v = out;
}

impl FusionMapper {
    /// Drops every match whose read aligns to the reference without a
    /// breakpoint: such reads come from repeats, not from fusions.
    pub fn remove_alignables(&mut self, contigs: &Vec<Contig>)
        requires
            old(self).wf(),
        ensures
            final(self).wf(),
            final(self).m_indexer == old(self).m_indexer,
            final(self).m_fusion_results == old(self).m_fusion_results,
            final(self).fusion_matches@.len() == old(self).fusion_matches@.len(),
            exists|matcher: Matcher|
                #![trigger matcher.wf()]
                matcher.wf() && forall|i: int|
                    0 <= i < old(self).fusion_matches@.len() ==> (#[trigger] final(self).fusion_matches@[i])@
                        == kept_unaligned(matcher, old(self).fusion_matches@[i]@),
    {
        let n = self.fusion_matches.len();
        let mut seqs: Vec<Vec<u8>> = Vec::new();
        let mut i: usize = 0;
        while i < n
            invariant
                n == self.fusion_matches@.len(),
                i <= n,
            decreases n - i,
        {
            let mut j: usize = 0;
            while j < self.fusion_matches[i].len()
                invariant
                    n == self.fusion_matches@.len(),
                    i < n,
                    j <= self.fusion_matches@[i as int]@.len(),
                decreases self.fusion_matches@[i as int]@.len() - j,
            {
                seqs.push(self.fusion_matches[i][j].m_read.m_seq.m_str.clone());
                j = j + 1;
            }
            i = i + 1;
        }
        let matcher = Matcher::from_ref_and_seqs(contigs, &seqs);
        let mut i: usize = 0;
        while i < n
            invariant
                self.wf(),
                matcher.wf(),
                n == self.fusion_matches@.len(),
                i <= n,
                self.m_indexer == old(self).m_indexer,
                self.m_fusion_results == old(self).m_fusion_results,
                forall|k: int| i <= k < n ==> #[trigger] self.fusion_matches@[k] == old(self).fusion_matches@[k],
                forall|k: int| 0 <= k < i ==> (#[trigger] self.fusion_matches@[k])@ == kept_unaligned(matcher, old(self).fusion_matches@[k]@),
            decreases n - i,
        {
            let mut bucket: Vec<ReadMatch> = Vec::new();
            let ghost before = self.fusion_matches@;
            std::mem::swap(&mut self.fusion_matches[i], &mut bucket);
            let ghost b0 = bucket@;
            assert forall|j: int| 0 <= j < bucket@.len() implies match_ok(#[trigger] bucket@[j]) by {
                assert(match_in(before[i as int]@[j], self.n_fusions()));
            }
            retain_unaligned(&mut bucket, &matcher);
            let ghost nf = self.n_fusions();
            proof {
                assert forall|j: int| 0 <= j < bucket@.len() implies match_in(#[trigger] bucket@[j], nf) by {
                    let x = bucket@[j];
                    assert(b0.contains(x));
                    let q = choose|q: int| 0 <= q < b0.len() && b0[q] == x;
                    assert(match_in(before[i as int]@[q], nf));
                }
            }
            std::mem::swap(&mut self.fusion_matches[i], &mut bucket);
            proof {
                assert forall|k: int, j: int|
                    0 <= k < self.fusion_matches@.len() && 0 <= j < self.fusion_matches@[k]@.len()
                        implies match_in(#[trigger] self.fusion_matches@[k]@[j], nf) by {
                    if k != i {
                        assert(self.fusion_matches@[k] == before[k]);
                    }
                }
            }
            i = i + 1;
        }
    }
}

pub proof fn lemma_first_gapless_in_range(ms: Seq<ReadMatch>, i: int)
    ensures
        first_gapless(ms, i) matches Some(j) ==> 0 <= i <= j < ms.len(),
    decreases ms.len() - i,
{
    if 0 <= i < ms.len() && ms[i].m_gap != 0 {
        lemma_first_gapless_in_range(ms, i + 1);
    }
}

/// What a filter keeps of matches between known genes lies between known
/// genes too.
pub proof fn lemma_kept_within(s: Seq<ReadMatch>, filter: MatchFilter, settings: GlobalSettings, n: int)
    requires
        forall|j: int| 0 <= j < s.len() ==> match_in(#[trigger] s[j], n),
    ensures
        forall|j: int| 0 <= j < kept(s, filter, settings).len() ==> match_in(#[trigger] kept(s, filter, settings)[j], n),
    decreases s.len(),
{
    if s.len() > 0 {
        let d = s.drop_last();
        assert forall|j: int| 0 <= j < d.len() implies match_in(#[trigger] d[j], n) by {
            assert(d[j] == s[j]);
        }
        lemma_kept_within(d, filter, settings, n);
        let k = kept(s, filter, settings);
        let kd = kept(d, filter, settings);
        assert(match_in(s[s.len() - 1], n));
        assert forall|j: int| 0 <= j < k.len() implies match_in(#[trigger] k[j], n) by {
            if j < kd.len() {
                assert(k[j] == kd[j]);
            }
        }
    }
}

/// Both distances of a match are those of its two parts against the
/// reference windows that end and start at its breakpoint.
pub open spec fn distances_ok(fs: Seq<Vec<u8>>, m: ReadMatch) -> bool {
    let seq = m.m_read.m_seq@;
    let rb = m.m_read_break as int;
    let left_len = rb + 1;
    let right_len = seq.len() - left_len;
    let lp = m.m_left_gp.position as int;
    let rp = m.m_right_gp.position as int;
    &&& (0 <= m.m_left_gp.contig < fs.len() ==> m.m_left_distance == window_distance(
        fs[m.m_left_gp.contig as int]@,
        seq.subrange(0, left_len),
        lp - left_len + 1,
        lp,
    ))
    &&& (0 <= m.m_right_gp.contig < fs.len() ==> m.m_right_distance == window_distance(
        fs[m.m_right_gp.contig as int]@,
        seq.subrange(left_len, seq.len() as int),
        rp,
        rp + right_len - 1,
    ))
}

} // verus!
