//! A fusion call: the read matches that support one breakpoint, and what is
//! derived from them.
use vstd::prelude::*;
use crate::common::{GenePos, GlobalSettings};
use crate::edit_distance::{edit_distance_from_str, lemma_lev_le_max, lev};
use crate::gene::{abs, locate, pos_text, Fusion, Gene};
use crate::read_match::ReadMatch;
use crate::sequence::{revcomp, reverse_complement};
use crate::text::{decimal, disconnected, dis_connected_count, int2str, push_all};

verus! {

/// Bound on read lengths and breakpoints.
pub const MAX_READ_LEN: i32 = 0x1000_0000;

/// Bound on gene positions.
pub const MAX_POS: i32 = 0x4000_0000;

/// A read match whose numbers leave room for the arithmetic on them.
pub open spec fn match_ok(m: ReadMatch) -> bool {
    &&& m.m_read.m_seq@.len() < MAX_READ_LEN
    &&& -MAX_READ_LEN < m.m_read_break < MAX_READ_LEN
    &&& -MAX_POS < m.m_left_gp.position < MAX_POS
    &&& -MAX_POS < m.m_right_gp.position < MAX_POS
}

pub open spec fn all_ok(ms: Seq<ReadMatch>) -> bool {
    forall|i: int| 0 <= i < ms.len() ==> match_ok(#[trigger] ms[i])
}

/// Integer division rounding toward zero.
pub open spec fn trunc_div(a: int, n: int) -> int {
    if a >= 0 {
        a / n
    } else {
        -((-a) / n)
    }
}

pub open spec fn sum_left(ms: Seq<ReadMatch>) -> int
    decreases ms.len(),
{
    if ms.len() == 0 {
        0
    } else {
        sum_left(ms.drop_last()) + ms.last().m_left_gp.position
    }
}

pub open spec fn sum_right(ms: Seq<ReadMatch>) -> int
    decreases ms.len(),
{
    if ms.len() == 0 {
        0
    } else {
        sum_right(ms.drop_last()) + ms.last().m_right_gp.position
    }
}

/// Index of the first match without a gap, if any.
pub open spec fn first_gapless(ms: Seq<ReadMatch>, i: int) -> Option<int>
    decreases ms.len() - i,
{
    if i < 0 || i >= ms.len() {
        None
    } else if ms[i].m_gap == 0 {
        Some(i)
    } else {
        first_gapless(ms, i + 1)
    }
}

/// Matches that start a new breakpoint or read length after their
/// predecessor, plus one for the first.
pub open spec fn unique_count(ms: Seq<ReadMatch>) -> int
    decreases ms.len(),
{
    if ms.len() < 2 {
        1
    } else {
        unique_count(ms.drop_last()) + if ms.last().m_read_break != ms[ms.len() - 2].m_read_break
            || ms.last().m_read.m_seq@.len() != ms[ms.len() - 2].m_read.m_seq@.len() {
            1int
        } else {
            0int
        }
    }
}

/// The reference window `[start, end]` of a region: read on the forward
/// strand for positive coordinates, and for negative ones the reverse
/// complement of `[-end, -start]`; empty when the ends straddle strands or leave the region.
pub open spec fn ref_window(r: Seq<u8>, start: int, end: int) -> Seq<u8> {
    if (start >= 0 && end <= 0) || (start <= 0 && end >= 0) {
        Seq::empty()
    } else if abs(start) >= r.len() || abs(end) >= r.len() {
        Seq::empty()
    } else if start < 0 {
        let len = abs(end - start) + 1;
        let from = -end;
        if from + len > r.len() {
            revcomp(r.subrange(from, r.len() as int))
        } else {
            revcomp(r.subrange(from, from + len))
        }
    } else {
        let len = abs(end - start) + 1;
        if start + len > r.len() {
            r.subrange(start, r.len() as int)
        } else {
            r.subrange(start, start + len)
        }
    }
}

/// The last `k` symbols of `s`.
pub open spec fn tail(s: Seq<u8>, k: int) -> Seq<u8> {
    s.subrange(s.len() - k, s.len() as int)
}

pub open spec fn min3(a: int, b: int, c: int) -> int {
    if a <= b && a <= c {
        a
    } else if b <= c {
        b
    } else {
        c
    }
}

pub open spec fn min2(a: int, b: int) -> int {
    if a <= b {
        a
    } else {
        b
    }
}

/// Length of the left part of a read split after offset `b`, kept inside
/// the read.
pub open spec fn left_len(n: int, b: int) -> int {
    if b + 1 < 0 {
        0
    } else if b + 1 > n {
        n
    } else {
        b + 1
    }
}

/// Edit distance near a breakpoint at `b`: the last bases (at most 20) of the
/// left part against the end of the left reference, plus the first bases
/// of the right part against the start of the right reference.
pub open spec fn local_ed(s: Seq<u8>, lr: Seq<u8>, rr: Seq<u8>, b: int) -> int {
    let l = left_len(s.len() as int, b);
    let ls = s.subrange(0, l);
    let rs = s.subrange(l, s.len() as int);
    let lc = min3(ls.len() as int, lr.len() as int, 20);
    let rc = min3(rs.len() as int, rr.len() as int, 20);
    (lev(tail(ls, lc), tail(lr, lc)) + lev(rs.subrange(0, rc), rr.subrange(0, rc))) as int
}

/// Edit distance of the whole left part against the end of the left
/// reference.
pub open spec fn left_ed(s: Seq<u8>, lr: Seq<u8>, b: int) -> int {
    let l = left_len(s.len() as int, b);
    let ls = s.subrange(0, l);
    let lc = min2(l, lr.len() as int);
    lev(tail(ls, lc), tail(lr, lc)) as int
}

/// Edit distance of the whole right part against the start of the right
/// reference.
pub open spec fn right_ed(s: Seq<u8>, rr: Seq<u8>, b: int) -> int {
    let l = left_len(s.len() as int, b);
    let rs = s.subrange(l, s.len() as int);
    let rc = min2(rs.len() as int, rr.len() as int);
    lev(rs.subrange(0, rc), rr.subrange(0, rc)) as int
}

/// Two matches support one breakpoint: same contigs, and positions within
/// 3 bases on both sides.
pub open spec fn supports_same(m1: ReadMatch, m2: ReadMatch) -> bool {
    &&& abs(m1.m_left_gp.position - m2.m_left_gp.position) <= 3
    &&& abs(m1.m_right_gp.position - m2.m_right_gp.position) <= 3
    &&& m1.m_left_gp.contig == m2.m_left_gp.contig
    &&& m1.m_right_gp.contig == m2.m_right_gp.contig
}

/// The comparison window of `s1` and `s2` at offset `o` is alike: it does
/// not fit, or its edit distance is at most a tenth of its length.
pub open spec fn alike_at(s1: Seq<u8>, s2: Seq<u8>, o: int) -> bool {
    let start1 = if o > 0 {
        o
    } else {
        0
    };
    let start2 = if o < 0 {
        -o
    } else {
        0
    };
    let want = s1.len() - abs(o);
    let c0 = if want < 0 {
        0
    } else {
        want
    };
    let cmplen = if start2 + c0 > s2.len() {
        s2.len() - start2
    } else {
        c0
    };
    start1 >= s1.len() || start2 >= s2.len() || lev(
        s1.subrange(start1, start1 + cmplen),
        s2.subrange(start2, start2 + cmplen),
    ) <= cmplen / 10
}

pub open spec fn alike_from(s1: Seq<u8>, s2: Seq<u8>, o: int) -> bool
    decreases 7 - o,
{
    if o > 6 {
        false
    } else {
        alike_at(s1, s2, o) || alike_from(s1, s2, o + 1)
    }
}

/// A cluster of read matches believed to support one fusion breakpoint.
#[derive(Debug)]
pub struct FusionResult {
    pub m_left_gp: GenePos,
    pub m_right_gp: GenePos,
    pub m_matches: Vec<ReadMatch>,
    pub m_unique: i32,
    pub m_title: Vec<u8>,
    pub m_left_ref: Vec<u8>,
    pub m_right_ref: Vec<u8>,
    pub m_left_ref_ext: Vec<u8>,
    pub m_right_ref_ext: Vec<u8>,
    pub m_left_pos: Vec<u8>,
    pub m_right_pos: Vec<u8>,
    pub m_left_gene: Gene,
    pub m_right_gene: Gene,
    pub m_left_is_exon: bool,
    pub m_right_is_exon: bool,
    pub m_left_exon_or_intron_id: i32,
    pub m_right_exon_or_intron_id: i32,
}

/// The reference window of a region, as `ref_window` states.
pub fn get_ref_seq(ref_s: &[u8], start: i32, end: i32) -> (r: Vec<u8>)
    ensures
        r@ == ref_window(ref_s@, start as int, end as int),
        r@.len() <= abs(end - start) + 1,
{
    if (start >= 0 && end <= 0) || (start <= 0 && end >= 0) {
        return Vec::new();
    }
    let n = ref_s.len();
    let sa: i64 = if start < 0 {
        -(start as i64)
    } else {
        start as i64
    };
    let ea: i64 = if end < 0 {
        -(end as i64)
    } else {
        end as i64
    };
    if sa as u64 >= n as u64 || ea as u64 >= n as u64 {
        return Vec::new();
    }
    let d: i128 = end as i128 - start as i128;
    let len: i128 = if d < 0 {
        -d
    } else {
        d
    } + 1;
    let nn: i128 = n as i128;
    if start < 0 {
        let from: i128 = -(end as i128);
        let to: i128 = if from + len > nn {
            nn
        } else {
            from + len
        };
        reverse_complement(&ref_s[from as usize..to as usize])
    } else {
        let to: i128 = if start as i128 + len > nn {
            nn
        } else {
            start as i128 + len
        };
        let mut out: Vec<u8> = Vec::new();
        push_all(&mut out, &ref_s[start as usize..to as usize]);
        out
    }
}

/// Edit distance between `a[a0..a0+k]` and `b[b0..b0+k]`.
fn window_ed(a: &[u8], a0: usize, b: &[u8], b0: usize, k: usize) -> (r: i32)
    requires
        a0 <= a.len(),
        k <= a.len() - a0,
        b0 <= b.len(),
        k <= b.len() - b0,
        k < 0x4000_0000,
    ensures
        r == lev(a@.subrange(a0 as int, a0 + k), b@.subrange(b0 as int, b0 + k)),
        0 <= r <= k,
{
    proof {
        lemma_lev_le_max(a@.subrange(a0 as int, a0 + k), b@.subrange(b0 as int, b0 + k));
    }
    edit_distance_from_str(&a[a0..a0 + k], &b[b0..b0 + k]) as i32
}

impl FusionResult {
    pub open spec fn wf(&self) -> bool {
        &&& all_ok(self.m_matches@)
        &&& -MAX_POS < self.m_left_gp.position < MAX_POS
        &&& -MAX_POS < self.m_right_gp.position < MAX_POS
    }

    pub fn with_minimum() -> (r: FusionResult)
        ensures
            r.wf(),
            r.m_matches@.len() == 0,
            r.m_left_gp == (GenePos { contig: 0, position: 0 }),
            r.m_right_gp == (GenePos { contig: 0, position: 0 }),
            r.m_unique == 0,
            !r.m_left_is_exon,
            !r.m_right_is_exon,
            r.m_left_exon_or_intron_id == -1,
            r.m_right_exon_or_intron_id == -1,
    {
        FusionResult {
            m_left_gp: GenePos { contig: 0, position: 0 },
            m_right_gp: GenePos { contig: 0, position: 0 },
            m_matches: Vec::new(),
            m_unique: 0,
            m_title: Vec::new(),
            m_left_ref: Vec::new(),
            m_right_ref: Vec::new(),
            m_left_ref_ext: Vec::new(),
            m_right_ref_ext: Vec::new(),
            m_left_pos: Vec::new(),
            m_right_pos: Vec::new(),
            m_left_gene: Gene::default(),
            m_right_gene: Gene::default(),
            m_left_is_exon: false,
            m_right_is_exon: false,
            m_left_exon_or_intron_id: -1,
            m_right_exon_or_intron_id: -1,
        }
    }

    pub fn add_match(&mut self, m: ReadMatch)
        requires
            old(self).wf(),
            match_ok(m),
        ensures
            final(self).wf(),
            final(self).m_matches@ == old(self).m_matches@.push(m),
            final(self).m_left_gp == old(self).m_left_gp,
            final(self).m_right_gp == old(self).m_right_gp,
    {
        self.m_matches.push(m);
    }

    /// The consensus breakpoint: that of the first match without a gap, else
    /// the contigs of the first match with the positions averaged over all
    /// matches. Nothing changes without matches.
    pub fn calc_fusion_point(&mut self)
        requires
            old(self).wf(),
            old(self).m_matches@.len() < MAX_READ_LEN,
        ensures
            final(self).wf(),
            final(self).m_matches == old(self).m_matches,
            ({
                let ms = old(self).m_matches@;
                if ms.len() == 0 {
                    final(self).m_left_gp == old(self).m_left_gp && final(self).m_right_gp == old(
                        self,
                    ).m_right_gp
                } else {
                    match first_gapless(ms, 0) {
                        Some(i) => final(self).m_left_gp == ms[i].m_left_gp && final(self).m_right_gp
                            == ms[i].m_right_gp,
                        None => final(self).m_left_gp == (GenePos {
                            contig: ms[0].m_left_gp.contig,
                            position: trunc_div(sum_left(ms), ms.len() as int) as i32,
                        }) && final(self).m_right_gp == (GenePos {
                            contig: ms[0].m_right_gp.contig,
                            position: trunc_div(sum_right(ms), ms.len() as int) as i32,
                        }),
                    }
                }
            }),
    {
        let n = self.m_matches.len();
        if n == 0 {
            return;
        }
        let ghost ms = self.m_matches@;
        let mut left_total: i64 = 0;
        let mut right_total: i64 = 0;
        let mut i: usize = 0;
        while i < n
            invariant
                n == self.m_matches@.len(),
                ms == self.m_matches@,
                n < MAX_READ_LEN,
                all_ok(ms),
                i <= n,
                first_gapless(ms, 0) == first_gapless(ms, i as int),
                left_total == sum_left(ms.subrange(0, i as int)),
                right_total == sum_right(ms.subrange(0, i as int)),
                -0x3FFF_FFFF * i <= left_total <= 0x3FFF_FFFF * i,
                -0x3FFF_FFFF * i <= right_total <= 0x3FFF_FFFF * i,
                self.wf(),
                self.m_matches == old(self).m_matches,
            decreases n - i,
        {
            assert(ms.subrange(0, i + 1).drop_last() =~= ms.subrange(0, i as int));
            assert(match_ok(ms[i as int]));
            if self.m_matches[i].m_gap == 0 {
                assert(first_gapless(ms, i as int) == Some(i as int));
                self.m_left_gp = self.m_matches[i].m_left_gp;
                self.m_right_gp = self.m_matches[i].m_right_gp;
                return;
            }
            left_total = left_total + self.m_matches[i].m_left_gp.position as i64;
            right_total = right_total + self.m_matches[i].m_right_gp.position as i64;
            i = i + 1;
        }
        assert(ms.subrange(0, n as int) =~= ms);
        assert(first_gapless(ms, n as int) is None);
        let lp = trunc_avg(left_total, n as i64);
        let rp = trunc_avg(right_total, n as i64);
        self.m_left_gp = GenePos { contig: self.m_matches[0].m_left_gp.contig, position: lp };
        self.m_right_gp = GenePos { contig: self.m_matches[0].m_right_gp.contig, position: rp };
    }

    /// Counts the distinct supporting reads of the sorted matches.
    pub fn calc_unique(&mut self)
        requires
            old(self).m_matches@.len() < MAX_READ_LEN,
        ensures
            final(self).m_unique == unique_count(old(self).m_matches@),
            final(self).m_matches == old(self).m_matches,
            final(self).m_left_gp == old(self).m_left_gp,
            final(self).m_right_gp == old(self).m_right_gp,
            final(self).m_left_ref == old(self).m_left_ref,
            final(self).m_right_ref == old(self).m_right_ref,
            final(self).m_left_ref_ext == old(self).m_left_ref_ext,
            final(self).m_right_ref_ext == old(self).m_right_ref_ext,
    {
        let n = self.m_matches.len();
        let ghost ms = self.m_matches@;
        let mut u: i32 = 1;
        if n < 2 {
            self.m_unique = u;
            return;
        }
        let mut i: usize = 1;
        while i < n
            invariant
                n == ms.len(),
                ms == self.m_matches@,
                n < MAX_READ_LEN,
                1 <= i <= n,
                u == unique_count(ms.subrange(0, i as int)),
                1 <= u <= i,
            decreases n - i,
        {
            let ghost s = ms.subrange(0, i + 1);
            assert(s.drop_last() =~= ms.subrange(0, i as int));
            assert(s.last() == ms[i as int] && s[s.len() - 2] == ms[i - 1]);
            if self.m_matches[i].m_read_break != self.m_matches[i - 1].m_read_break
                || self.m_matches[i].m_read.len() != self.m_matches[i - 1].m_read.len() {
                u = u + 1;
            }
            i = i + 1;
        }
        assert(ms.subrange(0, n as int) =~= ms);
        self.m_unique = u;
    }

    /// Both sides on one contig and one strand.
    pub fn is_deletion(&self) -> (r: bool)
        ensures
            r == (self.m_left_gp.contig == self.m_right_gp.contig && ((self.m_left_gp.position > 0
                && self.m_right_gp.position > 0) || (self.m_left_gp.position < 0
                && self.m_right_gp.position < 0))),
    {
        if self.m_left_gp.contig == self.m_right_gp.contig {
            if self.m_left_gp.position > 0 && self.m_right_gp.position > 0 {
                return true;
            }
            if self.m_left_gp.position < 0 && self.m_right_gp.position < 0 {
                return true;
            }
        }
        false
    }

    /// Whether the two windows look like one contiguous sequence at some
    /// offset between -6 and 6.
    pub fn can_be_matched(s1: &[u8], s2: &[u8]) -> (r: bool)
        requires
            s1@.len() < 0x4000_0000,
            s2@.len() < 0x4000_0000,
        ensures
            r == alike_from(s1@, s2@, -6),
    {
        let len1 = s1.len() as i32;
        let len2 = s2.len() as i32;
        let mut offset: i32 = -6;
        while offset <= 6
            invariant
                -6 <= offset <= 7,
                len1 == s1@.len(),
                len2 == s2@.len(),
                len1 < 0x4000_0000,
                len2 < 0x4000_0000,
                alike_from(s1@, s2@, -6) == alike_from(s1@, s2@, offset as int),
            decreases 7 - offset,
        {
            let start1: i32 = if offset > 0 {
                offset
            } else {
                0
            };
            let start2: i32 = if offset < 0 {
                -offset
            } else {
                0
            };
            let a: i32 = if offset < 0 {
                -offset
            } else {
                offset
            };
            let want = len1 - a;
            let c0 = if want < 0 {
                0
            } else {
                want
            };
            if start1 >= len1 || start2 >= len2 {
                return true;
            }
            let cmplen = if start2 + c0 > len2 {
                len2 - start2
            } else {
                c0
            };
            let ed = window_ed(s1, start1 as usize, s2, start2 as usize, cmplen as usize);
            if ed <= cmplen / 10 {
                return true;
            }
            offset = offset + 1;
        }
        false
    }

    /// Whether the left window extended past the breakpoint matches the
    /// right reference, or the reverse.
    pub fn can_be_mapped(&self) -> (r: bool)
        requires
            self.refs_ok(),
        ensures
            r == (alike_from(self.m_left_ref_ext@, self.m_right_ref@, -6) || alike_from(
                self.m_left_ref@,
                self.m_right_ref_ext@,
                -6,
            )),
    {
        if FusionResult::can_be_matched(self.m_left_ref_ext.as_slice(), self.m_right_ref.as_slice()) {
            return true;
        }
        FusionResult::can_be_matched(self.m_left_ref.as_slice(), self.m_right_ref_ext.as_slice())
    }

    /// Enough distinct support, not explainable as ordinary contiguous
    /// sequence, and long, non-repetitive flanks.
    /// The reference windows are short enough for the checks on them.
    pub open spec fn refs_ok(&self) -> bool {
        &&& self.m_left_ref@.len() < 0x4000_0000
        &&& self.m_right_ref@.len() < 0x4000_0000
        &&& self.m_left_ref_ext@.len() < 0x4000_0000
        &&& self.m_right_ref_ext@.len() < 0x4000_0000
    }

    /// The qualification of a fusion call.
    pub open spec fn qualified(&self, settings: GlobalSettings) -> bool {
        self.m_unique >= settings.unique_requirement && !(alike_from(
            self.m_left_ref_ext@,
            self.m_right_ref@,
            -6,
        ) || alike_from(self.m_left_ref@, self.m_right_ref_ext@, -6)) && self.m_left_ref@.len() > 30
            && self.m_right_ref@.len() > 30 && disconnected(tail(self.m_left_ref@, 10)) > 2
            && disconnected(self.m_right_ref@.subrange(0, 10)) > 2
    }

    pub fn is_qualified(&self, settings: &GlobalSettings) -> (r: bool)
        requires
            self.refs_ok(),
        ensures
            r == self.qualified(*settings),
    {
        if self.m_unique < 0 || (self.m_unique as usize) < settings.unique_requirement {
            return false;
        }
        if self.can_be_mapped() {
            return false;
        }
        let ll = self.m_left_ref.len();
        let rl = self.m_right_ref.len();
        if ll <= 30 || rl <= 30 {
            return false;
        }
        let lt = &self.m_left_ref.as_slice()[ll - 10..ll];
        assert(lt@ == tail(self.m_left_ref@, 10));
        if dis_connected_count(lt) <= 2 {
            return false;
        }
        let rh = &self.m_right_ref.as_slice()[0..10];
        assert(rh@ == self.m_right_ref@.subrange(0, 10));
        if dis_connected_count(rh) <= 2 {
            return false;
        }
        true
    }

    /// Any match of the cluster supports the breakpoint of `m`.
    pub fn support(&self, m: &ReadMatch) -> (r: bool)
        ensures
            r == exists|i: int| 0 <= i < self.m_matches@.len() && supports_same(*m, #[trigger] self.m_matches@[i]),
    {
        let n = self.m_matches.len();
        let mut i: usize = 0;
        while i < n
            invariant
                n == self.m_matches@.len(),
                i <= n,
                forall|j: int| 0 <= j < i ==> !supports_same(*m, #[trigger] self.m_matches@[j]),
            decreases n - i,
        {
            if FusionResult::support_same(m, &self.m_matches[i]) {
                return true;
            }
            i = i + 1;
        }
        false
    }

    pub fn support_same(m1: &ReadMatch, m2: &ReadMatch) -> (r: bool)
        ensures
            r == supports_same(*m1, *m2),
    {
        let dl = m1.m_left_gp.position as i64 - m2.m_left_gp.position as i64;
        let dr = m1.m_right_gp.position as i64 - m2.m_right_gp.position as i64;
        if dl > 3 || dl < -3 {
            return false;
        }
        if dr > 3 || dr < -3 {
            return false;
        }
        if m1.m_left_gp.contig != m2.m_left_gp.contig {
            return false;
        }
        if m1.m_right_gp.contig != m2.m_right_gp.contig {
            return false;
        }
        true
    }

    pub fn is_left_protein_forward(&self) -> (r: bool)
        ensures
            r == if self.m_left_gene.m_reversed {
                self.m_left_gp.position < 0
            } else {
                self.m_left_gp.position > 0
            },
    {
        if self.m_left_gene.is_reversed() {
            self.m_left_gp.position < 0
        } else {
            self.m_left_gp.position > 0
        }
    }

    pub fn is_right_protein_forward(&self) -> (r: bool)
        ensures
            r == if self.m_right_gene.m_reversed {
                self.m_right_gp.position < 0
            } else {
                self.m_right_gp.position > 0
            },
    {
        if self.m_right_gene.is_reversed() {
            self.m_right_gp.position < 0
        } else {
            self.m_right_gp.position > 0
        }
    }
}

pub open spec fn longest_left(ms: Seq<ReadMatch>) -> int
    decreases ms.len(),
{
    if ms.len() == 0 {
        0
    } else {
        let rest = longest_left(ms.drop_last());
        let v = ms.last().m_read_break + 1;
        if v > rest {
            v
        } else {
            rest
        }
    }
}

pub open spec fn longest_right(ms: Seq<ReadMatch>) -> int
    decreases ms.len(),
{
    if ms.len() == 0 {
        0
    } else {
        let rest = longest_right(ms.drop_last());
        let v = ms.last().m_read.m_seq@.len() - (ms.last().m_read_break + 1);
        if v > rest {
            v
        } else {
            rest
        }
    }
}

/// The shift in `[s, 3]` with the smallest local edit distance, the first
/// one on ties, given the best `(shift, distance)` found before `s`.
pub open spec fn best_shift_from(r: Seq<u8>, lr: Seq<u8>, rr: Seq<u8>, b: int, s: int, best: int, best_v: int) -> int
    decreases 4 - s,
{
    if s > 3 {
        best
    } else if local_ed(r, lr, rr, b + s) < best_v {
        best_shift_from(r, lr, rr, b, s + 1, s, local_ed(r, lr, rr, b + s))
    } else {
        best_shift_from(r, lr, rr, b, s + 1, best, best_v)
    }
}

/// The shift of the breakpoint in `[-3, 3]` that minimises the local edit
/// distance.
pub open spec fn best_shift(r: Seq<u8>, lr: Seq<u8>, rr: Seq<u8>, b: int) -> int {
    best_shift_from(r, lr, rr, b, -3, 0, 0xFFFF)
}

/// A match with its breakpoint moved by `s` and the distances of both
/// parts recomputed.
pub open spec fn shifted(m: ReadMatch, lr: Seq<u8>, rr: Seq<u8>, s: int) -> ReadMatch {
    ReadMatch {
        m_read_break: (m.m_read_break + s) as i32,
        m_left_gp: GenePos { position: (m.m_left_gp.position + s) as i32, ..m.m_left_gp },
        m_right_gp: GenePos { position: (m.m_right_gp.position + s) as i32, ..m.m_right_gp },
        m_left_distance: left_ed(m.m_read.m_seq@, lr, m.m_read_break + s) as i32,
        m_right_distance: right_ed(m.m_read.m_seq@, rr, m.m_read_break + s) as i32,
        ..m
    }
}

/// Edit distance between the last `k` bases of `s[..l]` and of `lr`.
fn tail_ed(s: &[u8], l: usize, lr: &[u8], k: usize) -> (r: i32)
    requires
        l <= s@.len(),
        k <= l,
        k <= lr@.len(),
        k <= 20 || (s@.len() < MAX_READ_LEN),
    ensures
        r == lev(tail(s@.subrange(0, l as int), k as int), tail(lr@, k as int)),
        0 <= r <= k,
{
    assert(tail(s@.subrange(0, l as int), k as int) =~= s@.subrange(l - k, l as int));
    window_ed(s, l - k, lr, lr.len() - k, k)
}

/// Edit distance between the first `k` bases of `s[l..]` and of `rr`.
fn head_ed(s: &[u8], l: usize, rr: &[u8], k: usize) -> (r: i32)
    requires
        l <= s@.len(),
        k <= s@.len() - l,
        k <= rr@.len(),
        k <= 20 || (s@.len() < MAX_READ_LEN),
    ensures
        r == lev(s@.subrange(l as int, s@.len() as int).subrange(0, k as int), rr@.subrange(0, k as int)),
        0 <= r <= k,
{
    assert(s@.subrange(l as int, s@.len() as int).subrange(0, k as int) =~= s@.subrange(l as int, l + k));
    window_ed(s, l, rr, 0, k)
}

impl FusionResult {
    /// Cuts the reference windows around the breakpoint, as long as the
    /// longest left and right parts of the supporting reads, and the
    /// windows that extend each side past the breakpoint.
    pub fn make_reference(&mut self, ref_l: &[u8], ref_r: &[u8])
        requires
            old(self).wf(),
        ensures
            final(self).wf(),
            final(self).m_matches == old(self).m_matches,
            final(self).m_left_gp == old(self).m_left_gp,
            final(self).m_right_gp == old(self).m_right_gp,
            final(self).m_unique == old(self).m_unique,
            final(self).refs_ok(),
            ({
                let ll = longest_left(old(self).m_matches@);
                let lr = longest_right(old(self).m_matches@);
                let lp = old(self).m_left_gp.position as int;
                let rp = old(self).m_right_gp.position as int;
                &&& final(self).m_left_ref@ == ref_window(ref_l@, lp - ll + 1, lp)
                &&& final(self).m_right_ref@ == ref_window(ref_r@, rp, rp + lr - 1)
                &&& final(self).m_left_ref_ext@ == ref_window(ref_l@, lp, lp + lr - 1)
                &&& final(self).m_right_ref_ext@ == ref_window(ref_r@, rp - ll + 1, rp)
            }),
    {
        let n = self.m_matches.len();
        let ghost ms = self.m_matches@;
        let mut longest_l: i64 = 0;
        let mut longest_r: i64 = 0;
        let mut i: usize = 0;
        while i < n
            invariant
                n == ms.len(),
                ms == self.m_matches@,
                all_ok(ms),
                i <= n,
                longest_l == longest_left(ms.subrange(0, i as int)),
                longest_r == longest_right(ms.subrange(0, i as int)),
                0 <= longest_l <= MAX_READ_LEN,
                0 <= longest_r <= 2 * MAX_READ_LEN,
            decreases n - i,
        {
            assert(ms.subrange(0, i + 1).drop_last() =~= ms.subrange(0, i as int));
            assert(match_ok(ms[i as int]));
            let m = &self.m_matches[i];
            let v = m.m_read_break as i64 + 1;
            if v > longest_l {
                longest_l = v;
            }
            let w = m.m_read.len() as i64 - (m.m_read_break as i64 + 1);
            if w > longest_r {
                longest_r = w;
            }
            i = i + 1;
        }
        assert(ms.subrange(0, n as int) =~= ms);
        let lp = self.m_left_gp.position as i64;
        let rp = self.m_right_gp.position as i64;
        let ll = longest_l;
        let lr = longest_r;
        self.m_left_ref = get_ref_seq(ref_l, (lp - ll + 1) as i32, lp as i32);
        self.m_right_ref = get_ref_seq(ref_r, rp as i32, (rp + lr - 1) as i32);
        self.m_left_ref_ext = get_ref_seq(ref_l, lp as i32, (lp + lr - 1) as i32);
        self.m_right_ref_ext = get_ref_seq(ref_r, (rp - ll + 1) as i32, rp as i32);
    }

    /// Local, left and right edit distances of a match whose breakpoint is
    /// moved by `shift`.
    pub fn calc_ed(&self, m: &ReadMatch, shift: i32) -> (r: (i32, i32, i32))
        requires
            match_ok(*m),
            -3 <= shift <= 3,
        ensures
            r.0 == local_ed(m.m_read.m_seq@, self.m_left_ref@, self.m_right_ref@, m.m_read_break + shift),
            r.1 == left_ed(m.m_read.m_seq@, self.m_left_ref@, m.m_read_break + shift),
            r.2 == right_ed(m.m_read.m_seq@, self.m_right_ref@, m.m_read_break + shift),
            0 <= r.0 <= 40,
    {
        let s = m.m_read.m_seq.m_str.as_slice();
        let lr = self.m_left_ref.as_slice();
        let rr = self.m_right_ref.as_slice();
        let n = s.len();
        let b = m.m_read_break as i64 + shift as i64;
        let l: usize = if b + 1 < 0 {
            0
        } else if b + 1 > n as i64 {
            n
        } else {
            (b + 1) as usize
        };
        let rl = n - l;
        let lc = if l < lr.len() {
            l
        } else {
            lr.len()
        };
        let lc20 = if lc < 20 {
            lc
        } else {
            20
        };
        let rc = if rl < rr.len() {
            rl
        } else {
            rr.len()
        };
        let rc20 = if rc < 20 {
            rc
        } else {
            20
        };
        let left_part = tail_ed(s, l, lr, lc20);
        let right_part = head_ed(s, l, rr, rc20);
        let left = tail_ed(s, l, lr, lc);
        let right = head_ed(s, l, rr, rc);
        (left_part + right_part, left, right)
    }

    /// Moves the breakpoint of every match by the shift in `[-3, 3]` that
    /// minimises its local edit distance, and recomputes its distances.
    pub fn adjust_fusion_break(&mut self)
        requires
            old(self).wf(),
        ensures
            final(self).m_matches@.len() == old(self).m_matches@.len(),
            forall|i: int|
                0 <= i < old(self).m_matches@.len() ==> #[trigger] final(self).m_matches@[i] == shifted(
                    old(self).m_matches@[i],
                    old(self).m_left_ref@,
                    old(self).m_right_ref@,
                    best_shift(
                        old(self).m_matches@[i].m_read.m_seq@,
                        old(self).m_left_ref@,
                        old(self).m_right_ref@,
                        old(self).m_matches@[i].m_read_break as int,
                    ),
                ),
            final(self).m_left_gp == old(self).m_left_gp,
            final(self).m_right_gp == old(self).m_right_gp,
            final(self).m_left_ref == old(self).m_left_ref,
            final(self).m_right_ref == old(self).m_right_ref,
            final(self).m_left_ref_ext == old(self).m_left_ref_ext,
            final(self).m_right_ref_ext == old(self).m_right_ref_ext,
            final(self).m_unique == old(self).m_unique,
    {
        let n = self.m_matches.len();
        let ghost ms = self.m_matches@;
        let mut i: usize = 0;
        while i < n
            invariant
                n == ms.len(),
                self.m_matches@.len() == n,
                all_ok(ms),
                i <= n,
                forall|j: int| i <= j < n ==> #[trigger] self.m_matches@[j] == ms[j],
                forall|j: int|
                    0 <= j < i ==> #[trigger] self.m_matches@[j] == shifted(
                        ms[j],
                        self.m_left_ref@,
                        self.m_right_ref@,
                        best_shift(ms[j].m_read.m_seq@, self.m_left_ref@, self.m_right_ref@, ms[j].m_read_break as int),
                    ),
                self.m_left_gp == old(self).m_left_gp,
                self.m_right_gp == old(self).m_right_gp,
                self.m_left_ref == old(self).m_left_ref,
                self.m_right_ref == old(self).m_right_ref,
                self.m_left_ref_ext == old(self).m_left_ref_ext,
                self.m_right_ref_ext == old(self).m_right_ref_ext,
                self.m_unique == old(self).m_unique,
            decreases n - i,
        {
            assert(match_ok(ms[i as int]));
            let ghost mi = ms[i as int];
            let mut smallest: i32 = 0xFFFF;
            let mut best: i32 = 0;
            let mut best_left: i32 = self.m_matches[i].m_left_distance;
            let mut best_right: i32 = self.m_matches[i].m_right_distance;
            let mut s: i32 = -3;
            while s <= 3
                invariant
                    -3 <= s <= 4,
                    -3 <= best <= 3,
                    match_ok(mi),
                    self.m_matches@[i as int] == mi,
                    i < self.m_matches@.len(),
                    best_shift(mi.m_read.m_seq@, self.m_left_ref@, self.m_right_ref@, mi.m_read_break as int)
                        == best_shift_from(
                        mi.m_read.m_seq@,
                        self.m_left_ref@,
                        self.m_right_ref@,
                        mi.m_read_break as int,
                        s as int,
                        best as int,
                        smallest as int,
                    ),
                    s > -3 ==> 0 <= smallest <= 40,
                    s == -3 ==> smallest == 0xFFFF,
                    smallest == 0xFFFF ==> best == 0 && best_left == mi.m_left_distance && best_right
                        == mi.m_right_distance,
                    smallest != 0xFFFF ==> best_left == left_ed(mi.m_read.m_seq@, self.m_left_ref@, mi.m_read_break + best)
                        && best_right == right_ed(mi.m_read.m_seq@, self.m_right_ref@, mi.m_read_break + best),
                decreases 4 - s,
            {
                let (ed, l, r) = self.calc_ed(&self.m_matches[i], s);
                if ed < smallest {
                    smallest = ed;
                    best = s;
                    best_left = l;
                    best_right = r;
                }
                s = s + 1;
            }
            let ghost bs = best_shift(mi.m_read.m_seq@, self.m_left_ref@, self.m_right_ref@, mi.m_read_break as int);
            assert(bs == best);
            self.m_matches[i].m_read_break = self.m_matches[i].m_read_break + best;
            self.m_matches[i].m_left_gp.position = self.m_matches[i].m_left_gp.position + best;
            self.m_matches[i].m_right_gp.position = self.m_matches[i].m_right_gp.position + best;
            self.m_matches[i].m_left_distance = best_left;
            self.m_matches[i].m_right_distance = best_right;
            assert(self.m_matches@[i as int] == shifted(mi, self.m_left_ref@, self.m_right_ref@, bs));
            i = i + 1;
        }
    }
}

/// The title of a fusion call: its kind, both positions, and its support.
pub open spec fn title_text(del: bool, lt: Seq<u8>, rt: Seq<u8>, total: int, unique: int) -> Seq<u8> {
    let kind = if del {
        seq![68u8, 101, 108, 101, 116, 105, 111, 110, 58, 32]
    } else {
        seq![70u8, 117, 115, 105, 111, 110, 58, 32]
    };
    kind + lt + seq![95u8, 95, 95] + rt + seq![32u8, 32, 40, 116, 111, 116, 97, 108, 58, 32]
        + decimal(total) + seq![44u8, 32, 117, 110, 105, 113, 117, 101, 58] + decimal(unique)
        + seq![41u8]
}

/// All gene regions of a panel are well formed.
pub open spec fn fusions_ok(fusions: Seq<Fusion>) -> bool {
    forall|i: int| 0 <= i < fusions.len() ==> (#[trigger] fusions[i]).m_gene.wf()
}

impl FusionResult {
    /// Fills in the genes of both sides, the title, the position texts and
    /// the exon or intron of each side.
    pub fn update_info(&mut self, fusions: &Vec<Fusion>)
        requires
            fusions_ok(fusions@),
            0 <= old(self).m_left_gp.contig < fusions@.len(),
            0 <= old(self).m_right_gp.contig < fusions@.len(),
            old(self).m_matches@.len() < MAX_READ_LEN,
        ensures
            ({
                let lg = fusions@[old(self).m_left_gp.contig as int].m_gene;
                let rg = fusions@[old(self).m_right_gp.contig as int].m_gene;
                let lp = old(self).m_left_gp.position as int;
                let rp = old(self).m_right_gp.position as int;
                &&& final(self).m_left_gene.m_name@ == lg.m_name@
                &&& final(self).m_left_gene.m_exons@ == lg.m_exons@
                &&& final(self).m_left_gene.m_reversed == lg.m_reversed
                &&& final(self).m_right_gene.m_name@ == rg.m_name@
                &&& final(self).m_right_gene.m_exons@ == rg.m_exons@
                &&& final(self).m_right_gene.m_reversed == rg.m_reversed
                &&& final(self).m_left_pos@ == pos_text(&lg, lp)
                &&& final(self).m_right_pos@ == pos_text(&rg, rp)
                &&& final(self).m_title@ == title_text(
                    old(self).is_deletion_spec(),
                    pos_text(&lg, lp),
                    pos_text(&rg, rp),
                    old(self).m_matches@.len() as int,
                    old(self).m_unique as int,
                )
                &&& match locate(lg.m_exons@, lg.m_reversed, lg.chr_pos(lp), 0) {
                    Some((e, n)) => final(self).m_left_is_exon == e && final(self).m_left_exon_or_intron_id == n,
                    None => final(self).m_left_is_exon == old(self).m_left_is_exon
                        && final(self).m_left_exon_or_intron_id == old(self).m_left_exon_or_intron_id,
                }
                &&& match locate(rg.m_exons@, rg.m_reversed, rg.chr_pos(rp), 0) {
                    Some((e, n)) => final(self).m_right_is_exon == e && final(self).m_right_exon_or_intron_id == n,
                    None => final(self).m_right_is_exon == old(self).m_right_is_exon
                        && final(self).m_right_exon_or_intron_id == old(self).m_right_exon_or_intron_id,
                }
            }),
            final(self).m_matches == old(self).m_matches,
            final(self).m_left_gp == old(self).m_left_gp,
            final(self).m_right_gp == old(self).m_right_gp,
            final(self).m_unique == old(self).m_unique,
            final(self).m_left_ref == old(self).m_left_ref,
            final(self).m_right_ref == old(self).m_right_ref,
            final(self).m_left_ref_ext == old(self).m_left_ref_ext,
            final(self).m_right_ref_ext == old(self).m_right_ref_ext,
    {
        let lc = self.m_left_gp.contig as usize;
        let rc = self.m_right_gp.contig as usize;
        assert(fusions@[lc as int].m_gene.wf());
        assert(fusions@[rc as int].m_gene.wf());
        self.m_left_gene = fusions[lc].m_gene.duplicate();
        self.m_right_gene = fusions[rc].m_gene.duplicate();
        let del = self.is_deletion();
        let lt = fusions[lc].m_gene.pos2str(self.m_left_gp.position);
        let rt = fusions[rc].m_gene.pos2str(self.m_right_gp.position);
        let mut ss: Vec<u8> = Vec::new();
        if del {
            let k: Vec<u8> = vec![68u8, 101, 108, 101, 116, 105, 111, 110, 58, 32];
            push_all(&mut ss, k.as_slice());
        } else {
            let k: Vec<u8> = vec![70u8, 117, 115, 105, 111, 110, 58, 32];
            push_all(&mut ss, k.as_slice());
        }
        push_all(&mut ss, lt.as_slice());
        let sep: Vec<u8> = vec![95u8, 95, 95];
        push_all(&mut ss, sep.as_slice());
        push_all(&mut ss, rt.as_slice());
        let t1: Vec<u8> = vec![32u8, 32, 40, 116, 111, 116, 97, 108, 58, 32];
        push_all(&mut ss, t1.as_slice());
        let total = int2str(self.m_matches.len() as i64);
        push_all(&mut ss, total.as_slice());
        let t2: Vec<u8> = vec![44u8, 32, 117, 110, 105, 113, 117, 101, 58];
        push_all(&mut ss, t2.as_slice());
        let uq = int2str(self.m_unique as i64);
        push_all(&mut ss, uq.as_slice());
        ss.push(41);
        assert(ss@ =~= title_text(del, lt@, rt@, self.m_matches@.len() as int, self.m_unique as int));
        self.m_title = ss;
        self.m_left_pos = lt;
        self.m_right_pos = rt;
        let mut le = self.m_left_is_exon;
        let mut ln = self.m_left_exon_or_intron_id;
        fusions[lc].m_gene.get_exon_intron(self.m_left_gp.position, &mut le, &mut ln);
        self.m_left_is_exon = le;
        self.m_left_exon_or_intron_id = ln;
        let mut re = self.m_right_is_exon;
        let mut rn = self.m_right_exon_or_intron_id;
        fusions[rc].m_gene.get_exon_intron(self.m_right_gp.position, &mut re, &mut rn);
        self.m_right_is_exon = re;
        self.m_right_exon_or_intron_id = rn;
    }

    pub open spec fn is_deletion_spec(&self) -> bool {
        self.m_left_gp.contig == self.m_right_gp.contig && ((self.m_left_gp.position > 0
            && self.m_right_gp.position > 0) || (self.m_left_gp.position < 0
            && self.m_right_gp.position < 0))
    }
}

/// `a / n` rounded toward zero.
fn trunc_avg(a: i64, n: i64) -> (r: i32)
    requires
        1 <= n < 0x1000_0000,
        -0x4000_0000 * n < a < 0x4000_0000 * n,
    ensures
        r == trunc_div(a as int, n as int),
        -MAX_POS < r < MAX_POS,
{
    let m: u64 = if a >= 0 {
        a as u64
    } else {
        (-a) as u64
    };
    assert(m < 0x4000_0000 * n);
    let q: u64 = m / (n as u64);
    assert(q < MAX_POS) by (nonlinear_arith)
        requires
            q == m / (n as u64),
            (m as int) < 0x4000_0000 * n,
            n >= 1,
    {
        vstd::arithmetic::div_mod::lemma_fundamental_div_mod(m as int, n as int);
    }
    if a >= 0 {
        q as i32
    } else {
        -(q as i32)
    }
}

} // verus!
