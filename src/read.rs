//! Sequencing reads and the merging of the two ends of a pair.
use vstd::prelude::*;
use crate::sequence::{revcomp, Sequence};
use crate::text::{decimal, int2str, push_all};

verus! {

/// Strand marker `+`.
pub const STRAND_PLUS: u8 = 43;

/// Strand marker `-`.
pub const STRAND_MINUS: u8 = 45;

/// At least this many bases must overlap for two ends to be merged.
pub const MIN_OVERLAP: i32 = 30;

/// Quality characters at or above this are high quality (Q30).
pub const QUAL_HIGH: u8 = 63;

/// Quality characters at or below this are low quality (Q15).
pub const QUAL_LOW: u8 = 48;

/// The highest quality character a merged base gets.
pub const QUAL_MAX: u8 = 90;

/// One read: name, bases, strand marker and quality string.
#[derive(Clone, Debug)]
pub struct SequenceRead {
    pub m_name: Vec<u8>,
    pub m_seq: Sequence,
    pub m_strand: Vec<u8>,
    pub m_quality: Vec<u8>,
    pub m_has_quality: bool,
}

impl SequenceRead {
    /// The quality string has one character per base.
    pub open spec fn wf(&self) -> bool {
        self.m_quality@.len() == self.m_seq@.len()
    }

    pub fn new(m_name: Vec<u8>, m_seq: Vec<u8>, m_strand: Vec<u8>, m_quality: Vec<u8>, m_has_quality: bool) -> (r: SequenceRead)
        ensures
            r.m_name@ == m_name@,
            r.m_seq@ == m_seq@,
            r.m_strand@ == m_strand@,
            r.m_quality@ == m_quality@,
            r.m_has_quality == m_has_quality,
    {
        SequenceRead { m_name, m_seq: Sequence::new(m_seq), m_strand, m_quality, m_has_quality }
    }

    pub fn len(&self) -> (r: usize)
        ensures
            r == self.m_seq@.len(),
    {
        self.m_seq.len()
    }

    /// A copy with the same content.
    pub fn duplicate(&self) -> (r: SequenceRead)
        ensures
            r.m_name@ == self.m_name@,
            r.m_seq@ == self.m_seq@,
            r.m_strand@ == self.m_strand@,
            r.m_quality@ == self.m_quality@,
            r.m_has_quality == self.m_has_quality,
    {
        SequenceRead {
            m_name: self.m_name.clone(),
            m_seq: Sequence::new(self.m_seq.m_str.clone()),
            m_strand: self.m_strand.clone(),
            m_quality: self.m_quality.clone(),
            m_has_quality: self.m_has_quality,
        }
    }

    /// Number of bases whose quality is below `qual`.
    pub fn low_qual_count(&self, qual: i32) -> (r: usize)
        ensures
            r == count_below(self.m_quality@, qual as int + 33),
    {
        let mut count: usize = 0;
        let mut i: usize = 0;
        while i < self.m_quality.len()
            invariant
                i <= self.m_quality@.len(),
                count == count_below(self.m_quality@.subrange(0, i as int), qual as int + 33),
                count <= i,
            decreases self.m_quality@.len() - i,
        {
            assert(self.m_quality@.subrange(0, i + 1).drop_last() =~= self.m_quality@.subrange(0, i as int));
            if (self.m_quality[i] as i64) < qual as i64 + 33 {
                count = count + 1;
            }
            i = i + 1;
        }
        assert(self.m_quality@.subrange(0, self.m_quality@.len() as int) =~= self.m_quality@);
        count
    }

    /// The read of the other strand: bases reverse-complemented, quality
    /// reversed, strand marker flipped.
    pub fn reverse_complement(&self) -> (r: SequenceRead)
        ensures
            r.m_name@ == self.m_name@,
            r.m_seq@ == revcomp(self.m_seq@),
            r.m_quality@ == self.m_quality@.reverse(),
            r.m_strand@ == (if self.m_strand@ == seq![STRAND_PLUS] {
                seq![STRAND_MINUS]
            } else {
                seq![STRAND_PLUS]
            }),
            r.m_has_quality,
            self.wf() ==> r.wf(),
    {
        let seq = self.m_seq.reverse_complement();
        let n = self.m_quality.len();
        let mut qual: Vec<u8> = Vec::with_capacity(n);
        let mut k: usize = 0;
        while k < n
            invariant
                n == self.m_quality@.len(),
                k <= n,
                qual@ == self.m_quality@.reverse().subrange(0, k as int),
            decreases n - k,
        {
            qual.push(self.m_quality[n - 1 - k]);
            k = k + 1;
            assert(qual@ =~= self.m_quality@.reverse().subrange(0, k as int));
        }
        assert(qual@ =~= self.m_quality@.reverse());
        let plus = self.m_strand.len() == 1 && self.m_strand[0] == STRAND_PLUS;
        let mut strand: Vec<u8> = Vec::new();
        if plus {
            strand.push(STRAND_MINUS);
            assert(self.m_strand@ =~= seq![STRAND_PLUS]);
        } else {
            strand.push(STRAND_PLUS);
        }
        assert(strand@ =~= (if self.m_strand@ == seq![STRAND_PLUS] {
            seq![STRAND_MINUS]
        } else {
            seq![STRAND_PLUS]
        }));
        SequenceRead { m_name: self.m_name.clone(), m_seq: seq, m_strand: strand, m_quality: qual, m_has_quality: true }
    }

    /// The part of the name after its last `:` or `+` that lies at least five
    /// characters before the end; empty when there is none.
    pub fn last_index(&self) -> (r: Vec<u8>)
        ensures
            r@ == last_index_of(self.m_name@),
    {
        let len = self.m_name.len();
        let mut out: Vec<u8> = Vec::new();
        if len < 5 {
            return out;
        }
        let mut i: usize = len - 4;
        while i > 0
            invariant
                len == self.m_name@.len(),
                len >= 5,
                0 <= i <= len - 4,
                out@.len() == 0,
                last_index_of(self.m_name@) == last_index_from(self.m_name@, i as int),
            decreases i,
        {
            let ch = self.m_name[i - 1];
            if ch == 58 || ch == 43 {
                let mut j: usize = i;
                while j < len
                    invariant
                        1 <= i <= j <= len,
                        len == self.m_name@.len(),
                        out@ == self.m_name@.subrange(i as int, j as int),
                    decreases len - j,
                {
                    out.push(self.m_name[j]);
                    j = j + 1;
                    assert(out@ =~= self.m_name@.subrange(i as int, j as int));
                }
                return out;
            }
            i = i - 1;
        }
        out
    }
}

/// Scans the name backwards from position `i - 1` for `:` or `+`.
pub open spec fn last_index_from(name: Seq<u8>, i: int) -> Seq<u8>
    decreases i,
{
    if i <= 0 {
        Seq::empty()
    } else if name[i - 1] == 58 || name[i - 1] == 43 {
        name.subrange(i, name.len() as int)
    } else {
        last_index_from(name, i - 1)
    }
}

pub open spec fn last_index_of(name: Seq<u8>) -> Seq<u8> {
    if name.len() < 5 {
        Seq::empty()
    } else {
        last_index_from(name, name.len() - 4)
    }
}

/// Number of characters of `s` below `bound`.
pub open spec fn count_below(s: Seq<u8>, bound: int) -> nat
    decreases s.len(),
{
    if s.len() == 0 {
        0
    } else {
        count_below(s.drop_last(), bound) + if (s.last() as int) < bound {
            1nat
        } else {
            0nat
        }
    }
}

/// One base of quality `q1` against one of quality `q2`, one of them high
/// quality and the other low.
pub open spec fn low_qual_pair(q1: u8, q2: u8) -> bool {
    (q1 >= QUAL_HIGH && q2 <= QUAL_LOW) || (q1 <= QUAL_LOW && q2 >= QUAL_HIGH)
}

/// Mismatches among the first `n` bases of the overlap that starts at `off`
/// on `s1` and at 0 on `s2`.
pub open spec fn diff_count(s1: Seq<u8>, s2: Seq<u8>, off: int, n: int) -> nat
    decreases n,
{
    if n <= 0 {
        0
    } else {
        diff_count(s1, s2, off, n - 1) + if s1[off + n - 1] != s2[n - 1] {
            1nat
        } else {
            0nat
        }
    }
}

/// Mismatches of a high-quality base against a low-quality one among the
/// first `n` bases of the overlap.
pub open spec fn low_diff_count(s1: Seq<u8>, s2: Seq<u8>, q1: Seq<u8>, q2: Seq<u8>, off: int, n: int) -> nat
    decreases n,
{
    if n <= 0 {
        0
    } else {
        low_diff_count(s1, s2, q1, q2, off, n - 1) + if s1[off + n - 1] != s2[n - 1] && low_qual_pair(
            q1[off + n - 1],
            q2[n - 1],
        ) {
            1nat
        } else {
            0nat
        }
    }
}

/// An overlap of `olen` bases is accepted when every mismatch in it pairs a
/// high-quality base with a low-quality one, and there are at most two.
pub open spec fn overlap_ok(s1: Seq<u8>, s2: Seq<u8>, q1: Seq<u8>, q2: Seq<u8>, olen: int) -> bool {
    let off = s1.len() - olen;
    diff_count(s1, s2, off, olen) == low_diff_count(s1, s2, q1, q2, off, olen) && diff_count(
        s1,
        s2,
        off,
        olen,
    ) <= 2
}

/// The shortest accepted overlap of at least `o` and at most `hi` bases.
pub open spec fn first_overlap(s1: Seq<u8>, s2: Seq<u8>, q1: Seq<u8>, q2: Seq<u8>, o: int, hi: int) -> Option<int>
    decreases hi + 1 - o,
{
    if o > hi {
        None
    } else if overlap_ok(s1, s2, q1, q2, o) {
        Some(o)
    } else {
        first_overlap(s1, s2, q1, q2, o + 1, hi)
    }
}

/// The base of the merged read at `j`, for an overlap of `olen` bases.
pub open spec fn merged_base(s1: Seq<u8>, s2: Seq<u8>, q1: Seq<u8>, q2: Seq<u8>, olen: int, j: int) -> u8 {
    let off = s1.len() - olen;
    if j < off {
        s1[j]
    } else if j < s1.len() && s1[j] != s2[j - off] && q1[j] >= QUAL_HIGH && q2[j - off] <= QUAL_LOW {
        s1[j]
    } else {
        s2[j - off]
    }
}

/// The quality of the merged read at `j`: agreeing bases add their
/// qualities, up to `QUAL_MAX`.
pub open spec fn merged_qual(s1: Seq<u8>, s2: Seq<u8>, q1: Seq<u8>, q2: Seq<u8>, olen: int, j: int) -> u8 {
    let off = s1.len() - olen;
    if j < off {
        q1[j]
    } else if j < s1.len() && s1[j] != s2[j - off] {
        if q1[j] >= QUAL_HIGH && q2[j - off] <= QUAL_LOW {
            q1[j]
        } else {
            q2[j - off]
        }
    } else if j < s1.len() {
        summed_qual(q1[j], q2[j - off])
    } else {
        q2[j - off]
    }
}

pub open spec fn summed_qual(a: u8, b: u8) -> u8 {
    let v = a + b - 33;
    if v >= QUAL_MAX {
        QUAL_MAX
    } else if v < 0 {
        0
    } else {
        v as u8
    }
}

/// The name of a merged read: the left name, ` merged_diff_`, the number
/// of mismatches.
pub open spec fn merged_name(name: Seq<u8>, diff: int) -> Seq<u8> {
    name + seq![32u8, 109, 101, 114, 103, 101, 100, 95, 100, 105, 102, 102, 95] + decimal(diff)
}

/// Two ends of a read pair.
#[derive(Clone, Debug)]
pub struct SequenceReadPair {
    pub m_left: SequenceRead,
    pub m_right: SequenceRead,
}

impl SequenceReadPair {
    pub fn new(left: SequenceRead, right: SequenceRead) -> (r: SequenceReadPair)
        ensures
            r.m_left == left,
            r.m_right == right,
    {
        SequenceReadPair { m_left: left, m_right: right }
    }

    /// Merges the pair into one read when the end of the left read overlaps
    /// the reverse complement of the right one by at least `MIN_OVERLAP`
    /// bases; the shortest accepted overlap is taken.
    #[verifier::rlimit(50)]
    pub fn fast_merge(&self) -> (r: Option<SequenceRead>)
        requires
            self.m_left.wf(),
            self.m_right.wf(),
            self.m_left.m_seq@.len() < 0x4000_0000,
            self.m_right.m_seq@.len() < 0x4000_0000,
        ensures
            ({
                let s1 = self.m_left.m_seq@;
                let s2 = revcomp(self.m_right.m_seq@);
                let q1 = self.m_left.m_quality@;
                let q2 = self.m_right.m_quality@.reverse();
                let hi = if s1.len() < s2.len() {
                    s1.len() as int
                } else {
                    s2.len() as int
                };
                match first_overlap(s1, s2, q1, q2, MIN_OVERLAP as int, hi) {
                    None => r is None,
                    Some(olen) => r matches Some(m) && m.m_seq@.len() == s1.len() - olen + s2.len()
                        && (forall|j: int|
                        0 <= j < m.m_seq@.len() ==> #[trigger] m.m_seq@[j] == merged_base(
                            s1,
                            s2,
                            q1,
                            q2,
                            olen,
                            j,
                        ) && m.m_quality@[j] == merged_qual(s1, s2, q1, q2, olen, j))
                        && m.m_quality@.len() == m.m_seq@.len() && m.m_name@ == merged_name(
                        self.m_left.m_name@,
                        diff_count(s1, s2, s1.len() - olen, olen) as int,
                    ) && m.m_strand@ == seq![STRAND_PLUS] && m.m_has_quality,
                }
            }),
    {
        let rc_right = self.m_right.reverse_complement();
        let str1 = &self.m_left.m_seq.m_str;
        let str2 = &rc_right.m_seq.m_str;
        let qual1 = &self.m_left.m_quality;
        let qual2 = &rc_right.m_quality;
        let len1 = str1.len();
        let len2 = str2.len();
        let hi: usize = if len1 < len2 {
            len1
        } else {
            len2
        };
        let ghost s1 = str1@;
        let ghost s2 = str2@;
        let ghost q1 = qual1@;
        let ghost q2 = qual2@;
        let mut olen: usize = MIN_OVERLAP as usize;
        let mut diff: usize = 0;
        let mut overlapped = false;
        while olen <= hi
            invariant_except_break
                MIN_OVERLAP <= olen,
                !overlapped,
                first_overlap(s1, s2, q1, q2, MIN_OVERLAP as int, hi as int) == first_overlap(
                    s1,
                    s2,
                    q1,
                    q2,
                    olen as int,
                    hi as int,
                ),
            invariant
                s1 == str1@,
                s2 == str2@,
                q1 == qual1@,
                q2 == qual2@,
                len1 == s1.len(),
                len2 == s2.len(),
                q1.len() == len1,
                q2.len() == len2,
                hi <= len1,
                hi <= len2,
                len1 < 0x4000_0000,
            ensures
                overlapped ==> first_overlap(s1, s2, q1, q2, MIN_OVERLAP as int, hi as int) == Some(
                    olen as int,
                ) && diff == diff_count(s1, s2, len1 - olen, olen as int) && olen <= hi && diff <= 2,
                !overlapped ==> first_overlap(s1, s2, q1, q2, MIN_OVERLAP as int, hi as int) is None,
            decreases hi + 1 - olen,
        {
            let offset = len1 - olen;
            let mut d: usize = 0;
            let mut low: usize = 0;
            let mut ok = true;
            let mut i: usize = 0;
            while i < olen
                invariant_except_break
                    ok,
                    i <= olen,
                    d == diff_count(s1, s2, offset as int, i as int),
                    low == low_diff_count(s1, s2, q1, q2, offset as int, i as int),
                    d == low,
                    low < 3,
                invariant
                    s1 == str1@,
                    s2 == str2@,
                    q1 == qual1@,
                    q2 == qual2@,
                    len1 == s1.len(),
                    len2 == s2.len(),
                    q1.len() == len1,
                    q2.len() == len2,
                    olen <= hi,
                    hi <= len1,
                    hi <= len2,
                    offset == len1 - olen,
                ensures
                    ok ==> i == olen && d == diff_count(s1, s2, offset as int, olen as int)
                        && overlap_ok(s1, s2, q1, q2, olen as int),
                    !ok ==> !overlap_ok(s1, s2, q1, q2, olen as int),
                decreases olen - i,
            {
                let mismatch = str1[offset + i] != str2[i];
                let lowq = low_pair(qual1[offset + i], qual2[i]);
                assert(diff_count(s1, s2, offset as int, i + 1) == d + if mismatch {
                    1nat
                } else {
                    0nat
                });
                assert(low_diff_count(s1, s2, q1, q2, offset as int, i + 1) == low + if mismatch && lowq {
                    1nat
                } else {
                    0nat
                });
                if mismatch {
                    d = d + 1;
                    if lowq {
                        low = low + 1;
                    }
                    if d > low || low >= 3 {
                        ok = false;
                        proof {
                            lemma_counts_grow(s1, s2, q1, q2, offset as int, i + 1, olen as int);
                        }
                        break;
                    }
                }
                i = i + 1;
            }
            if ok {
                overlapped = true;
                diff = d;
                break;
            }
            olen = olen + 1;
        }
        if !overlapped {
            return None;
        }
        let offset = len1 - olen;
        let mut seq: Vec<u8> = Vec::new();
        let mut qual: Vec<u8> = Vec::new();
        let total = offset + len2;
        let mut j: usize = 0;
        while j < total
            invariant
                s1 == str1@,
                s2 == str2@,
                q1 == qual1@,
                q2 == qual2@,
                len1 == s1.len(),
                len2 == s2.len(),
                q1.len() == len1,
                q2.len() == len2,
                olen <= len1,
                olen <= len2,
                offset == len1 - olen,
                total == offset + len2,
                j <= total,
                seq@.len() == j,
                qual@.len() == j,
                forall|k: int|
                    0 <= k < j ==> #[trigger] seq@[k] == merged_base(s1, s2, q1, q2, olen as int, k)
                        && qual@[k] == merged_qual(s1, s2, q1, q2, olen as int, k),
            decreases total - j,
        {
            if j < offset {
                seq.push(str1[j]);
                qual.push(qual1[j]);
            } else if j < len1 {
                let a = str1[j];
                let b = str2[j - offset];
                let qa = qual1[j];
                let qb = qual2[j - offset];
                if a != b {
                    if qa >= QUAL_HIGH && qb <= QUAL_LOW {
                        seq.push(a);
                        qual.push(qa);
                    } else {
                        seq.push(b);
                        qual.push(qb);
                    }
                } else {
                    seq.push(b);
                    let v: u32 = qa as u32 + qb as u32;
                    let q: u8 = if v < 33 {
                        0
                    } else if v - 33 >= QUAL_MAX as u32 {
                        QUAL_MAX
                    } else {
                        (v - 33) as u8
                    };
                    qual.push(q);
                }
            } else {
                seq.push(str2[j - offset]);
                qual.push(qual2[j - offset]);
            }
            assert(seq@[j as int] == merged_base(s1, s2, q1, q2, olen as int, j as int));
            assert(qual@[j as int] == merged_qual(s1, s2, q1, q2, olen as int, j as int));
            j = j + 1;
        }
        let mut name: Vec<u8> = self.m_left.m_name.clone();
        let suffix: Vec<u8> = vec![32u8, 109, 101, 114, 103, 101, 100, 95, 100, 105, 102, 102, 95];
        push_all(&mut name, suffix.as_slice());
        let digits = int2str(diff as i64);
        push_all(&mut name, digits.as_slice());
        assert(suffix@ =~= seq![32u8, 109, 101, 114, 103, 101, 100, 95, 100, 105, 102, 102, 95]);
        let mut strand: Vec<u8> = Vec::new();
        strand.push(STRAND_PLUS);
        assert(strand@ =~= seq![STRAND_PLUS]);
        assert(name@ == merged_name(self.m_left.m_name@, diff as int));
        assert(s1 == self.m_left.m_seq@);
        assert(s2 == revcomp(self.m_right.m_seq@));
        assert(q2 == self.m_right.m_quality@.reverse());
        let merged = SequenceRead { m_name: name, m_seq: Sequence::new(seq), m_strand: strand, m_quality: qual, m_has_quality: true };
        assert(merged.m_seq@.len() == s1.len() - olen + s2.len());
        assert(forall|j: int|
            0 <= j < merged.m_seq@.len() ==> #[trigger] merged.m_seq@[j] == merged_base(s1, s2, q1, q2, olen as int, j)
                && merged.m_quality@[j] == merged_qual(s1, s2, q1, q2, olen as int, j));
        assert(first_overlap(s1, s2, q1, q2, MIN_OVERLAP as int, hi as int) == Some(olen as int));
        Some(merged)
    }
}

pub fn low_pair(q1: u8, q2: u8) -> (r: bool)
    ensures
        r == low_qual_pair(q1, q2),
{
    (q1 >= QUAL_HIGH && q2 <= QUAL_LOW) || (q1 <= QUAL_LOW && q2 >= QUAL_HIGH)
}

/// Along the overlap the count of high-against-low mismatches and the count
/// of other mismatches never fall.
pub proof fn lemma_counts_grow(s1: Seq<u8>, s2: Seq<u8>, q1: Seq<u8>, q2: Seq<u8>, off: int, p: int, n: int)
    requires
        0 <= p <= n,
    ensures
        low_diff_count(s1, s2, q1, q2, off, p) <= low_diff_count(s1, s2, q1, q2, off, n),
        diff_count(s1, s2, off, p) - low_diff_count(s1, s2, q1, q2, off, p) <= diff_count(s1, s2, off, n)
            - low_diff_count(s1, s2, q1, q2, off, n),
    decreases n - p,
{
    if p < n {
        lemma_counts_grow(s1, s2, q1, q2, off, p, n - 1);
        lemma_low_le_diff(s1, s2, q1, q2, off, n);
    }
}

pub proof fn lemma_low_le_diff(s1: Seq<u8>, s2: Seq<u8>, q1: Seq<u8>, q2: Seq<u8>, off: int, n: int)
    ensures
        low_diff_count(s1, s2, q1, q2, off, n) <= diff_count(s1, s2, off, n),
    decreases n,
{
    if n > 0 {
        lemma_low_le_diff(s1, s2, q1, q2, off, n - 1);
    }
}

} // verus!
