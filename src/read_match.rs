//! A read that maps across a fusion breakpoint.
use vstd::prelude::*;
use crate::common::GenePos;
use crate::read::{SequenceRead, SequenceReadPair};

verus! {

broadcast use vstd::seq_lib::group_to_multiset_ensures;

/// A read split at a breakpoint between two gene positions.
#[derive(Clone, Debug)]
pub struct ReadMatch {
    pub m_read: SequenceRead,
    pub m_original_reads: Vec<SequenceRead>,
    pub m_overall_distance: i32,
    pub m_left_distance: i32,
    pub m_right_distance: i32,
    /// Bases between the two matched segments; negative when they overlap.
    pub m_gap: i32,
    pub m_reversed: bool,
    /// Offset of the last base of the left part.
    pub m_read_break: i32,
    pub m_left_gp: GenePos,
    pub m_right_gp: GenePos,
}

/// Order of read matches: by breakpoint, then longer reads first, then by name.
pub open spec fn match_lt(a: &ReadMatch, b: &ReadMatch) -> bool {
    a.m_read_break < b.m_read_break || (a.m_read_break == b.m_read_break && (a.m_read.m_seq@.len()
        > b.m_read.m_seq@.len() || (a.m_read.m_seq@.len() == b.m_read.m_seq@.len() && lex_lt(
        a.m_read.m_name@,
        b.m_read.m_name@,
    ))))
}

/// Byte-wise lexicographic order.
pub open spec fn lex_lt(a: Seq<u8>, b: Seq<u8>) -> bool
    decreases a.len(),
{
    if b.len() == 0 {
        false
    } else if a.len() == 0 {
        true
    } else if a[0] != b[0] {
        a[0] < b[0]
    } else {
        lex_lt(a.drop_first(), b.drop_first())
    }
}

pub fn bytes_lt(a: &[u8], b: &[u8]) -> (r: bool)
    ensures
        r == lex_lt(a@, b@),
{
    let mut i: usize = 0;
    assert(a@.subrange(0, a@.len() as int) =~= a@);
    assert(b@.subrange(0, b@.len() as int) =~= b@);
    while i < a.len() && i < b.len()
        invariant
            i <= a@.len(),
            i <= b@.len(),
            lex_lt(a@, b@) == lex_lt(a@.subrange(i as int, a@.len() as int), b@.subrange(i as int, b@.len() as int)),
        decreases a@.len() - i,
    {
        let ghost sa = a@.subrange(i as int, a@.len() as int);
        let ghost sb = b@.subrange(i as int, b@.len() as int);
        assert(sa.drop_first() =~= a@.subrange(i + 1, a@.len() as int));
        assert(sb.drop_first() =~= b@.subrange(i + 1, b@.len() as int));
        if a[i] != b[i] {
            return a[i] < b[i];
        }
        i = i + 1;
    }
    i < b.len()
}

/// Key of the order the matches of one fusion are kept in: the reverse of
/// `match_lt`, so breakpoint descending, then shorter reads first, then by
/// name descending.
pub open spec fn key_ge(a: &ReadMatch, b: &ReadMatch) -> bool {
    !match_lt(a, b)
}

pub proof fn lemma_lex_lt_irrefl(a: Seq<u8>)
    ensures
        !lex_lt(a, a),
    decreases a.len(),
{
    if a.len() > 0 {
        lemma_lex_lt_irrefl(a.drop_first());
    }
}

pub proof fn lemma_lex_lt_trans(a: Seq<u8>, b: Seq<u8>, c: Seq<u8>)
    requires
        lex_lt(a, b),
        lex_lt(b, c),
    ensures
        lex_lt(a, c),
    decreases a.len(),
{
    if a.len() > 0 && b.len() > 0 && c.len() > 0 && a[0] == b[0] && b[0] == c[0] {
        lemma_lex_lt_trans(a.drop_first(), b.drop_first(), c.drop_first());
    }
}

pub proof fn lemma_match_lt_trans(a: &ReadMatch, b: &ReadMatch, c: &ReadMatch)
    requires
        match_lt(a, b),
        match_lt(b, c),
    ensures
        match_lt(a, c),
{
    if a.m_read_break == b.m_read_break && b.m_read_break == c.m_read_break && a.m_read.m_seq@.len()
        == b.m_read.m_seq@.len() && b.m_read.m_seq@.len() == c.m_read.m_seq@.len() {
        lemma_lex_lt_trans(a.m_read.m_name@, b.m_read.m_name@, c.m_read.m_name@);
    }
}

pub open spec fn sorted_desc(s: Seq<ReadMatch>) -> bool {
    forall|i: int, j: int| 0 <= i < j < s.len() ==> key_ge(&s[i], &s[j])
}

impl ReadMatch {
    pub fn new(r: SequenceRead, read_break: i32, left_gp: GenePos, right_gp: GenePos, gap: i32, reversed: bool) -> (m: ReadMatch)
        ensures
            m.m_read == r,
            m.m_original_reads@.len() == 0,
            m.m_overall_distance == 0,
            m.m_left_distance == 0,
            m.m_right_distance == 0,
            m.m_gap == gap,
            m.m_reversed == reversed,
            m.m_read_break == read_break,
            m.m_left_gp == left_gp,
            m.m_right_gp == right_gp,
    {
        ReadMatch {
            m_read: r,
            m_original_reads: Vec::new(),
            m_overall_distance: 0,
            m_left_distance: 0,
            m_right_distance: 0,
            m_gap: gap,
            m_reversed: reversed,
            m_read_break: read_break,
            m_left_gp: left_gp,
            m_right_gp: right_gp,
        }
    }

    pub fn less(m1: &ReadMatch, m2: &ReadMatch) -> (r: bool)
        ensures
            r == match_lt(m1, m2),
    {
        if m1.m_read_break != m2.m_read_break {
            return m1.m_read_break < m2.m_read_break;
        }
        let l1 = m1.m_read.len();
        let l2 = m2.m_read.len();
        if l1 != l2 {
            return l1 > l2;
        }
        bytes_lt(m1.m_read.m_name.as_slice(), m2.m_read.m_name.as_slice())
    }

    pub fn greater(m1: &ReadMatch, m2: &ReadMatch) -> (r: bool)
        ensures
            r == match_lt(m2, m1),
    {
        ReadMatch::less(m2, m1)
    }

    pub fn set_reversed(&mut self, flag: bool)
        ensures
            *final(self) == (ReadMatch { m_reversed: flag, ..*old(self) }),
    {
        self.m_reversed = flag;
    }

    pub fn add_original_read(&mut self, r: SequenceRead)
        ensures
            final(self).m_original_reads@ == old(self).m_original_reads@.push(r),
            *final(self) == (ReadMatch { m_original_reads: final(self).m_original_reads, ..*old(self) }),
    {
        self.m_original_reads.push(r);
    }

    pub fn add_original_pair(&mut self, pair: SequenceReadPair)
        ensures
            final(self).m_original_reads@ == old(self).m_original_reads@.push(pair.m_left).push(pair.m_right),
            *final(self) == (ReadMatch { m_original_reads: final(self).m_original_reads, ..*old(self) }),
    {
        self.m_original_reads.push(pair.m_left);
        self.m_original_reads.push(pair.m_right);
    }

    pub fn get_read(&self) -> (r: &SequenceRead)
        ensures
            r == &self.m_read,
    {
        &self.m_read
    }
}

/// Whether `a` ranks at or above `b` in the kept order.
pub fn match_key_ge(a: &ReadMatch, b: &ReadMatch) -> (r: bool)
    ensures
        r == key_ge(a, b),
{
    !ReadMatch::less(a, b)
}

/// Sorts read matches in descending `match_lt` order: breakpoint
/// descending, shorter reads first on equal breakpoints, then names
/// descending; equal matches keep their order.
pub fn sort_matches_desc(v: Vec<ReadMatch>) -> (r: Vec<ReadMatch>)
    ensures
        sorted_desc(r@),
        r@.to_multiset() == v@.to_multiset(),
        r@.len() == v@.len(),
{
    broadcast use vstd::multiset::group_multiset_axioms;

    let mut input = v;
    let mut out: Vec<ReadMatch> = Vec::new();
    let ghost orig = input@;
    assert(out@.to_multiset().add(input@.to_multiset()) =~= orig.to_multiset());
    while input.len() > 0
        invariant
            sorted_desc(out@),
            out@.to_multiset().add(input@.to_multiset()) =~= orig.to_multiset(),
        decreases input@.len(),
    {
        let ghost in0 = input@;
        let x = input.remove(0);
        let mut p: usize = 0;
        while p < out.len() && match_key_ge(&out[p], &x)
            invariant
                p <= out@.len(),
                forall|i: int| 0 <= i < p ==> key_ge(&out@[i], &x),
            decreases out@.len() - p,
        {
            p = p + 1;
        }
        let ghost before = out@;
        out.insert(p, x);
        proof {
            assert(out@ =~= before.insert(p as int, x));
            assert forall|i: int, j: int| 0 <= i < j < out@.len() implies key_ge(&out@[i], &out@[j]) by {
                if p < before.len() {
                    assert(!key_ge(&before[p as int], &x));
                }
                if j < p {
                    assert(out@[i] == before[i] && out@[j] == before[j]);
                } else if j == p {
                    assert(out@[i] == before[i] && out@[j] == x);
                } else if i < p {
                    assert(out@[i] == before[i] && out@[j] == before[j - 1]);
                } else if i == p {
                    assert(out@[i] == x && out@[j] == before[j - 1]);
                    if p < j - 1 {
                        assert(key_ge(&before[p as int], &before[j - 1]));
                    } else {
                        lemma_lex_lt_irrefl(before[p as int].m_read.m_name@);
                    }
                    if match_lt(&x, &before[j - 1]) {
                        lemma_match_lt_trans(&before[p as int], &x, &before[j - 1]);
                    }
                } else {
                    assert(out@[i] == before[i - 1] && out@[j] == before[j - 1]);
                }
            }
            vstd::seq_lib::to_multiset_insert(before, p as int, x);
            vstd::seq_lib::to_multiset_remove(in0, 0);
            assert(in0[0] == x);
            assert(in0.to_multiset().count(x) > 0);
            assert(out@.to_multiset().add(input@.to_multiset()) =~= orig.to_multiset());
        }
    }
    proof {
        vstd::seq_lib::to_multiset_len(out@);
        vstd::seq_lib::to_multiset_len(orig);
        assert(out@.to_multiset() =~= orig.to_multiset());
    }
    out
}

} // verus!
