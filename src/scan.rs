//! The decisions of a scan: what is done with each read of a pack, how the
//! reads are accounted for, and the phases of the producer/consumer run.
use vstd::prelude::*;
use crate::fusion_mapper::{mapping_ok, FusionMapper};
use crate::indexer::{required_direction, SeqMatch};
use crate::sequence::revcomp;
use crate::fusion_result::{match_ok, MAX_READ_LEN};
use crate::read::{SequenceRead, SequenceReadPair};
use crate::read_match::ReadMatch;

verus! {

/// The matches found in one pack and how its reads were accounted for:
/// each read (or pair) is either unmapped or one attempt at a match.
pub struct PackOutcome {
    pub matches: Vec<ReadMatch>,
    pub unmapped: usize,
    pub attempted: usize,
}

/// A read short enough to be mapped.
pub open spec fn read_ok(r: SequenceRead) -> bool {
    r.m_seq@.len() < MAX_READ_LEN && r.wf()
}

pub fn check_read(r: &SequenceRead) -> (b: bool)
    ensures
        b == read_ok(*r),
{
    r.m_seq.len() < MAX_READ_LEN as usize && r.m_quality.len() == r.m_seq.len()
}

/// Maps one read, and its reverse complement when the read maps to two
/// regions in the other orientation. The boolean tells whether the read
/// mapped to two regions at all.
pub fn map_single(mapper: &FusionMapper, r: &SequenceRead) -> (res: (Option<ReadMatch>, bool))
    requires
        mapper.wf(),
        read_ok(*r),
    ensures
        outcome_ok(*mapper, *r, res, 1),
{
    let mut mapable = false;
    match mapper.map_read(r, &mut mapable) {
        Some(mut m) => {
            proof {
                lemma_owed_placed(*mapper, r.m_seq@);
            }
            m.add_original_read(r.duplicate());
            (Some(m), true)
        },
        None => {
            if !mapable {
                return (None, false);
            }
            let rc = r.reverse_complement();
            let mut mapable_rc = false;
            match mapper.map_read(&rc, &mut mapable_rc) {
                Some(mut m) => {
                    m.add_original_read(r.duplicate());
                    m.set_reversed(true);
                    (Some(m), true)
                },
                None => (None, true),
            }
        },
    }
}

/// What `map_single` and `map_pair_read` return for read `r`: whether the
/// index placed it on two segments; the match of the read, or else, when it
/// was placed, that of its reverse complement, marked reversed, with the
/// `n` original reads attached.
pub open spec fn outcome_ok(mapper: FusionMapper, r: SequenceRead, res: (Option<ReadMatch>, bool), n: nat) -> bool {
    let s = r.m_seq@;
    &&& res.1 == mapper.two_placed(s)
    &&& (res.0 is Some <==> mapper.match_owed(s) || (mapper.two_placed(s) && mapper.match_owed(revcomp(s))))
    &&& (res.0 matches Some(m) ==> match_ok(m) && m.m_reversed == !mapper.match_owed(s) && m.m_original_reads@.len()
        == n && m.m_read.m_seq@ == (if m.m_reversed {
        revcomp(s)
    } else {
        s
    }))
}

/// A read owed a match is placed on two segments.
pub proof fn lemma_owed_placed(mapper: FusionMapper, s: Seq<u8>)
    requires
        mapper.match_owed(s),
    ensures
        mapper.two_placed(s),
{
    let mp = choose|mp: Seq<SeqMatch>|
        #[trigger] mapper.m_indexer.mapped_as(s, mp) && required_direction(mapper.m_indexer.m_fusions@, mp)
            && mapping_ok(mp, s.len() as int);
    assert(mapper.m_indexer.mapped_as(s, mp) && mp.len() >= 2);
}

/// Reads among the first `p` of a pack that the index places on two
/// segments.
pub open spec fn placed_count(mapper: FusionMapper, pack: Seq<SequenceRead>, p: int) -> nat
    decreases p,
{
    if p <= 0 {
        0
    } else {
        placed_count(mapper, pack, p - 1) + if read_ok(pack[p - 1]) && mapper.two_placed(pack[p - 1].m_seq@) {
            1nat
        } else {
            0nat
        }
    }
}

/// Reads among the first `p` of a pack that give a match, themselves or by
/// their reverse complement.
pub open spec fn matched_count(mapper: FusionMapper, pack: Seq<SequenceRead>, p: int) -> nat
    decreases p,
{
    if p <= 0 {
        0
    } else {
        let s = pack[p - 1].m_seq@;
        matched_count(mapper, pack, p - 1) + if read_ok(pack[p - 1]) && (mapper.match_owed(s) || (
        mapper.two_placed(s) && mapper.match_owed(revcomp(s)))) {
            1nat
        } else {
            0nat
        }
    }
}

/// Maps every read of a single-end pack; every read is counted once,
/// as unmapped or as an attempt: a read the index places on two segments
/// is an attempt, and gives a match when `map_single` finds one.
pub fn scan_single_end(mapper: &FusionMapper, pack: &Vec<SequenceRead>) -> (r: PackOutcome)
    requires
        mapper.wf(),
    ensures
        r.unmapped + r.attempted == pack@.len(),
        r.attempted == placed_count(*mapper, pack@, pack@.len() as int),
        r.matches@.len() == matched_count(*mapper, pack@, pack@.len() as int),
        r.matches@.len() <= r.attempted,
        forall|k: int| 0 <= k < r.matches@.len() ==> match_ok(#[trigger] r.matches@[k]),
{
    let mut out = PackOutcome { matches: Vec::new(), unmapped: 0, attempted: 0 };
    let mut p: usize = 0;
    while p < pack.len()
        invariant
            mapper.wf(),
            p <= pack@.len(),
            out.unmapped + out.attempted == p,
            out.attempted == placed_count(*mapper, pack@, p as int),
            out.matches@.len() == matched_count(*mapper, pack@, p as int),
            out.matches@.len() <= out.attempted,
            forall|k: int| 0 <= k < out.matches@.len() ==> match_ok(#[trigger] out.matches@[k]),
        decreases pack@.len() - p,
    {
        let r = &pack[p];
        if !check_read(r) {
            out.unmapped = out.unmapped + 1;
        } else {
            let (m, mapped) = map_single(mapper, r);
            if !mapped {
                out.unmapped = out.unmapped + 1;
            } else {
                out.attempted = out.attempted + 1;
                if let Some(m) = m {
                    out.matches.push(m);
                }
            }
        }
        p = p + 1;
    }
    out
}

/// Maps one read of a pair and files the pair as the origin of its match.
fn map_pair_read(mapper: &FusionMapper, r: &SequenceRead, pair: &SequenceReadPair) -> (res: (Option<ReadMatch>, bool))
    requires
        mapper.wf(),
        read_ok(*r),
    ensures
        outcome_ok(*mapper, *r, res, 2),
{
    let mut mapable = false;
    match mapper.map_read(r, &mut mapable) {
        Some(mut m) => {
            proof {
                lemma_owed_placed(*mapper, r.m_seq@);
            }
            m.add_original_pair(pair.clone());
            (Some(m), true)
        },
        None => {
            if !mapable {
                return (None, false);
            }
            let rc = r.reverse_complement();
            let mut mapable_rc = false;
            match mapper.map_read(&rc, &mut mapable_rc) {
                Some(mut m) => {
                    m.add_original_pair(pair.clone());
                    m.set_reversed(true);
                    (Some(m), true)
                },
                None => (None, true),
            }
        },
    }
}

/// Maps every pair of a paired-end pack: a pair whose ends overlap is merged
/// and mapped as one read, otherwise both ends are mapped. Every pair is
/// counted once, as unmapped or as an attempt.
pub fn scan_pair_end(mapper: &FusionMapper, pack: &Vec<SequenceReadPair>) -> (r: PackOutcome)
    requires
        mapper.wf(),
    ensures
        r.unmapped + r.attempted == pack@.len(),
        r.matches@.len() <= 2 * r.attempted,
        forall|k: int| 0 <= k < r.matches@.len() ==> match_ok(#[trigger] r.matches@[k]),
{
    let mut out = PackOutcome { matches: Vec::new(), unmapped: 0, attempted: 0 };
    let mut p: usize = 0;
    while p < pack.len()
        invariant
            mapper.wf(),
            p <= pack@.len(),
            out.unmapped + out.attempted == p,
            out.matches@.len() <= 2 * out.attempted,
            forall|k: int| 0 <= k < out.matches@.len() ==> match_ok(#[trigger] out.matches@[k]),
        decreases pack@.len() - p,
    {
        let pair = &pack[p];
        if !check_read(&pair.m_left) || !check_read(&pair.m_right) {
            out.unmapped = out.unmapped + 1;
        } else {
            let merged = pair.fast_merge();
            let mut any = false;
            let mut found: Vec<ReadMatch> = Vec::new();
            match merged {
                Some(m) => {
                    if check_read(&m) {
                        let (mm, mapped) = map_pair_read(mapper, &m, pair);
                        any = mapped;
                        if let Some(x) = mm {
                            found.push(x);
                        }
                    }
                },
                None => {
                    let (m1, mapped1) = map_pair_read(mapper, &pair.m_left, pair);
                    if let Some(x) = m1 {
                        found.push(x);
                    }
                    let (m2, mapped2) = map_pair_read(mapper, &pair.m_right, pair);
                    if let Some(x) = m2 {
                        found.push(x);
                    }
                    any = mapped1 || mapped2;
                },
            }
            if !any {
                out.unmapped = out.unmapped + 1;
            } else {
                out.attempted = out.attempted + 1;
                let ghost base = out.matches@.len();
                assert(found@.len() <= 2);
                while found.len() > 0
                    invariant
                        out.matches@.len() + found@.len() <= base + 2,
                        base <= out.matches@.len(),
                        base + 2 <= 2 * out.attempted,
                        out.unmapped + out.attempted == p + 1,
                        p < pack@.len(),
                        forall|j: int| 0 <= j < out.matches@.len() ==> match_ok(#[trigger] out.matches@[j]),
                        forall|j: int| 0 <= j < found@.len() ==> match_ok(#[trigger] found@[j]),
                    decreases found@.len(),
                {
                    let x = found.remove(0);
                    out.matches.push(x);
                }
            }
        }
        p = p + 1;
    }
    out
}

/// Running totals of a scan.
#[derive(Clone, Copy, Debug, PartialEq, Eq, Structural)]
pub struct ScanCounts {
    pub reads: u64,
    pub unmapped: u64,
    pub attempted: u64,
    pub matches: u64,
}

impl ScanCounts {
    pub open spec fn wf(&self) -> bool {
        self.reads == self.unmapped + self.attempted
    }

    pub fn new() -> (r: ScanCounts)
        ensures
            r.wf(),
            r.reads == 0,
            r.matches == 0,
    {
        ScanCounts { reads: 0, unmapped: 0, attempted: 0, matches: 0 }
    }

    /// Adds the outcome of one pack of `n` reads or pairs; totals stop at
    /// `u64::MAX`, and a pack that would pass it is not added.
    pub fn add(&mut self, n: usize, o: &PackOutcome) -> (added: bool)
        requires
            old(self).wf(),
            o.unmapped + o.attempted == n,
        ensures
            final(self).wf(),
            added ==> final(self).reads == old(self).reads + n && final(self).unmapped == old(self).unmapped
                + o.unmapped && final(self).attempted == old(self).attempted + o.attempted,
            !added ==> *final(self) == *old(self),
    {
        if self.reads > u64::MAX - n as u64 || self.matches > u64::MAX - o.matches.len() as u64 {
            return false;
        }
        self.reads = self.reads + n as u64;
        self.unmapped = self.unmapped + o.unmapped as u64;
        self.attempted = self.attempted + o.attempted as u64;
        self.matches = self.matches + o.matches.len() as u64;
        true
    }
}

/// Totals over a sequence of packs, given as `(reads, unmapped, attempted)`.
pub open spec fn tally(packs: Seq<(nat, nat, nat)>) -> (nat, nat, nat)
    decreases packs.len(),
{
    if packs.len() == 0 {
        (0, 0, 0)
    } else {
        let t = tally(packs.drop_last());
        let p = packs.last();
        (t.0 + p.0, t.1 + p.1, t.2 + p.2)
    }
}

/// However reads are split into packs and packs among workers, when every
/// pack accounts for each of its reads once, so do the totals: every read
/// is unmapped or one attempt.
pub proof fn lemma_every_read_counted(packs: Seq<(nat, nat, nat)>)
    requires
        forall|i: int| 0 <= i < packs.len() ==> (#[trigger] packs[i]).0 == packs[i].1 + packs[i].2,
    ensures
        tally(packs).0 == tally(packs).1 + tally(packs).2,
    decreases packs.len(),
{
    if packs.len() > 0 {
        let d = packs.drop_last();
        assert forall|i: int| 0 <= i < d.len() implies (#[trigger] d[i]).0 == d[i].1 + d[i].2 by {
            assert(d[i] == packs[i]);
        }
        lemma_every_read_counted(d);
        assert(packs[packs.len() - 1].0 == packs[packs.len() - 1].1 + packs[packs.len() - 1].2);
    }
}

/// Phases of one scan.
#[derive(Clone, Copy, Debug, PartialEq, Eq, Structural)]
pub enum ScanPhase {
    Idle,
    Producing,
    Draining,
    Reporting,
    Done,
}

/// What happens during a scan.
#[derive(Clone, Copy, Debug, PartialEq, Eq, Structural)]
pub enum ScanEvent {
    Start,
    SourceExhausted,
    QueueEmpty,
    Reported,
}

/// The phase after `event`: a scan starts producing, drains once the source
/// is exhausted, reports once the queue is empty, and is done once
/// reported; any other event leaves the phase as it is.
pub fn next_phase(phase: ScanPhase, event: ScanEvent) -> (r: ScanPhase)
    ensures
        r == match (phase, event) {
            (ScanPhase::Idle, ScanEvent::Start) => ScanPhase::Producing,
            (ScanPhase::Producing, ScanEvent::SourceExhausted) => ScanPhase::Draining,
            (ScanPhase::Draining, ScanEvent::QueueEmpty) => ScanPhase::Reporting,
            (ScanPhase::Reporting, ScanEvent::Reported) => ScanPhase::Done,
            _ => phase,
        },
{
    match (phase, event) {
        (ScanPhase::Idle, ScanEvent::Start) => ScanPhase::Producing,
        (ScanPhase::Producing, ScanEvent::SourceExhausted) => ScanPhase::Draining,
        (ScanPhase::Draining, ScanEvent::QueueEmpty) => ScanPhase::Reporting,
        (ScanPhase::Reporting, ScanEvent::Reported) => ScanPhase::Done,
        _ => phase,
    }
}

/// How the worker threads are shared when several gene panels are scanned:
/// `(panels run at once, workers per panel)`. With at least as many panels
/// as threads, each panel gets one worker; otherwise every panel runs at
/// once and the threads are divided among them.
pub fn thread_split(threads: usize, panels: usize) -> (r: (usize, usize))
    requires
        panels >= 1,
    ensures
        r == (if panels >= threads {
            (threads, 1usize)
        } else {
            (panels, (threads / panels) as usize)
        }),
{
    if panels >= threads {
        (threads, 1)
    } else {
        (panels, threads / panels)
    }
}

/// A consumer stops once production has finished and the queue is empty.
pub fn consumer_should_stop(producing_finished: bool, queue_empty: bool) -> (r: bool)
    ensures
        r == (producing_finished && queue_empty),
{
    producing_finished && queue_empty
}

/// Number of consumer threads besides the producer: with one worker the
/// producer drains the queue itself.
pub fn consumer_count(workers: usize) -> (r: usize)
    ensures
        r == if workers <= 1 {
            0
        } else {
            workers - 1
        },
{
    if workers <= 1 {
        0
    } else {
        workers - 1
    }
}

impl FusionMapper {
    /// Files every match of a pack; matches that name an unknown gene are
    /// left out and counted.
    pub fn push_matches(&mut self, matches: Vec<ReadMatch>) -> (skipped: usize)
        requires
            old(self).wf(),
            forall|k: int| 0 <= k < matches@.len() ==> match_ok(#[trigger] matches@[k]),
        ensures
            final(self).wf(),
            final(self).m_indexer == old(self).m_indexer,
            final(self).m_fusion_results == old(self).m_fusion_results,
            table_view(final(self).fusion_matches@) == filed(
                table_view(old(self).fusion_matches@),
                matches@,
                old(self).n_fusions(),
            ),
            skipped == unknown_count(matches@, old(self).n_fusions()),
    {
        let mut input = matches;
        let ghost orig = input@;
        let ghost nf = self.n_fusions();
        let ghost t0 = table_view(self.fusion_matches@);
        let n0: usize = input.len();
        let mut k: usize = 0;
        let mut skipped: usize = 0;
        assert(orig.subrange(0, 0) =~= Seq::<ReadMatch>::empty());
        while input.len() > 0
            invariant
                self.wf(),
                self.m_indexer == old(self).m_indexer,
                self.m_fusion_results == old(self).m_fusion_results,
                nf == self.n_fusions(),
                n0 == orig.len(),
                k + input@.len() == n0,
                input@ == orig.subrange(k as int, n0 as int),
                forall|q: int| 0 <= q < orig.len() ==> match_ok(#[trigger] orig[q]),
                table_view(self.fusion_matches@) == filed(t0, orig.subrange(0, k as int), nf),
                skipped == unknown_count(orig.subrange(0, k as int), nf),
                skipped <= k,
            decreases input@.len(),
        {
            let m = input.remove(0);
            assert(m == orig[k as int]);
            let ghost pre = orig.subrange(0, k + 1);
            assert(pre.drop_last() =~= orig.subrange(0, k as int));
            let ghost tb = table_view(self.fusion_matches@);
            let ghost b = self.bucket_of(m);
            if !self.add_match(m) {
                skipped = skipped + 1;
            } else {
                let ghost lc = m.m_left_gp.contig as int;
                let ghost rc = m.m_right_gp.contig as int;
                assert(0 <= nf * rc + lc < nf * nf) by (nonlinear_arith)
                    requires
                        0 <= lc < nf,
                        0 <= rc < nf,
                ;
                assert(tb.len() == nf * nf);
                assert forall|q: int| 0 <= q < tb.len() implies #[trigger] table_view(self.fusion_matches@)[q]
                    == tb.update(b, tb[b].push(m))[q] by {}
                assert(table_view(self.fusion_matches@) =~= tb.update(b, tb[b].push(m)));
            }
            k = k + 1;
            assert(input@ =~= orig.subrange(k as int, n0 as int));
        }
        assert(orig.subrange(0, n0 as int) =~= orig);
        skipped
    }
}

/// The match table as sequences.
pub open spec fn table_view(t: Seq<Vec<ReadMatch>>) -> Seq<Seq<ReadMatch>> {
    t.map_values(|v: Vec<ReadMatch>| v@)
}

/// Both genes of a match are among the `n` known ones.
pub open spec fn known(m: ReadMatch, n: int) -> bool {
    0 <= m.m_left_gp.contig < n && 0 <= m.m_right_gp.contig < n
}

/// The table after each match of `ms` between known genes is appended to
/// the bucket of its gene pair, in order.
pub open spec fn filed(t: Seq<Seq<ReadMatch>>, ms: Seq<ReadMatch>, n: int) -> Seq<Seq<ReadMatch>>
    decreases ms.len(),
{
    if ms.len() == 0 {
        t
    } else {
        let t0 = filed(t, ms.drop_last(), n);
        let m = ms.last();
        if known(m, n) {
            let b = n * m.m_right_gp.contig + m.m_left_gp.contig;
            t0.update(b, t0[b].push(m))
        } else {
            t0
        }
    }
}

/// Matches of `ms` that name an unknown gene.
pub open spec fn unknown_count(ms: Seq<ReadMatch>, n: int) -> nat
    decreases ms.len(),
{
    if ms.len() == 0 {
        0
    } else {
        unknown_count(ms.drop_last(), n) + if known(ms.last(), n) {
            0nat
        } else {
            1nat
        }
    }
}

} // verus!
