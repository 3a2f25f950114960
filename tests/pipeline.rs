use genefuse::common::{GenePos, GlobalSettings, DUPE_HIGH_LEVEL, DUPE_NORMAL_LEVEL};
use genefuse::fusion_mapper::FusionMapper;
use genefuse::gene::{Fusion, Gene};
use genefuse::indexer::{Contig, Indexer};
use genefuse::read::{SequenceRead, SequenceReadPair};
use genefuse::scan::{consumer_count, consumer_should_stop, next_phase, scan_pair_end, scan_single_end, ScanCounts, ScanEvent, ScanPhase};

fn random_bases(seed: u64, n: usize) -> Vec<u8> {
    let mut x = seed;
    (0..n)
        .map(|_| {
            x = x.wrapping_mul(6364136223846793005).wrapping_add(1442695040888963407);
            b"ACGT"[((x >> 33) % 4) as usize]
        })
        .collect()
}

fn panel() -> (Vec<Contig>, Vec<Fusion>) {
    let chr_a = random_bases(11, 4000);
    let chr_b = random_bases(29, 4000);
    let contigs = vec![
        Contig { name: b"chr1".to_vec(), seq: chr_a },
        Contig { name: b"chr7".to_vec(), seq: chr_b },
    ];
    let mut ga = Gene::new(b"GENEA".to_vec(), b"1".to_vec(), 1000, 3000);
    ga.add_exon(1, 1000, 1400);
    ga.add_exon(2, 1500, 3000);
    let mut gb = Gene::new(b"GENEB".to_vec(), b"chr7".to_vec(), 1000, 3000);
    gb.add_exon(1, 1000, 1700);
    gb.add_exon(2, 1800, 3000);
    (contigs, vec![Fusion::new(ga), Fusion::new(gb)])
}

fn mapper() -> (FusionMapper, Vec<u8>, Vec<u8>) {
    let (contigs, fusions) = panel();
    let mut idx = Indexer::new(fusions, GlobalSettings::default());
    idx.make_index(&contigs);
    let a = idx.m_fusion_seq[0].clone();
    let b = idx.m_fusion_seq[1].clone();
    (FusionMapper::new(idx), a, b)
}

fn read(name: &str, seq: Vec<u8>) -> SequenceRead {
    let q = vec![b'I'; seq.len()];
    SequenceRead::new(name.as_bytes().to_vec(), seq, b"+".to_vec(), q, true)
}

fn fusion_read(a: &[u8], b: &[u8], jitter: usize) -> Vec<u8> {
    let mut s = a[500 + jitter..575].to_vec();
    s.extend_from_slice(&b[800..875 + jitter]);
    s
}

#[test]
fn regions_resolve_with_chr_prefix() {
    let (_, a, b) = mapper();
    assert_eq!(a.len(), 2000);
    assert_eq!(b.len(), 2000);
    let (contigs, _) = panel();
    assert_eq!(a, contigs[0].seq[1000..3000].to_vec());
}

#[test]
fn duplicate_tiers() {
    let mut settings = GlobalSettings::default();
    settings.set_unique_requirement(2);
    let fusions = vec![Fusion::new(Gene::new(b"G".to_vec(), b"c".to_vec(), 1, 100))];
    let mut idx = Indexer::new(fusions, settings);
    let k = 12345_i64;
    for p in 0..3 {
        idx.insert_kmer(k, GenePos { contig: 0, position: p * 10 });
    }
    let gp = *idx.m_kmer_pos.get(&k).unwrap();
    assert_eq!(gp.contig, DUPE_NORMAL_LEVEL);
    assert_eq!(idx.m_dupe_list[gp.position as usize].len(), 3);
    idx.insert_kmer(k, GenePos { contig: 0, position: 40 });
    idx.insert_kmer(k, GenePos { contig: 0, position: 50 });
    assert_eq!(idx.m_dupe_list[gp.position as usize].len(), 5);
    idx.insert_kmer(k, GenePos { contig: 0, position: 60 });
    let gp = *idx.m_kmer_pos.get(&k).unwrap();
    assert_eq!(gp.contig, DUPE_HIGH_LEVEL);
    assert!(idx.m_dupe_list[gp.position as usize].is_empty());
    for p in 7..12 {
        idx.insert_kmer(k, GenePos { contig: 0, position: p });
        assert_eq!(idx.m_kmer_pos.get(&k).unwrap().contig, DUPE_HIGH_LEVEL);
    }
    assert!(idx.bloom_contains(k));
    assert!(!idx.bloom_contains(k + 1));
}

#[test]
fn single_region_read_is_not_mappable() {
    let (m, a, _) = mapper();
    let r = read("@one", a[100..250].to_vec());
    let mut mapable = true;
    assert!(m.map_read(&r, &mut mapable).is_none());
    assert!(!mapable);
    assert!(m.m_indexer.map_seq(&a[100..250]).is_empty());
}

#[test]
fn fusion_read_maps_across_breakpoint() {
    let (m, a, b) = mapper();
    let s = fusion_read(&a, &b, 0);
    let segs = m.m_indexer.map_seq(&s);
    assert_eq!(segs.len(), 2);
    let r = read("@f", s);
    let mut mapable = false;
    let rm = m.map_read(&r, &mut mapable).unwrap();
    assert!(mapable);
    assert!((rm.m_read_break - 74).abs() <= 3);
    assert_eq!(rm.m_left_gp, GenePos { contig: 0, position: 574 });
    assert_eq!(rm.m_right_gp, GenePos { contig: 1, position: 800 });
    assert_eq!(rm.m_gap, 0);
    assert_eq!(rm.m_left_distance, 0);
    assert_eq!(rm.m_right_distance, 0);
}

fn clustered(m: &mut FusionMapper, a: &[u8], b: &[u8]) {
    for j in 0..3 {
        let r = read(&format!("@f{}", j), fusion_read(a, b, j));
        let mut mapable = false;
        let rm = m.map_read(&r, &mut mapable).unwrap();
        assert!(m.add_match(rm));
    }
    let settings = GlobalSettings::default();
    m.filter_matches(&settings);
    m.sort_matches();
    m.cluster_matches(&settings);
}

#[test]
fn repeated_fusion_reads_give_one_call() {
    let (mut m, a, b) = mapper();
    clustered(&mut m, &a, &b);
    assert_eq!(m.m_fusion_results.len(), 1);
    let fr = &m.m_fusion_results[0];
    assert_eq!(fr.m_left_gp.contig, 0);
    assert_eq!(fr.m_right_gp.contig, 1);
    assert_eq!(fr.m_unique, 3);
    assert_eq!(fr.m_matches.len(), 3);
    assert!(fr.m_title.starts_with(b"Fusion: GENEA:"));
    assert!(fr.m_left_pos.starts_with(b"GENEA:exon:2|+1:1574"));
}

#[test]
fn reclustering_keeps_breakpoint_and_unique() {
    let (mut m, a, b) = mapper();
    clustered(&mut m, &a, &b);
    let fr = m.m_fusion_results.pop().unwrap();
    let (left, right, unique) = (fr.m_left_gp, fr.m_right_gp, fr.m_unique);
    let (mut m2, _, _) = mapper();
    for rm in fr.m_matches {
        assert!(m2.add_match(rm));
    }
    let settings = GlobalSettings::default();
    m2.sort_matches();
    m2.cluster_matches(&settings);
    assert_eq!(m2.m_fusion_results.len(), 1);
    assert_eq!(m2.m_fusion_results[0].m_left_gp, left);
    assert_eq!(m2.m_fusion_results[0].m_right_gp, right);
    assert_eq!(m2.m_fusion_results[0].m_unique, unique);
}

#[test]
fn every_read_is_counted_once() {
    let (m, a, b) = mapper();
    let pack = vec![
        read("@u", a[100..250].to_vec()),
        read("@f", fusion_read(&a, &b, 1)),
        read("@n", vec![b'N'; 150]),
        read("@s", b"ACGT".to_vec()),
    ];
    let out = scan_single_end(&m, &pack);
    assert_eq!(out.unmapped + out.attempted, pack.len());
    assert_eq!(out.attempted, 1);
    assert_eq!(out.matches.len(), 1);
    let mut counts = ScanCounts::new();
    assert!(counts.add(pack.len(), &out));
    assert_eq!(counts.reads, 4);
    assert_eq!(counts.reads, counts.unmapped + counts.attempted);

    let pairs = vec![SequenceReadPair::new(read("@p", a[100..250].to_vec()), read("@p", b[100..250].to_vec()))];
    let out = scan_pair_end(&m, &pairs);
    assert_eq!(out.unmapped + out.attempted, 1);
}

#[test]
fn scan_phases() {
    assert_eq!(next_phase(ScanPhase::Idle, ScanEvent::Start), ScanPhase::Producing);
    assert_eq!(next_phase(ScanPhase::Producing, ScanEvent::SourceExhausted), ScanPhase::Draining);
    assert_eq!(next_phase(ScanPhase::Draining, ScanEvent::QueueEmpty), ScanPhase::Reporting);
    assert_eq!(next_phase(ScanPhase::Reporting, ScanEvent::Reported), ScanPhase::Done);
    assert_eq!(next_phase(ScanPhase::Idle, ScanEvent::Reported), ScanPhase::Idle);
    assert!(consumer_should_stop(true, true));
    assert!(!consumer_should_stop(true, false));
    assert_eq!(consumer_count(1), 0);
    assert_eq!(consumer_count(4), 3);
}

#[test]
fn alignable_reads_are_removed() {
    let (mut m, a, b) = mapper();
    let (contigs, _) = panel();
    let matcher = genefuse::matcher::Matcher::from_ref_and_seqs(&contigs, &vec![a[200..350].to_vec(), fusion_read(&a, &b, 0)]);
    assert!(matcher.do_match(&a[200..350]).is_some());
    assert!(matcher.do_match(&genefuse::sequence::reverse_complement(&a[200..350])).is_some());
    assert!(matcher.do_match(&fusion_read(&a, &b, 0)).is_none());
    for j in 0..2 {
        let r = read(&format!("@f{}", j), fusion_read(&a, &b, j));
        let mut mapable = false;
        let rm = m.map_read(&r, &mut mapable).unwrap();
        assert!(m.add_match(rm));
    }
    m.remove_alignables(&contigs);
    let total: usize = m.fusion_matches.iter().map(|v| v.len()).sum();
    assert_eq!(total, 2);
}

#[test]
fn greedy_clusters() {
    let mk = |l: i32, r: i32| {
        let seq = vec![b'A'; 40];
        let q = vec![b'I'; 40];
        let rd = SequenceRead::new(b"@c".to_vec(), seq, b"+".to_vec(), q, true);
        genefuse::read_match::ReadMatch::new(rd, 19, GenePos { contig: 0, position: l }, GenePos { contig: 1, position: r }, 0, false)
    };
    let ms = vec![mk(100, 200), mk(150, 250), mk(102, 201), mk(153, 252), mk(106, 200)];
    let cs = genefuse::fusion_mapper::cluster_bucket(ms, 2);
    let sizes: Vec<usize> = cs.iter().map(|c| c.m_matches.len()).collect();
    assert_eq!(sizes, vec![2, 2, 1]);
}

#[test]
fn threads_shared_among_panels() {
    assert_eq!(genefuse::scan::thread_split(8, 3), (3, 2));
    assert_eq!(genefuse::scan::thread_split(4, 6), (4, 1));
    assert_eq!(genefuse::scan::thread_split(4, 4), (4, 1));
}

#[test]
fn reverse_strand_reference_window() {
    let r = b"ACGTTGCAAC";
    assert_eq!(genefuse::fusion_result::get_ref_seq(r, -5, -3), genefuse::sequence::reverse_complement(&r[3..6]));
    assert_eq!(genefuse::fusion_result::get_ref_seq(r, 2, 4), r[2..5].to_vec());
    assert!(genefuse::fusion_result::get_ref_seq(r, -2, 3).is_empty());
    assert!(genefuse::fusion_result::get_ref_seq(r, 2, 10).is_empty());
}
