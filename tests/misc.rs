use genefuse::gene::{Fusion, Gene};
use genefuse::overlap::Overlap;
use genefuse::read::SequenceRead;
use genefuse::read_match::ReadMatch;
use genefuse::common::GenePos;
use genefuse::indexer::top_two;
use genefuse::mask::{longest_run, segment_mask};
use genefuse::sequence::Sequence;

#[test]
fn sof() {
    const BLOOM_FILTER_SIZE: usize = (1_i32.wrapping_shl(20)) as usize;
    let c = [0_u8; BLOOM_FILTER_SIZE];
    assert_eq!(c.len(), 1 << 20);
}

#[test]
fn pcmp() {
    println!("{:?}", 1_i32.partial_cmp(&2).unwrap());
    let mut a = [5, 4, 1, 2, 3];
    a.sort_by(|a, b| {
        let r = a.partial_cmp(b).unwrap();
        println!("{:?}, a={}, b={}", r, a, b);
        r
    });
    println!("a={:?}", a);
}

#[test]
fn str_len() {
    let a = "abc";
    let b = "하이!";
    println!("{} {} {}", a.len(), b.len(), b.chars().count());
}

#[test]
fn minus() {
    let a = 2;
    println!("{}", -a as i32);
    println!("{}", (-a) as i32);
}

fn _overlap_test() -> bool {
    let r1 = [
        Sequence::new("TTTGCAGGCACCTACCACTGTACCTGTCTAATTTTTCTTCTGCCCTTTTTTTTTTTTTTTTTTTTTTTTTGGGGTAGAGACGAGGCCTTGCTATGTAGCCCTTGCTGGTCTCAAACTCCTCGCCTCAAGTGATCCTCCTGCCTCGGCCTCC".into()),
        Sequence::new("CCCTATGTCTACAAAACATCAGAAAATTAGGGTGTGGTGGCTCATGCCTATAGTCATAGCTACATAGGAGGCTGAGGCAGGAGGATCGCTTGAGGGCAGGAGGATCACTCGAGCTCTGAAGGTCAACGCTGCAGTGAGCTATGATCGTGCC".into()),
        Sequence::new("TAGAGGGCTCAGATGCATTCCTTTTTAGCAGTGCTCTTATTTGGCATTGGTGGTGCTGTTTCTGTTGACCACTCCCAGAGTCTCTGGATGTTTTGTTATTCCTTTACCTCCCTAGCCTCTCCTTGGGGTTTCTTTGCAGGCTCTTGCTCTC".into()),
        Sequence::new("CCTGGGTAGCTGGGATACAGGCGCCCGCCACCACGCCCGGCTAATTTTGTATTTTTAGTAGAGACGAGGTTTCACCACATTGGCCAGGCTGGTCTCAAACTCCTGACCTCAGGTGATCTGCCTGCCTCAGCCTCCTAGAGTGCTGGG".into()),
        Sequence::new("GTTCCTTTTAACATAGAAAGCAGCTAATTTTCCTATTCAAAAAATGGAGCTCTATTAAAAGATAAAACAGCAGCTTAGCTCTAGGTAAAGTGATCCATGCGGTTCTTCTTCTTTTTTTTGTTTTGAGATGGACTCTCGCTCTGTCACCCA".into()),
    ];
    let r2 = [
        Sequence::new("CATGGTGGCTCATGCCTGTAATCCCAGTGGTTTGGGAGGCCGAGGCAGGAGGATCACTTGAGGCGAGGAGTTTGAGACCAGCAAGGGCTACATAGCAAGGCCTCGTCTCTACCCCAAAAAAAAAAAAAAAAAAAAAAAAAGGGCAGAAGAA".into()),
        Sequence::new("AGTGCAGTGGCACGATCATAGCTCACTGCAGCGTTGACCTTCAGAGCTCGAGTGATCCTCCTGCCCTCAAGCGATCCTCCTGCCTCAGCCTCCTATGTAGCTATGACTATAGGCATGAGCCACCACACCCTAATTTTCTGATGTTTTGTAG".into()),
        Sequence::new("CTGGAGATAAACACCTAGCAGTCATGAGACAAAGCTCTGCAATGCTTGTATTTATGGGATACAAGAGAGAGCAAGAGCCTGCAAAGAAACCCCAAGGAGAGGCTAGGGAGGTAAAGGAATAACAAAACATCCAGAGACACTGGGAGTGGTC".into()),
        Sequence::new("CCCAGCACTCTAGGAGGCTGAGGCAGGCAGATCACCTGAGGTCAGGAGTTTGAGACCAGCCTGGCCAATGTGGTGAAACCTCGTCTCTACTAAAAATACAAAATTAGCCGGGCGTGGTGGCGGGCGCCTGTAATCCCAGCTACCCAGC".into()),
        Sequence::new("TGGGTGACAGAGCGAGAGTCCATCTCAAAACAAAAAAAAGAAGAAGAACCGCACTGGATCACTTTACCTCAGAGCTAAGCTGCTGTTTTATCTTTTAATAGAGCTCCATTTTTTGAATAGGAAAATTAGCTGCTTTCTATGTTAAAAGGAA".into()),
    ];
    let overlap = [
        Overlap::new(34, 117, 0),
        Overlap::new(8, 143, 0),
        Overlap::new(66, 85, 1),
        Overlap::new(-1, 147, 2),
        Overlap::new(0, 0, 0),
    ];
    for i in 0..5 {
        let fit = Overlap::fit(&r1[i], &r2[i]);
        if fit.m_offset != overlap[i].m_offset
            || fit.m_overlap_len != overlap[i].m_overlap_len
            || fit.m_distance != overlap[i].m_distance
        {
            println!("Fail in Overlap::fit() with sequence {} got {:?}", i, fit);
            return false;
        }
    }
    true
}

#[test]
fn overlap_test() {
    assert_eq!(true, _overlap_test());
}

#[test]
fn cast_f64() {
    println!("{}", (3.0_f32).min(151 as f32 / 10.0));
    println!("{}", 1.max(68 - (3_f32.ceil() as i32) / 2));
}

#[test]
fn check_enums() {
    let r = SequenceRead::new(b"@a".to_vec(), b"ACGT".to_vec(), b"+".to_vec(), b"IIII".to_vec(), true);
    let mut m = ReadMatch::new(r, 1, GenePos { contig: 0, position: 5 }, GenePos { contig: 1, position: 9 }, 0, false);
    m.set_reversed(true);
    assert!(m.m_reversed);
    assert_eq!(m.get_read().m_seq.m_str, b"ACGT".to_vec());
}

#[test]
fn read_match_order() {
    let mk = |name: &[u8], seq: &[u8], b: i32| {
        let r = SequenceRead::new(name.to_vec(), seq.to_vec(), b"+".to_vec(), vec![b'I'; seq.len()], true);
        ReadMatch::new(r, b, GenePos::default(), GenePos::default(), 0, false)
    };
    let a = mk(b"a", b"ACGT", 1);
    let b = mk(b"b", b"ACGT", 2);
    let c = mk(b"c", b"ACG", 2);
    let d = mk(b"d", b"ACG", 2);
    assert!(ReadMatch::less(&a, &b));
    assert!(ReadMatch::greater(&b, &a));
    assert!(ReadMatch::less(&b, &c));
    assert!(ReadMatch::less(&c, &d));
    assert!(!ReadMatch::less(&d, &c));
}

#[test]
fn gene_positions_and_exons() {
    let mut g = Gene::new(b"ALK".to_vec(), b"chr2".to_vec(), 1000, 5000);
    g.add_exon(1, 1100, 1200);
    g.add_exon(2, 1300, 1400);
    assert!(!g.is_reversed());
    assert_eq!(g.pos2str(150), b"ALK:exon:1|+chr2:1150".to_vec());
    assert_eq!(g.pos2str(-250), b"ALK:intron:1|-chr2:1250".to_vec());
    assert_eq!(g.pos2str(10), b"ALK:+chr2:1010".to_vec());
    assert_eq!(g.gene_pos_2_chr_pos(-250), -1250);
    let mut e = false;
    let mut n = -1;
    g.get_exon_intron(350, &mut e, &mut n);
    assert!(e);
    assert_eq!(n, 2);
    let mut r = Gene::new(b"EML4".to_vec(), b"chr2".to_vec(), 10, 20);
    r.add_exon(1, 500, 600);
    r.add_exon(2, 300, 400);
    assert!(r.is_reversed());
    assert!(Fusion::new(r).is_reversed());
    assert!(!Gene::default().valid());
}

#[test]
fn panel_parsing() {
    let text = b"# panel\n>ALK,chr2:29415640-29446394\n1,29446394,29446208\n2,29420542,29420408\n\
>EML4 , chr2 :42396490-42559688\r\n1,42396490,42396776\nshort\n2,42472645,42472827\n>broken\n";
    let fusions = Fusion::parse_csv(text).unwrap();
    assert_eq!(fusions.len(), 2);
    let alk = &fusions[0].m_gene;
    assert_eq!(alk.m_name, b"ALK".to_vec());
    assert_eq!(alk.m_chr, b"chr2".to_vec());
    assert_eq!((alk.m_start, alk.m_end), (29415640, 29446394));
    assert_eq!(alk.m_exons.len(), 2);
    assert!(alk.is_reversed());
    let eml4 = &fusions[1].m_gene;
    assert_eq!(eml4.m_name, b"EML4".to_vec());
    assert_eq!(eml4.m_chr, b"chr2".to_vec());
    assert_eq!(eml4.m_exons.len(), 2);
    assert!(!eml4.is_reversed());
    assert_eq!(Fusion::parse_csv(b">X,chr1:10-20\n1,abc,5\n").unwrap_err().line, 1);
    assert!(Fusion::parse_csv(b">X,chr1:1x-20\n").is_err());
    assert_eq!(Gene::parse(b">Y,chr3").unwrap().m_start, 0);
    assert_eq!(genefuse::panel::parse_i32(b"-2147483648"), Some(i32::MIN));
    assert_eq!(genefuse::panel::parse_i32(b"2147483648"), None);
    assert_eq!(genefuse::panel::parse_i32(b"+12"), Some(12));
    assert_eq!(genefuse::panel::parse_i32(b""), None);
}

#[test]
fn runs_and_segments() {

    let mut mask = vec![0u8; 80];
    for j in 2..10 {
        mask[j] = 3;
    }
    for j in 15..40 {
        mask[j] = 3;
    }
    mask[20] = 1;
    for j in 45..75 {
        mask[j] = 2;
    }
    assert_eq!(longest_run(&mask, 80, 3), (2, 39));
    assert_eq!(longest_run(&mask, 80, 2), (45, 74));
    assert_eq!(longest_run(&vec![0u8; 5], 5, 3), (-1, -1));
    let a = GenePos { contig: 0, position: 7 };
    let b = GenePos { contig: 1, position: 9 };
    let segs = segment_mask(&mask, 80, a, b);
    assert_eq!(segs.len(), 2);
    assert_eq!((segs[0].seq_start, segs[0].seq_end, segs[0].start_gp), (2, 39, a));
    assert_eq!((segs[1].seq_start, segs[1].seq_end, segs[1].start_gp), (45, 74, b));
}

#[test]
fn top_two_ranks_votes() {

    let votes = vec![(0_i64, 50_i64), (7, 3), (5, 3), (9, 4), (11, 1)];
    assert_eq!(top_two(&votes), (9, 4, 5, 3));
    assert_eq!(top_two(&vec![]), (0, 0, 0, 0));
}
