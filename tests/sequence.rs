use genefuse::read::{SequenceRead, SequenceReadPair};
use genefuse::sequence::{filter_map_valid_seq, filter_map_valid_seq_to_upper, push_sequence_line, reverse_complement, Sequence};

#[test]
fn re_test() {
    assert_eq!(b"AACCCGCAT".to_vec(), Sequence::new("ATGCGGGTT".into()).reverse_complement().m_str);
    assert_eq!(b"CTANTTCG".to_vec(), Sequence::new("CGAANTAG".into()).reverse_complement().m_str);
}

#[test]
fn reverse_complement_twice() {
    let s = b"ACGTNNACCGTTAG";
    assert_eq!(reverse_complement(&reverse_complement(s)), s.to_vec());
    assert_eq!(reverse_complement(b""), Vec::<u8>::new());
    assert_eq!(reverse_complement(b"acgtX"), b"NACGT".to_vec());
}

fn _fast_merge() -> bool {
    let left = SequenceRead::new(
        "@NS500713:64:HFKJJBGXY:1:11101:20469:1097 1:N:0:TATAGCCT+GGTCCCGA".into(),
        "TTTTTTCTCTTGGACTCTAACACTGTTTTTTCTTATGAAAACACAGGAGTGATGACTAGTTGAGTGCATTCTTATGAGACTCATAGTCATTCTATGATGTAG".into(),
        "+".into(),
        "AAAAA6EEEEEEEEEEEEEEEEE#EEEEEEEEEEEEEEEEEEEEEEEEEEEEEEEEEEAEEEAEEEEEEEEEEEEEEEEEEEEEEEEEEEEEEEEEEEEEEE".into(),
        true,
    );
    let right = SequenceRead::new(
        "@NS500713:64:HFKJJBGXY:1:11101:20469:1097 1:N:0:TATAGCCT+GGTCCCGA".into(),
        "AAAAAACTACACCATAGAATGACTATGAGTCTCATAAGAATGCACTCAACTAGTCATCACTCCTGTGTTTTCATAAGAAAAAACAGTGTTAGAGTCCAAGAG".into(),
        "+".into(),
        "AAAAA6EEEEE/EEEEEEEEEEE#EEEEEEEEEEEEEEEEEEEEEEEEEEEEEEEEEEAEEEAEEEEEEEEEEEEEEEEEEEEEEEEEEEEEEEEEEEEEEE".into(),
        true,
    );
    let pair = SequenceReadPair::new(left, right);
    let merged = pair.fast_merge();
    if merged.is_none() {
        return false;
    }
    if merged.as_ref().unwrap().m_seq.m_str
        != b"TTTTTTCTCTTGGACTCTAACACTGTTTTTTCTTATGAAAACACAGGAGTGATGACTAGTTGAGTGCATTCTTATGAGACTCATAGTCATTCTATGATGTAGTTTTTT".to_vec()
    {
        return false;
    }
    println!("{:?}", merged);
    true
}

#[test]
fn fast_merge() {
    assert_eq!(true, _fast_merge());
}

#[test]
fn fast_merge_name_and_no_overlap() {
    let left = SequenceRead::new(b"@r1".to_vec(), b"ACGTACGTAC".to_vec(), b"+".to_vec(), b"IIIIIIIIII".to_vec(), true);
    let right = SequenceRead::new(b"@r1".to_vec(), b"TTTTTTTTTT".to_vec(), b"+".to_vec(), b"IIIIIIIIII".to_vec(), true);
    assert!(SequenceReadPair::new(left, right).fast_merge().is_none());

    let x: Vec<u8> = (0..60).map(|i| b"ACGT"[(i * 5 + i / 7) % 4]).collect();
    let y: Vec<u8> = (0..30).map(|i| b"GTCA"[(i * 3 + i / 5) % 4]).collect();
    let mut tail = x[30..60].to_vec();
    tail.extend_from_slice(&y);
    let q = vec![b'I'; 60];
    let left = SequenceRead::new(b"@p".to_vec(), x.clone(), b"+".to_vec(), q.clone(), true);
    let right = SequenceRead::new(b"@p".to_vec(), reverse_complement(&tail), b"+".to_vec(), q, true);
    let merged = SequenceReadPair::new(left, right).fast_merge().unwrap();
    let mut expected = x.clone();
    expected.extend_from_slice(&y);
    assert_eq!(merged.m_name, b"@p merged_diff_0".to_vec());
    assert_eq!(merged.m_strand, b"+".to_vec());
    assert_eq!(merged.m_seq.m_str, expected);
    assert_eq!(merged.m_quality[59], b'Z');
    assert_eq!(merged.m_quality[10], b'I');
}

#[test]
fn read_reverse_complement_and_index() {
    let r = SequenceRead::new(b"@NB551:23:HV:2:12302+ACGTA".to_vec(), b"AACG".to_vec(), b"+".to_vec(), b"ABCD".to_vec(), true);
    let rc = r.reverse_complement();
    assert_eq!(rc.m_seq.m_str, b"CGTT".to_vec());
    assert_eq!(rc.m_quality, b"DCBA".to_vec());
    assert_eq!(rc.m_strand, b"-".to_vec());
    assert_eq!(r.last_index(), b"ACGTA".to_vec());
    assert_eq!(r.low_qual_count(33), 1);
    assert_eq!(r.low_qual_count(32), 0);
    assert_eq!(r.low_qual_count(40), 4);
}

#[test]
fn reference_line_cleaning() {
    assert_eq!(filter_map_valid_seq_to_upper(b'a'), Some(b'A'));
    assert_eq!(filter_map_valid_seq(b'a'), Some(b'a'));
    assert_eq!(filter_map_valid_seq(b'1'), None);
    let mut seq = b"NN".to_vec();
    push_sequence_line(&mut seq, b"acg T-*\r", true);
    assert_eq!(seq, b"NNACGT-*".to_vec());
}
