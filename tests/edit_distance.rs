use genefuse::edit_distance::{edit_distance, edit_distance_dp, edit_distance_from_str};

#[test]
fn t1() {
    println!("{}", 1_i32 << 5 - 1);
}

#[test]
fn t2() {
    println!("{}", !0_u64);
    println!("{}", u64::MAX);
}

#[test]
fn editdistance_test() {
    let str1 = vec![
        "CCTATCAGGGAGCTGTGGGCCAGCCAGGAGGCAGCACATGCCCAATCCCAGGCCCCTCCCGTTGTAAGTTCCCGTTCTACCCGACAGGGACCTGCTGACAAAAGACAGGGCTGGAGAGCCAGCCTGAAGGCCCTGGGACCCTTCTATCCAC",
        "ACTTATGTTTTTAAATGAGGATTATTGATAGTACTCTTGGTTTTTATACCATTCAGATCACTGAATTTATAAAGTACCCATCTAGTACTTCAAAAAGTAAAGTGTTCTGCCAGATCTTAGGTATAGAGGACCCTAACACAGTAAGATCGGA",
        "TAGGGGTATGAGTAGAGCTGAGCTGGGGGAAAAGAGGGAAATTCCCAGGGGTGGAGGAAGAGTCAAGTCCCCCTCTACACCTAGAGGATGAACTTAAGGAAGGAGTGAAGGTCATATGTGTTGTTCCTGAGGAAAAGGCCGCTGTAGAAAA",
    ];
    let str2 = vec![
        "CCTATCAGGGAGCTGTGGGCCAGCCAGGAGGCAGCACATGCCCAATCCCAGGCCCCTCCCGTTGTAAGTTCCCGTTCTACCCGACAGGGACCTGCTGACAAAAGACAGGGCTGGAGAGCCAGCCTGAAGGCCCTGGGACCCTTCTATCCAC",
        "ACTTATGTTTTTAAATGAGGATTATTGATAGTACTCTTGGTTTTTATACCATTCAGATCACTGAATTTATAAAGTACCCATCTAGTACTTGAAAAAGTAAAGTGTTCTGCCAGATCTTAGGTATAGAGGACCCTAACACAGTAAGATCGGA",
        "CCTGGGCCTGGCCCTTGTCTAAAACTGACTCTTTTGAGGGTGATTTTGGATGTTCTTAGTAGAGTCTCTCACCTGTACTTTCCTTGCCTAAGGTGCTGTCTTCTCTTGCAGGTTGCCTACACGTTCCTCACATGCCCTAAGAACCATGGGA",
    ];
    let result = vec![0, 1, 90];
    for i in 0..3 {
        let a = str1[i].as_bytes();
        let b = str2[i].as_bytes();
        let ret = edit_distance(a, a.len(), b, b.len());
        assert_eq!(ret, result[i], "expect {}, but got {}: \n{}\n{}\n", result[i], ret, str1[i], str2[i]);
    }
}

#[test]
fn bitwise_reference() {
    println!("{:b}", 3 << 1);
    println!("{:b}", &3 << 2);
}

#[test]
fn unsigned_and_signed_bitwise() {
    println!("{}", (1_i64 >> 3) as u64);
    println!("{}", (1_u64 >> 3) as u64);
    println!("{}", 0_u64 | (1_i64 << 5) as u64);
    println!("{}", 0_u64 | (1_i64 << 5) as u64);
}

#[test]
fn shrrr() {
    println!("{}", (34_i32).wrapping_shr(6));
    println!("{}", (34_i32) >> 6);
}

#[test]
fn edit_distance_identity_and_symmetry() {
    let a = b"GATTACAGATTACA";
    let b = b"GCATGCTTACA";
    assert_eq!(edit_distance_from_str(a, a), 0);
    assert_eq!(edit_distance_from_str(a, b), edit_distance_from_str(b, a));
    assert_eq!(edit_distance_from_str(b"", b"ACGTA"), 5);
    assert_eq!(edit_distance_from_str(b"ACGTA", b""), 5);
}

#[test]
fn edit_distance_known_values() {
    assert_eq!(edit_distance_from_str(b"kitten", b"sitting"), 3);
    assert_eq!(edit_distance_from_str(b"flaw", b"lawn"), 2);
    assert_eq!(edit_distance_dp(b"ACGT", 4, b"AGT", 3), 1);
    assert_eq!(edit_distance(b"ACGTTT", 4, b"AGTCC", 3), 1);
}

#[test]
fn edit_distance_long_strings() {
    let a: Vec<u8> = (0..700).map(|i| b"ACGT"[(i * 7 + i / 3) % 4]).collect();
    let mut b = a.clone();
    b[10] = b'N';
    b.remove(300);
    b.push(b'G');
    assert_eq!(edit_distance_from_str(&a, &a), 0);
    assert_eq!(edit_distance_from_str(&a, &b), 3);
}
