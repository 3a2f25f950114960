use genefuse::common::GenePos;
use genefuse::int_hasher::{CPPTrivialHasherBuilder, FxHasherBuilder};
use genefuse::kmer::{concat_i32_bits_into_i64, gp_to_i64, i64_to_gp, make_kmer, shift, unpack_kmer};
use std::collections::HashMap;
use std::ops::Neg;

#[test]
fn htest() {
    let mut map = HashMap::<i64, i32, CPPTrivialHasherBuilder>::with_hasher(CPPTrivialHasherBuilder {});
    map.insert(1, 10);
    map.insert(-234234234, 10);
    println!("{}", u64::from_le_bytes((234234234_i64).neg().to_le_bytes()));
    assert_eq!(map.get(&-234234234), Some(&10));
    let mut fx = HashMap::<i64, i32, FxHasherBuilder>::with_hasher(FxHasherBuilder::new());
    fx.insert(5, 6);
    assert_eq!(fx.get(&5), Some(&6));
    let _ = CPPTrivialHasherBuilder::new();
}

#[test]
fn bit1() {
    println!("{:0>32b}", 10_i32,);
    println!("{:b}", -10_i32,);
    let c = 20_i32.wrapping_shl(32);
    println!("{:0>32b} {}", c, c);
}

#[test]
fn concat_bits() {
    let a = [1234351_i32, 0];
    for e in a.iter() {
        println!("{:0>32b}", e);
    }
    let b = concat_i32_bits_into_i64(a);
    println!("{:0>64b}", b);
    println!("{:0>64b}", b & 0x00000000FFFFFFFF);
    assert_eq!(b, 1234351);
    assert_eq!(concat_i32_bits_into_i64([-1, 0]), 0xFFFF_FFFF);
    assert_eq!(concat_i32_bits_into_i64([5, -1]), -0x1_0000_0000 + 5);
}

fn _convert() -> bool {
    let contigs = [0, 1, 3, 220, -1, 0, 23, 4440, 110, 10];
    let positions = [0, 111, 222, -333, 444, 555555, 6, -7777777, 8888, -9999];
    for i in 0..10 {
        let gp = GenePos { contig: contigs[i], position: positions[i] };
        let val = gp_to_i64(&gp);
        println!("val={:0>64b}", val);
        let gp2 = i64_to_gp(val);
        let val2 = gp_to_i64(&gp2);
        println!("val2={:0>64b}", val2);
        if (gp.contig == gp2.contig && gp.position == gp2.position && val == val2) == false {
            println!("{:#?}", (i, gp.contig, gp2.contig, gp.position, gp2.position, val, val2));
            return false;
        }
    }
    true
}

#[test]
fn convert() {
    println!("{}", _convert());
    assert!(_convert());
}

#[test]
fn mut_ref() {
    let mut a = 1;
    let ar = &mut a;
    let b = (*ar).max(3);
    *ar = b;
    println!("{}", b);
}

#[test]
fn use_parenthesis() {
    println!("{}", 254_i32 - 234_u32 as i32 == 20_i32);
    println!("{}", (254_i32 - 234_u32 as i32) == 20_i32);
}

#[test]
fn make_kmer_test() {
    let seq = "CATCACACACCTTGACTGGTCCCCAGACAACAAGTATATAAT".as_bytes();
    println!("{}", seq.get(0..16).unwrap().len());
    let k = make_kmer(seq, 0, -1, 2);
    println!("{}", k);
    assert!(k >= 0);
    assert_eq!(unpack_kmer(k as u64, 16), seq[0..16].to_vec());
}

#[test]
fn bool_cmp() {
    println!("{}", 96 & 64 as u8);
    println!("{}", 96 & 64);
    println!("{}", 96 & 64 as u8 == 0);
}

#[test]
fn kmer_pack_known_values() {
    assert_eq!(make_kmer(b"AAAAAAAAAAAAAAAA", 0, -1, 1), 0);
    assert_eq!(make_kmer(b"AAAAAAAAAAAAAAAT", 0, -1, 1), 1);
    assert_eq!(make_kmer(b"GAAAAAAAAAAAAAAA", 0, -1, 1), 3 << 30);
    assert_eq!(make_kmer(b"GGGGGGGGGGGGGGGG", 0, -1, 1), 0xFFFF_FFFF);
}

#[test]
fn kmer_invalid_base() {
    assert_eq!(make_kmer(b"ACGTACGTNCGTACGT", 0, -1, 1), -1);
    assert_eq!(make_kmer(b"ACGTACGTaCGTACGT", 0, -1, 1), -1);
}

#[test]
fn kmer_rolling_matches_fresh() {
    let seq = b"CATCACACACCTTGACTGGTCCCCAGACAACAAGTATATAAT";
    for step in 1..=4 {
        let mut last = -1_i64;
        let mut i = 0;
        while i + 16 <= seq.len() as i32 {
            let k = make_kmer(seq, i, last, step);
            assert_eq!(k, make_kmer(seq, i, -1, 1));
            assert_eq!(unpack_kmer(k as u64, 16), seq[i as usize..i as usize + 16].to_vec());
            last = k;
            i += step;
        }
    }
}

#[test]
fn gene_pos_shift_and_key() {
    let gp = GenePos { contig: 2, position: -5 };
    let s = shift(&gp, 10);
    assert_eq!(s, GenePos { contig: 2, position: -15 });
    assert_eq!(gp_to_i64(&GenePos { contig: 1, position: 0 }), 0x1_0000_0000);
    assert_eq!(i64_to_gp(i64::MAX), GenePos { contig: 0, position: 0 });
}
