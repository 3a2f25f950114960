//! Packing of 16-base k-mers into integers, and of gene positions into one
//! 64-bit key.
use vstd::prelude::*;
use vstd::arithmetic::div_mod::lemma_fundamental_div_mod_converse;
use crate::common::GenePos;
use crate::sequence::{BASE_A, BASE_C, BASE_G, BASE_T};

verus! {

/// Number of bases in a k-mer.
pub const KMER: i32 = 16;

/// The two-bit code of a base, or -1 for anything else.
pub open spec fn base_code(b: u8) -> int {
    if b == BASE_A {
        0
    } else if b == BASE_T {
        1
    } else if b == BASE_C {
        2
    } else if b == BASE_G {
        3
    } else {
        -1
    }
}

/// The base that a two-bit code stands for.
pub open spec fn code_base(c: int) -> u8 {
    if c == 0 {
        BASE_A
    } else if c == 1 {
        BASE_T
    } else if c == 2 {
        BASE_C
    } else {
        BASE_G
    }
}

pub open spec fn is_base(b: u8) -> bool {
    b == BASE_A || b == BASE_T || b == BASE_C || b == BASE_G
}

pub open spec fn all_bases(s: Seq<u8>) -> bool {
    forall|i: int| 0 <= i < s.len() ==> is_base(#[trigger] s[i])
}

pub open spec fn pow4(n: nat) -> int
    decreases n,
{
    if n == 0 {
        1
    } else {
        4 * pow4((n - 1) as nat)
    }
}

/// The integer that packs a string of bases two bits each, the first base
/// in the highest bits.
pub open spec fn kmer_of(s: Seq<u8>) -> int
    decreases s.len(),
{
    if s.len() == 0 {
        0
    } else {
        kmer_of(s.drop_last()) * 4 + base_code(s.last())
    }
}

/// The `n` bases packed in `k`.
pub open spec fn unpack(k: int, n: nat) -> Seq<u8>
    decreases n,
{
    if n == 0 {
        Seq::empty()
    } else {
        unpack(k / 4, (n - 1) as nat).push(code_base(k % 4))
    }
}

/// The window of `KMER` bases that starts at `pos`.
pub open spec fn window(s: Seq<u8>, pos: int) -> Seq<u8> {
    s.subrange(pos, pos + 16)
}

pub proof fn lemma_pow4_pos(n: nat)
    ensures
        pow4(n) >= 1,
    decreases n,
{
    if n > 0 {
        lemma_pow4_pos((n - 1) as nat);
    }
}

pub proof fn lemma_kmer_bound(s: Seq<u8>)
    requires
        all_bases(s),
    ensures
        0 <= kmer_of(s) < pow4(s.len()),
    decreases s.len(),
{
    if s.len() > 0 {
        assert(all_bases(s.drop_last()));
        lemma_kmer_bound(s.drop_last());
        assert(is_base(s[s.len() - 1]));
    }
}

pub proof fn lemma_kmer_concat(a: Seq<u8>, b: Seq<u8>)
    ensures
        kmer_of(a + b) == kmer_of(a) * pow4(b.len()) + kmer_of(b),
    decreases b.len(),
{
    if b.len() == 0 {
        assert(a + b =~= a);
    } else {
        assert((a + b).drop_last() =~= a + b.drop_last());
        assert((a + b).last() == b.last());
        lemma_kmer_concat(a, b.drop_last());
        let p = pow4((b.len() - 1) as nat);
        assert(kmer_of(a) * (4 * p) == (kmer_of(a) * p) * 4) by (nonlinear_arith);
    }
}

/// Packing a string of bases and unpacking the result gives back the string.
pub proof fn lemma_kmer_round_trip(s: Seq<u8>)
    requires
        all_bases(s),
    ensures
        unpack(kmer_of(s), s.len()) == s,
    decreases s.len(),
{
    if s.len() > 0 {
        let p = s.drop_last();
        assert(all_bases(p));
        assert(is_base(s[s.len() - 1]));
        let c = base_code(s.last());
        lemma_fundamental_div_mod_converse(kmer_of(s), 4, kmer_of(p), c);
        lemma_kmer_round_trip(p);
        assert(unpack(kmer_of(s), s.len()) =~= s);
    }
}

/// Two strings of bases of one length that pack to one integer are equal.
pub proof fn lemma_kmer_injective(s: Seq<u8>, t: Seq<u8>)
    requires
        all_bases(s),
        all_bases(t),
        s.len() == t.len(),
        kmer_of(s) == kmer_of(t),
    ensures
        s == t,
{
    lemma_kmer_round_trip(s);
    lemma_kmer_round_trip(t);
}

pub fn base2num(c: u8) -> (r: i64)
    ensures
        r == base_code(c),
{
    if c == BASE_A {
        0
    } else if c == BASE_T {
        1
    } else if c == BASE_C {
        2
    } else if c == BASE_G {
        3
    } else {
        -1
    }
}

/// Packs the k-mer of `seq` at `pos`, or returns -1 when the window holds
/// anything but A, T, C and G.
///
/// A non-negative `last_kmer` is the k-mer of the window `step` bases
/// earlier, whose bases are then reused.
pub fn make_kmer(seq: &[u8], pos: i32, last_kmer: i64, step: i32) -> (r: i64)
    requires
        0 <= pos,
        pos + KMER <= seq@.len(),
        1 <= step <= 4,
        last_kmer >= 0 ==> pos >= step && all_bases(window(seq@, pos - step)) && last_kmer
            == kmer_of(window(seq@, pos - step)),
    ensures
        all_bases(window(seq@, pos as int)) ==> r == kmer_of(window(seq@, pos as int)),
        !all_bases(window(seq@, pos as int)) ==> r == -1,
        r >= 0 <==> all_bases(window(seq@, pos as int)),
        r < 0x1_0000_0000,
{
    let ghost w = window(seq@, pos as int);
    let mut kmer: i64 = 0;
    let mut start: i32 = 0;
    proof {
        reveal_with_fuel(pow4, 17);
    }
    if last_kmer >= 0 {
        start = KMER - step;
        let keep: u64 = if step == 1 {
            0x4000_0000
        } else if step == 2 {
            0x1000_0000
        } else if step == 3 {
            0x0400_0000
        } else {
            0x0100_0000
        };
        let ghost old_w = window(seq@, pos - step);
        let ghost x = old_w.subrange(0, step as int);
        let ghost y = old_w.subrange(step as int, 16);
        proof {
            assert(old_w =~= x + y);
            assert(all_bases(y));
            assert(all_bases(x));
            lemma_kmer_concat(x, y);
            lemma_kmer_bound(x);
            lemma_kmer_bound(y);
            assert(keep == pow4((16 - step) as nat));
            lemma_fundamental_div_mod_converse(kmer_of(old_w), keep as int, kmer_of(x), kmer_of(y));
            assert(y =~= w.subrange(0, start as int));
        }
        kmer = ((last_kmer as u64) % keep) as i64;
    }
    let mut j: i32 = start;
    while j < KMER
        invariant
            0 <= start <= j <= KMER,
            0 <= pos,
            pos + KMER <= seq@.len(),
            w == window(seq@, pos as int),
            all_bases(w.subrange(0, j as int)),
            kmer == kmer_of(w.subrange(0, j as int)),
            0 <= kmer < pow4(j as nat),
            pow4(16) == 0x1_0000_0000,
        decreases KMER - j,
    {
        let c = base2num(seq[pos as usize + j as usize]);
        if c < 0 {
            assert(!is_base(w[j as int]));
            return -1;
        }
        proof {
            let nw = w.subrange(0, j + 1);
            assert(nw.drop_last() =~= w.subrange(0, j as int));
            assert(all_bases(nw));
            lemma_kmer_bound(nw);
            lemma_pow4_pos(j as nat);
            assert(pow4((j + 1) as nat) <= pow4(16)) by {
                lemma_pow4_mono((j + 1) as nat, 16);
            }
        }
        kmer = kmer * 4 + c;
        j = j + 1;
    }
    assert(w.subrange(0, 16) =~= w);
    kmer
}

pub proof fn lemma_pow4_mono(a: nat, b: nat)
    requires
        a <= b,
    ensures
        pow4(a) <= pow4(b),
    decreases b - a,
{
    if a < b {
        lemma_pow4_mono(a, (b - 1) as nat);
        lemma_pow4_pos((b - 1) as nat);
    }
}

/// Unpacks the `n` bases held in `k`.
pub fn unpack_kmer(k: u64, n: usize) -> (r: Vec<u8>)
    ensures
        r@ == unpack(k as int, n as nat),
    decreases n,
{
    if n == 0 {
        Vec::new()
    } else {
        let mut v = unpack_kmer(k / 4, n - 1);
        let c = k % 4;
        let b = if c == 0 {
            BASE_A
        } else if c == 1 {
            BASE_T
        } else if c == 2 {
            BASE_C
        } else {
            BASE_G
        };
        v.push(b);
        v
    }
}

/// A 32-bit word read as unsigned.
pub open spec fn unsigned32(p: int) -> int {
    if p < 0 {
        p + 0x1_0000_0000
    } else {
        p
    }
}

/// A 32-bit word read as signed.
pub open spec fn signed32(u: int) -> int {
    if u >= 0x8000_0000 {
        u - 0x1_0000_0000
    } else {
        u
    }
}

/// The 64-bit key of a gene position: the contig in the high word and the
/// position's bits in the low word.
pub open spec fn gp_long(gp: GenePos) -> int {
    gp.contig * 0x1_0000_0000 + unsigned32(gp.position as int)
}

/// The range of keys that some gene position packs to.
pub open spec fn gp_long_range(v: int) -> bool {
    -0x8000_0000_0000 <= v < 0x8000_0000_0000
}

/// The gene position that a key stands for.
pub open spec fn gp_of_long(v: int) -> GenePos {
    GenePos { contig: (v / 0x1_0000_0000) as i16, position: signed32(v % 0x1_0000_0000) as i32 }
}

/// Two 32-bit words laid out as one 64-bit integer, the first in the low half.
pub fn concat_i32_bits_into_i64(two_i32_array: [i32; 2]) -> (r: i64)
    ensures
        r == unsigned32(two_i32_array@[0] as int) + two_i32_array@[1] * 0x1_0000_0000,
{
    let lo = two_i32_array[0];
    let hi = two_i32_array[1];
    let low: i64 = if lo < 0 {
        lo as i64 + 0x1_0000_0000
    } else {
        lo as i64
    };
    hi as i64 * 0x1_0000_0000 + low
}

/// Moves a gene position `i` bases back.
pub fn shift(gp: &GenePos, i: i32) -> (r: GenePos)
    requires
        i32::MIN <= gp.position - i <= i32::MAX,
    ensures
        r.contig == gp.contig,
        r.position == gp.position - i,
{
    GenePos { contig: gp.contig, position: gp.position - i }
}

pub fn gp_to_i64(gp: &GenePos) -> (r: i64)
    ensures
        r == gp_long(*gp),
        gp_long_range(r as int),
{
    concat_i32_bits_into_i64([gp.position, gp.contig as i32])
}

/// The gene position of a key; a key outside the range of keys gives the
/// position 0 of contig 0.
pub fn i64_to_gp(val: i64) -> (r: GenePos)
    ensures
        gp_long_range(val as int) ==> r == gp_of_long(val as int),
        !gp_long_range(val as int) ==> r == (GenePos { contig: 0, position: 0 }),
{
    if val < -0x8000_0000_0000 || val >= 0x8000_0000_0000 {
        return GenePos { contig: 0, position: 0 };
    }
    let u: u64 = (val + 0x8000_0000_0000) as u64;
    let hi: u64 = u / 0x1_0000_0000;
    let lo: u64 = u % 0x1_0000_0000;
    proof {
        lemma_fundamental_div_mod_converse(val as int, 0x1_0000_0000, hi - 0x8000, lo as int);
    }
    let position: i64 = if lo >= 0x8000_0000 {
        lo as i64 - 0x1_0000_0000
    } else {
        lo as i64
    };
    GenePos { contig: (hi as i64 - 0x8000) as i16, position: position as i32 }
}

/// Unpacking the key of a gene position gives back the position.
pub proof fn lemma_gp_long_round_trip(gp: GenePos)
    ensures
        gp_long_range(gp_long(gp)),
        gp_of_long(gp_long(gp)) == gp,
{
    let v = gp_long(gp);
    lemma_fundamental_div_mod_converse(v, 0x1_0000_0000, gp.contig as int, unsigned32(gp.position as int));
}

} // verus!
