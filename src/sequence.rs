//! Nucleotide strings and their reverse complement.
use vstd::prelude::*;

verus! {

pub const BASE_A: u8 = 65;
pub const BASE_C: u8 = 67;
pub const BASE_G: u8 = 71;
pub const BASE_T: u8 = 84;
pub const BASE_N: u8 = 78;
pub const BASE_LOWER_A: u8 = 97;
pub const BASE_LOWER_C: u8 = 99;
pub const BASE_LOWER_G: u8 = 103;
pub const BASE_LOWER_T: u8 = 116;

/// The complement of one base; anything that is not a known base becomes `N`.
pub open spec fn complement(b: u8) -> u8 {
    if b == BASE_A || b == BASE_LOWER_A {
        BASE_T
    } else if b == BASE_T || b == BASE_LOWER_T {
        BASE_A
    } else if b == BASE_C || b == BASE_LOWER_C {
        BASE_G
    } else if b == BASE_G || b == BASE_LOWER_G {
        BASE_C
    } else {
        BASE_N
    }
}

/// The reverse complement of a nucleotide string.
pub open spec fn revcomp(s: Seq<u8>) -> Seq<u8> {
    Seq::new(s.len(), |i: int| complement(s[s.len() - 1 - i]))
}

/// An upper-case base, or the ambiguous base `N`.
pub open spec fn is_nucleotide(b: u8) -> bool {
    b == BASE_A || b == BASE_C || b == BASE_G || b == BASE_T || b == BASE_N
}

pub open spec fn all_nucleotides(s: Seq<u8>) -> bool {
    forall|i: int| 0 <= i < s.len() ==> is_nucleotide(#[trigger] s[i])
}

pub fn get_complement_base(base: u8) -> (r: u8)
    ensures
        r == complement(base),
{
    if base == BASE_A || base == BASE_LOWER_A {
        BASE_T
    } else if base == BASE_T || base == BASE_LOWER_T {
        BASE_A
    } else if base == BASE_C || base == BASE_LOWER_C {
        BASE_G
    } else if base == BASE_G || base == BASE_LOWER_G {
        BASE_C
    } else {
        BASE_N
    }
}

pub fn reverse_complement(seq: &[u8]) -> (r: Vec<u8>)
    ensures
        r@ == revcomp(seq@),
{
    let n = seq.len();
    let mut r: Vec<u8> = Vec::with_capacity(n);
    let mut k: usize = 0;
    while k < n
        invariant
            n == seq@.len(),
            k <= n,
            r@.len() == k,
            forall|i: int| 0 <= i < k ==> r@[i] == complement(seq@[n - 1 - i]),
        decreases n - k,
    {
        r.push(get_complement_base(seq[n - 1 - k]));
        k = k + 1;
    }
    assert(r@ =~= revcomp(seq@));
    r
}

/// Taking the reverse complement twice gives back any string of upper-case
/// bases and `N`.
pub proof fn lemma_revcomp_involution(s: Seq<u8>)
    requires
        all_nucleotides(s),
    ensures
        revcomp(revcomp(s)) == s,
{
    assert forall|i: int| 0 <= i < s.len() implies #[trigger] revcomp(revcomp(s))[i] == s[i] by {
        assert(is_nucleotide(s[i]));
    }
    assert(revcomp(revcomp(s)) =~= s);
}

/// A nucleotide string.
#[derive(Clone, Debug)]
pub struct Sequence {
    pub m_str: Vec<u8>,
}

impl View for Sequence {
    type V = Seq<u8>;

    open spec fn view(&self) -> Seq<u8> {
        self.m_str@
    }
}

impl Sequence {
    pub fn new(m_str: Vec<u8>) -> (r: Sequence)
        ensures
            r@ == m_str@,
    {
        Sequence { m_str }
    }

    pub fn reverse_complement(&self) -> (r: Sequence)
        ensures
            r@ == revcomp(self@),
    {
        Sequence { m_str: reverse_complement(self.m_str.as_slice()) }
    }

    pub fn len(&self) -> (r: usize)
        ensures
            r == self@.len(),
    {
        self.m_str.len()
    }
}

/// A byte that a reference sequence may hold: a letter, `-` or `*`.
pub open spec fn valid_seq_byte(b: u8) -> bool {
    (65 <= b <= 90) || (97 <= b <= 122) || b == 45 || b == 42
}

pub open spec fn upper_byte(b: u8) -> u8 {
    if 97 <= b <= 122 {
        (b - 32) as u8
    } else {
        b
    }
}

/// The sequence bytes of a reference line: other bytes are dropped, and
/// letters are upper-cased when `upper` is set.
pub open spec fn clean_seq(s: Seq<u8>, upper: bool) -> Seq<u8>
    decreases s.len(),
{
    if s.len() == 0 {
        Seq::empty()
    } else {
        let rest = clean_seq(s.drop_last(), upper);
        let b = s.last();
        if valid_seq_byte(b) {
            rest.push(if upper {
                upper_byte(b)
            } else {
                b
            })
        } else {
            rest
        }
    }
}

pub fn filter_map_valid_seq_to_upper(b: u8) -> (r: Option<u8>)
    ensures
        r == (if valid_seq_byte(b) {
            Some(upper_byte(b))
        } else {
            None
        }),
{
    if (65 <= b && b <= 90) || b == 45 || b == 42 {
        Some(b)
    } else if 97 <= b && b <= 122 {
        Some(b - 32)
    } else {
        None
    }
}

pub fn filter_map_valid_seq(b: u8) -> (r: Option<u8>)
    ensures
        r == (if valid_seq_byte(b) {
            Some(b)
        } else {
            None
        }),
{
    if (65 <= b && b <= 90) || (97 <= b && b <= 122) || b == 45 || b == 42 {
        Some(b)
    } else {
        None
    }
}

/// Appends the sequence bytes of a reference line to `seq`.
pub fn push_sequence_line(seq: &mut Vec<u8>, line: &[u8], upper: bool)
    ensures
        final(seq)@ == old(seq)@ + clean_seq(line@, upper),
{
    let ghost s0 = seq@;
    let mut i: usize = 0;
    assert(clean_seq(line@.subrange(0, 0), upper) =~= Seq::<u8>::empty());
    assert(seq@ =~= s0 + clean_seq(line@.subrange(0, 0), upper));
    while i < line.len()
        invariant
            i <= line@.len(),
            seq@ == s0 + clean_seq(line@.subrange(0, i as int), upper),
        decreases line@.len() - i,
    {
        let ghost pre = line@.subrange(0, i + 1);
        assert(pre.drop_last() =~= line@.subrange(0, i as int));
        let r = if upper {
            filter_map_valid_seq_to_upper(line[i])
        } else {
            filter_map_valid_seq(line[i])
        };
        match r {
            Some(b) => {
                seq.push(b);
                assert(seq@ =~= s0 + clean_seq(pre, upper));
            },
            None => {},
        }
        i = i + 1;
    }
    assert(line@.subrange(0, line@.len() as int) =~= line@);
}

} // verus!
