//! Small helpers on byte strings.
use vstd::prelude::*;

verus! {

/// Decimal digits of a natural number.
pub open spec fn digits(n: nat) -> Seq<u8>
    decreases n,
{
    if n < 10 {
        seq![(48 + n) as u8]
    } else {
        digits(n / 10).push((48 + n % 10) as u8)
    }
}

/// Decimal text of an integer, with a leading `-` when negative.
pub open spec fn decimal(n: int) -> Seq<u8> {
    if n < 0 {
        seq![45u8] + digits((-n) as nat)
    } else {
        digits(n as nat)
    }
}

fn nat_digits(n: u64) -> (r: Vec<u8>)
    ensures
        r@ == digits(n as nat),
    decreases n,
{
    if n < 10 {
        let mut v: Vec<u8> = Vec::new();
        v.push((48 + n) as u8);
        v
    } else {
        let mut v = nat_digits(n / 10);
        v.push((48 + n % 10) as u8);
        v
    }
}

/// Decimal text of an integer.
pub fn int2str(num: i64) -> (r: Vec<u8>)
    ensures
        r@ == decimal(num as int),
{
    if num < 0 {
        let m: u64 = if num == i64::MIN {
            0x8000_0000_0000_0000
        } else {
            (-num) as u64
        };
        let mut v: Vec<u8> = Vec::new();
        v.push(45);
        let d = nat_digits(m);
        push_all(&mut v, d.as_slice());
        v
    } else {
        nat_digits(num as u64)
    }
}

/// Appends all of `s` to `v`.
pub fn push_all(v: &mut Vec<u8>, s: &[u8])
    ensures
        final(v)@ == old(v)@ + s@,
{
    let ghost v0 = v@;
    let mut i: usize = 0;
    while i < s.len()
        invariant
            i <= s@.len(),
            v@ == v0 + s@.subrange(0, i as int),
        decreases s@.len() - i,
    {
        v.push(s[i]);
        i = i + 1;
        assert(v@ =~= v0 + s@.subrange(0, i as int));
    }
    assert(s@.subrange(0, s@.len() as int) =~= s@);
}

/// Number of places where a base differs from the next one.
pub open spec fn disconnected(s: Seq<u8>) -> int
    decreases s.len(),
{
    if s.len() < 2 {
        0
    } else {
        disconnected(s.drop_last()) + if s[s.len() - 2] != s[s.len() - 1] {
            1int
        } else {
            0int
        }
    }
}

/// Counts the places where a base differs from the next one, a cheap measure
/// of how far a string is from a run of one base.
pub fn dis_connected_count(s: &[u8]) -> (r: usize)
    ensures
        r == disconnected(s@),
        0 <= r,
        s@.len() > 0 ==> r < s@.len(),
{
    let mut diff: usize = 0;
    let n = s.len();
    if n < 2 {
        return 0;
    }
    let mut i: usize = 1;
    while i < n
        invariant
            1 <= i <= n,
            n == s@.len(),
            diff == disconnected(s@.subrange(0, i as int)),
            0 <= diff < i,
        decreases n - i,
    {
        assert(s@.subrange(0, i + 1).drop_last() =~= s@.subrange(0, i as int));
        if s[i - 1] != s[i] {
            diff = diff + 1;
        }
        i = i + 1;
    }
    assert(s@.subrange(0, n as int) =~= s@);
    diff
}

} // verus!
