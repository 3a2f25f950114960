//! How the two ends of a read pair overlap.
use vstd::prelude::*;
use crate::edit_distance::{edit_distance_from_str, lev};
use crate::sequence::{revcomp, Sequence};

verus! {

/// The overlap of `s1` with `s2` shifted right by `off` (left when
/// negative): its length and the edit distance over it.
pub open spec fn overlap_at(s1: Seq<u8>, s2: Seq<u8>, off: int) -> (int, nat) {
    if off >= 0 {
        let ol = if s1.len() - off < s2.len() {
            s1.len() - off
        } else {
            s2.len() as int
        };
        (ol, lev(s1.subrange(off, off + ol), s2.subrange(0, ol)))
    } else {
        let ol = if s1.len() < s2.len() + off {
            s1.len() as int
        } else {
            s2.len() + off
        };
        (ol, lev(s1.subrange(0, ol), s2.subrange(-off, -off + ol)))
    }
}

/// The overlap of a read with the reverse complement of its mate.
#[derive(Clone, Copy, Debug, PartialEq, Eq, Structural)]
pub struct Overlap {
    pub m_offset: i32,
    pub m_overlap_len: i32,
    pub m_distance: i32,
    pub m_overlapped: bool,
}

/// Length and distance of the overlap at `off`.
fn overlap_distance(s1: &[u8], s2: &[u8], off: i32) -> (r: (i32, i32))
    requires
        s1@.len() < 0x4000_0000,
        s2@.len() < 0x4000_0000,
        -(s2@.len() as int) <= off <= s1@.len(),
    ensures
        r.0 == overlap_at(s1@, s2@, off as int).0,
        r.1 == overlap_at(s1@, s2@, off as int).1,
        0 <= r.0 < 0x4000_0000,
        0 <= r.1 < 0x4000_0000,
{
    let len1 = s1.len() as i32;
    let len2 = s2.len() as i32;
    if off >= 0 {
        let ol = if len1 - off < len2 {
            len1 - off
        } else {
            len2
        };
        proof {
            crate::edit_distance::lemma_lev_le_max(
                s1@.subrange(off as int, off + ol),
                s2@.subrange(0, ol as int),
            );
        }
        let d = edit_distance_from_str(&s1[off as usize..(off + ol) as usize], &s2[0..ol as usize]);
        (ol, d as i32)
    } else {
        let ol = if len1 < len2 + off {
            len1
        } else {
            len2 + off
        };
        proof {
            crate::edit_distance::lemma_lev_le_max(
                s1@.subrange(0, ol as int),
                s2@.subrange(-off as int, -off + ol),
            );
        }
        let d = edit_distance_from_str(&s1[0..ol as usize], &s2[(-off) as usize..(-off + ol) as usize]);
        (ol, d as i32)
    }
}

/// A distance is acceptable over `ol` bases when it is at most 3 and at most
/// a tenth of the length.
pub open spec fn acceptable(d: int, ol: int) -> bool {
    d <= 3 && 10 * d <= ol
}

/// The threshold `min(3, ol / 10)` rounded up.
pub open spec fn ceil_threshold(ol: int) -> int {
    if (ol + 9) / 10 < 3 {
        (ol + 9) / 10
    } else {
        3
    }
}

/// How far the forward search moves after an unacceptable overlap.
pub open spec fn fwd_step(d: int, ol: int) -> int {
    let st = if d - ceil_threshold(ol) > 0 {
        (d - ceil_threshold(ol)) / 2
    } else {
        0
    };
    if st > 1 {
        st
    } else {
        1
    }
}

/// How far the backward search moves after an unacceptable overlap.
pub open spec fn back_step(d: int, ol: int) -> int {
    let st = d - ceil_threshold(ol) / 2;
    if st > 1 {
        st
    } else {
        1
    }
}

/// From an acceptable overlap at `off`, moves right while the next offset's
/// distance is smaller; the offset where it stops, or none at `lim`.
pub open spec fn walk_fwd(s1: Seq<u8>, s2: Seq<u8>, off: int, ol: int, d: int, lim: int) -> Option<(int, int, int)>
    decreases lim - off,
{
    if off >= lim {
        None
    } else {
        let nx = overlap_at(s1, s2, off + 1);
        if d <= nx.1 {
            Some((off, ol, d))
        } else {
            walk_fwd(s1, s2, off + 1, nx.0, nx.1 as int, lim)
        }
    }
}

/// The first acceptable overlap from `off` rightwards, walked on.
pub open spec fn search_fwd(s1: Seq<u8>, s2: Seq<u8>, off: int, lim: int) -> Option<(int, int, int)>
    decreases (if lim - off > 0 {
        lim - off
    } else {
        0
    }),
{
    if off < 0 || off >= lim {
        None
    } else {
        let x = overlap_at(s1, s2, off);
        if acceptable(x.1 as int, x.0) {
            walk_fwd(s1, s2, off, x.0, x.1 as int, lim)
        } else {
            search_fwd(s1, s2, off + fwd_step(x.1 as int, x.0), lim)
        }
    }
}

/// From an acceptable overlap at `off`, moves left while the next offset's
/// distance is smaller; the offset where it stops, or none at `lim`.
pub open spec fn walk_back(s1: Seq<u8>, s2: Seq<u8>, off: int, ol: int, d: int, lim: int) -> Option<(int, int, int)>
    decreases off - lim,
{
    if off <= lim {
        None
    } else {
        let nx = overlap_at(s1, s2, off - 1);
        if d <= nx.1 {
            Some((off, ol, d))
        } else {
            walk_back(s1, s2, off - 1, nx.0, nx.1 as int, lim)
        }
    }
}

/// The first acceptable overlap from `off` leftwards, walked on.
pub open spec fn search_back(s1: Seq<u8>, s2: Seq<u8>, off: int, lim: int) -> Option<(int, int, int)>
    decreases (if off - lim > 0 {
        off - lim
    } else {
        0
    }),
{
    if off > 0 || off <= lim {
        None
    } else {
        let x = overlap_at(s1, s2, off);
        if acceptable(x.1 as int, x.0) {
            walk_back(s1, s2, off, x.0, x.1 as int, lim)
        } else {
            search_back(s1, s2, off - back_step(x.1 as int, x.0), lim)
        }
    }
}

/// The overlap `fit` reports, as `(offset, length, distance)`: the forward
/// search, continued to negative offsets when it stops at offset 0.
pub open spec fn fit_of(s1: Seq<u8>, s2: Seq<u8>) -> (int, int, int) {
    match search_fwd(s1, s2, 0, s1.len() - 10) {
        None => (0, 0, 0),
        Some(x) => if x.0 == 0 {
            match search_back(s1, s2, 0, -(s2.len() - 10)) {
                Some(y) => y,
                None => (0, 0, 0),
            }
        } else {
            x
        },
    }
}

/// `min(3, ceil(ol / 10))`, the threshold rounded up.
fn threshold_ceil(ol: i32) -> (r: i32)
    requires
        0 <= ol < 0x4000_0000,
    ensures
        r == ceil_threshold(ol as int),
        0 <= r <= 3,
{
    let c = (ol + 9) / 10;
    if c < 3 {
        c
    } else {
        3
    }
}

fn walk_fwd_exec(s1: &[u8], s2: &[u8], off0: i32, ol0: i32, d0: i32, lim: i32) -> (r: Option<(i32, i32, i32)>)
    requires
        s1@.len() < 0x4000_0000,
        s2@.len() < 0x4000_0000,
        0 <= off0,
        lim == s1@.len() - 10,
        ol0 == overlap_at(s1@, s2@, off0 as int).0,
        d0 == overlap_at(s1@, s2@, off0 as int).1,
    ensures
        opt_int(r) == walk_fwd(s1@, s2@, off0 as int, ol0 as int, d0 as int, lim as int),
{
    let mut off = off0;
    let mut ol = ol0;
    let mut d = d0;
    while off < lim
        invariant
            s1@.len() < 0x4000_0000,
            s2@.len() < 0x4000_0000,
            0 <= off,
            lim == s1@.len() - 10,
            ol == overlap_at(s1@, s2@, off as int).0,
            d == overlap_at(s1@, s2@, off as int).1,
            walk_fwd(s1@, s2@, off0 as int, ol0 as int, d0 as int, lim as int) == walk_fwd(
                s1@,
                s2@,
                off as int,
                ol as int,
                d as int,
                lim as int,
            ),
        decreases lim - off,
    {
        let (nol, nd) = overlap_distance(s1, s2, off + 1);
        if d <= nd {
            return Some((off, ol, d));
        }
        off = off + 1;
        ol = nol;
        d = nd;
    }
    None
}

fn search_fwd_exec(s1: &[u8], s2: &[u8], lim: i32) -> (r: Option<(i32, i32, i32)>)
    requires
        s1@.len() < 0x4000_0000,
        s2@.len() < 0x4000_0000,
        lim == s1@.len() - 10,
    ensures
        opt_int(r) == search_fwd(s1@, s2@, 0, lim as int),
{
    let len1 = s1.len() as i32;
    let mut off: i32 = 0;
    while off < lim
        invariant
            s1@.len() < 0x4000_0000,
            s2@.len() < 0x4000_0000,
            len1 == s1@.len(),
            lim == s1@.len() - 10,
            0 <= off <= len1,
            search_fwd(s1@, s2@, 0, lim as int) == search_fwd(s1@, s2@, off as int, lim as int),
        decreases len1 - off,
    {
        let (ol, d) = overlap_distance(s1, s2, off);
        if d <= 3 && 10 * d <= ol {
            return walk_fwd_exec(s1, s2, off, ol, d, lim);
        }
        let c = threshold_ceil(ol);
        let st = if d - c > 0 {
            (d - c) / 2
        } else {
            0
        };
        let step = if st > 1 {
            st
        } else {
            1
        };
        let ghost prev = off;
        assert(search_fwd(s1@, s2@, prev as int, lim as int) == search_fwd(s1@, s2@, prev + step, lim as int));
        off = off + step;
        if off > len1 {
            off = len1;
        }
    }
    None
}

fn walk_back_exec(s1: &[u8], s2: &[u8], off0: i32, ol0: i32, d0: i32, lim: i32) -> (r: Option<(i32, i32, i32)>)
    requires
        s1@.len() < 0x4000_0000,
        s2@.len() < 0x4000_0000,
        off0 <= 0,
        -(s2@.len() as int) <= off0,
        lim == -(s2@.len() - 10),
        ol0 == overlap_at(s1@, s2@, off0 as int).0,
        d0 == overlap_at(s1@, s2@, off0 as int).1,
    ensures
        opt_int(r) == walk_back(s1@, s2@, off0 as int, ol0 as int, d0 as int, lim as int),
{
    let mut off = off0;
    let mut ol = ol0;
    let mut d = d0;
    while off > lim
        invariant
            s1@.len() < 0x4000_0000,
            s2@.len() < 0x4000_0000,
            off <= 0,
            -(s2@.len() as int) <= off,
            lim == -(s2@.len() - 10),
            ol == overlap_at(s1@, s2@, off as int).0,
            d == overlap_at(s1@, s2@, off as int).1,
            walk_back(s1@, s2@, off0 as int, ol0 as int, d0 as int, lim as int) == walk_back(
                s1@,
                s2@,
                off as int,
                ol as int,
                d as int,
                lim as int,
            ),
        decreases off - lim,
    {
        let (nol, nd) = overlap_distance(s1, s2, off - 1);
        if d <= nd {
            return Some((off, ol, d));
        }
        off = off - 1;
        ol = nol;
        d = nd;
    }
    None
}

fn search_back_exec(s1: &[u8], s2: &[u8], lim: i32) -> (r: Option<(i32, i32, i32)>)
    requires
        s1@.len() < 0x4000_0000,
        s2@.len() < 0x4000_0000,
        lim == -(s2@.len() - 10),
    ensures
        opt_int(r) == search_back(s1@, s2@, 0, lim as int),
{
    let len2 = s2.len() as i32;
    let mut off: i32 = 0;
    while off > lim
        invariant
            s1@.len() < 0x4000_0000,
            s2@.len() < 0x4000_0000,
            len2 == s2@.len(),
            lim == -(s2@.len() - 10),
            -len2 <= off <= 0,
            search_back(s1@, s2@, 0, lim as int) == search_back(s1@, s2@, off as int, lim as int),
        decreases off + len2,
    {
        let (ol, d) = overlap_distance(s1, s2, off);
        if d <= 3 && 10 * d <= ol {
            return walk_back_exec(s1, s2, off, ol, d, lim);
        }
        let c = threshold_ceil(ol);
        let st = d - c / 2;
        let step = if st > 1 {
            st
        } else {
            1
        };
        let ghost prev = off;
        assert(search_back(s1@, s2@, prev as int, lim as int) == search_back(s1@, s2@, prev - step, lim as int));
        off = off - step;
        if off < -len2 {
            off = -len2;
        }
    }
    None
}

/// An optional triple of 32-bit integers as integers.
pub open spec fn opt_int(x: Option<(i32, i32, i32)>) -> Option<(int, int, int)> {
    match x {
        Some(t) => Some((t.0 as int, t.1 as int, t.2 as int)),
        None => None,
    }
}

impl Overlap {
    pub fn new(offset: i32, overlap_len: i32, distance: i32) -> (r: Overlap)
        ensures
            r == (Overlap {
                m_offset: offset,
                m_overlap_len: overlap_len,
                m_distance: distance,
                m_overlapped: overlap_len > 0,
            }),
    {
        Overlap {
            m_offset: offset,
            m_overlap_len: overlap_len,
            m_distance: distance,
            m_overlapped: overlap_len > 0,
        }
    }

    /// Finds how `r2`'s reverse complement overlaps `r1`: the offset of the
    /// first acceptable overlap from the left, moved on while the distance
    /// falls; from offset 0 the search goes on to negative offsets. No
    /// overlap gives offset, length and distance 0.
    pub fn fit(r1: &Sequence, r2: &Sequence) -> (r: Overlap)
        requires
            r1@.len() < 0x4000_0000,
            r2@.len() < 0x4000_0000,
        ensures
            r.m_offset == fit_of(r1@, revcomp(r2@)).0,
            r.m_overlap_len == fit_of(r1@, revcomp(r2@)).1,
            r.m_distance == fit_of(r1@, revcomp(r2@)).2,
            r.m_overlapped == (r.m_overlap_len > 0),
    {
        let len1 = r1.len() as i32;
        let len2 = r2.len() as i32;
        let reverse_r2 = r2.reverse_complement();
        let s1 = r1.m_str.as_slice();
        let s2 = reverse_r2.m_str.as_slice();
        match search_fwd_exec(s1, s2, len1 - 10) {
            None => Overlap::new(0, 0, 0),
            Some((off, ol, d)) => {
                if off == 0 {
                    match search_back_exec(s1, s2, -(len2 - 10)) {
                        Some((boff, bol, bd)) => Overlap::new(boff, bol, bd),
                        None => Overlap::new(0, 0, 0),
                    }
                } else {
                    Overlap::new(off, ol, d)
                }
            },
        }
    }
}

} // verus!
