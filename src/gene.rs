//! Gene regions of a panel: coordinates, exons and strand.
use vstd::prelude::*;
use crate::text::{decimal, int2str, push_all};

verus! {

#[derive(Clone, Copy, Debug, PartialEq, Eq, Structural)]
pub struct Exon {
    pub id: i32,
    pub start: i32,
    pub end: i32,
}

/// A gene region of the panel.
#[derive(Clone, Debug)]
pub struct Gene {
    pub m_name: Vec<u8>,
    pub m_chr: Vec<u8>,
    pub m_start: i32,
    pub m_end: i32,
    pub m_exons: Vec<Exon>,
    pub m_reversed: bool,
}

/// Where a chromosome position falls on a gene: in an exon (`true`) or an
/// intron (`false`), with its number; the first exon or intron of the list
/// that holds it wins.
pub open spec fn locate(exons: Seq<Exon>, reversed: bool, pp: int, i: int) -> Option<(bool, int)>
    decreases exons.len() - i,
{
    if i < 0 || i >= exons.len() {
        None
    } else if exons[i].start <= pp <= exons[i].end {
        Some((true, exons[i].id as int))
    } else if i > 0 && (if reversed {
        exons[i].end < pp < exons[i - 1].start
    } else {
        exons[i - 1].end < pp < exons[i].start
    }) {
        Some((false, exons[i].id - 1))
    } else {
        locate(exons, reversed, pp, i + 1)
    }
}

pub open spec fn abs(x: int) -> int {
    if x < 0 {
        -x
    } else {
        x
    }
}

impl Gene {
    /// The strand flag follows the order of the first two exons, and exon
    /// numbers leave room for the intron before them.
    pub open spec fn wf(&self) -> bool {
        &&& self.m_reversed == (self.m_exons@.len() > 1 && self.m_exons@[0].start
            > self.m_exons@[1].start)
        &&& forall|i: int| 0 <= i < self.m_exons@.len() ==> #[trigger] self.m_exons@[i].id > i32::MIN
    }

    /// The chromosome position of a gene position.
    pub open spec fn chr_pos(&self, pos: int) -> int {
        abs(pos) + self.m_start
    }

    pub fn is_reversed(&self) -> (r: bool)
        ensures
            r == self.m_reversed,
    {
        self.m_reversed
    }

    /// A copy with the same content.
    pub fn duplicate(&self) -> (r: Gene)
        ensures
            r.m_name@ == self.m_name@,
            r.m_chr@ == self.m_chr@,
            r.m_start == self.m_start,
            r.m_end == self.m_end,
            r.m_exons@ == self.m_exons@,
            r.m_reversed == self.m_reversed,
            self.wf() ==> r.wf(),
    {
        let exons = self.m_exons.clone();
        assert(exons@ =~= self.m_exons@);
        Gene {
            m_name: self.m_name.clone(),
            m_chr: self.m_chr.clone(),
            m_start: self.m_start,
            m_end: self.m_end,
            m_exons: exons,
            m_reversed: self.m_reversed,
        }
    }

    pub fn new(m_name: Vec<u8>, m_chr: Vec<u8>, m_start: i32, m_end: i32) -> (r: Gene)
        ensures
            r.wf(),
            r.m_name@ == m_name@,
            r.m_chr@ == m_chr@,
            r.m_start == m_start,
            r.m_end == m_end,
            r.m_exons@.len() == 0,
    {
        Gene { m_name, m_chr, m_start, m_end, m_exons: Vec::new(), m_reversed: false }
    }

    /// A gene that a panel line named; a default gene is invalid.
    pub fn valid(&self) -> (r: bool)
        ensures
            r == (self.m_start != 0 && self.m_end != 0),
    {
        self.m_start != 0 && self.m_end != 0
    }

    pub fn add_exon(&mut self, id: i32, start: i32, end: i32)
        requires
            old(self).wf(),
            id > i32::MIN,
        ensures
            final(self).wf(),
            final(self).m_exons@ == old(self).m_exons@.push(Exon { id, start, end }),
            final(self).m_name == old(self).m_name,
            final(self).m_chr == old(self).m_chr,
            final(self).m_start == old(self).m_start,
            final(self).m_end == old(self).m_end,
    {
        let exon = Exon { id, start, end };
        self._add_exon(exon);
    }

    fn _add_exon(&mut self, exon: Exon)
        requires
            old(self).wf(),
            exon.id > i32::MIN,
        ensures
            final(self).wf(),
            final(self).m_exons@ == old(self).m_exons@.push(exon),
            final(self).m_name == old(self).m_name,
            final(self).m_chr == old(self).m_chr,
            final(self).m_start == old(self).m_start,
            final(self).m_end == old(self).m_end,
    {
        self.m_exons.push(exon);
        if self.m_exons.len() > 1 {
            if self.m_exons[0].start > self.m_exons[1].start {
                self.m_reversed = true;
            }
        }
    }

    /// Finds the exon or intron that holds gene position `pos`; leaves both
    /// outputs as they were when none does.
    pub fn get_exon_intron(&self, pos: i32, is_exon: &mut bool, number: &mut i32)
        requires
            self.wf(),
        ensures
            match locate(self.m_exons@, self.m_reversed, self.chr_pos(pos as int), 0) {
                Some((e, n)) => *final(is_exon) == e && *final(number) == n,
                None => *final(is_exon) == *old(is_exon) && *final(number) == *old(number),
            },
    {
        match self.exon_intron_of(pos) {
            Some((e, n)) => {
                *is_exon = e;
                *number = n;
            },
            None => {},
        }
    }

    /// The exon or intron that holds gene position `pos`, if any.
    pub fn exon_intron_of(&self, pos: i32) -> (r: Option<(bool, i32)>)
        requires
            self.wf(),
        ensures
            match locate(self.m_exons@, self.m_reversed, self.chr_pos(pos as int), 0) {
                Some((e, n)) => r == Some((e, n as i32)) && i32::MIN <= n <= i32::MAX,
                None => r is None,
            },
    {
        let pp: i64 = if pos < 0 {
            -(pos as i64)
        } else {
            pos as i64
        } + self.m_start as i64;
        let n = self.m_exons.len();
        let mut i: usize = 0;
        while i < n
            invariant
                self.wf(),
                n == self.m_exons@.len(),
                i <= n,
                pp == self.chr_pos(pos as int),
                locate(self.m_exons@, self.m_reversed, pp as int, 0) == locate(
                    self.m_exons@,
                    self.m_reversed,
                    pp as int,
                    i as int,
                ),
            decreases n - i,
        {
            let exon = self.m_exons[i];
            if pp >= exon.start as i64 && pp <= exon.end as i64 {
                return Some((true, exon.id));
            }
            if i > 0 {
                let prev = self.m_exons[i - 1];
                let inside = if self.m_reversed {
                    (exon.end as i64) < pp && pp < prev.start as i64
                } else {
                    (prev.end as i64) < pp && pp < exon.start as i64
                };
                if inside {
                    assert(self.m_exons@[i as int].id > i32::MIN);
                    return Some((false, exon.id - 1));
                }
            }
            i = i + 1;
        }
        None
    }

    /// The chromosome coordinate of a gene position, negative on the
    /// reverse strand.
    pub fn gene_pos_2_chr_pos(&self, genepos: i32) -> (r: i64)
        ensures
            r == (if genepos < 0 {
                -self.chr_pos(genepos as int)
            } else {
                self.chr_pos(genepos as int)
            }),
    {
        let chrpos: i64 = if genepos < 0 {
            -(genepos as i64)
        } else {
            genepos as i64
        } + self.m_start as i64;
        if genepos < 0 {
            -chrpos
        } else {
            chrpos
        }
    }

    /// Text of a gene position: `name:exon:N|+chr:P`, with `intron:N|` for an
    /// intron, no middle part outside both, and `-` on the reverse strand.
    pub fn pos2str(&self, pos: i32) -> (r: Vec<u8>)
        requires
            self.wf(),
        ensures
            r@ == pos_text(self, pos as int),
    {
        let mut ss: Vec<u8> = Vec::new();
        push_all(&mut ss, self.m_name.as_slice());
        ss.push(58);
        match self.exon_intron_of(pos) {
            Some((true, n)) => {
                ss.push(101);
                ss.push(120);
                ss.push(111);
                ss.push(110);
                ss.push(58);
                let t = int2str(n as i64);
                push_all(&mut ss, t.as_slice());
                ss.push(124);
            },
            Some((false, n)) => {
                ss.push(105);
                ss.push(110);
                ss.push(116);
                ss.push(114);
                ss.push(111);
                ss.push(110);
                ss.push(58);
                let t = int2str(n as i64);
                push_all(&mut ss, t.as_slice());
                ss.push(124);
            },
            None => {},
        }
        if pos >= 0 {
            ss.push(43);
        } else {
            ss.push(45);
        }
        push_all(&mut ss, self.m_chr.as_slice());
        ss.push(58);
        let pp: i64 = if pos < 0 {
            -(pos as i64)
        } else {
            pos as i64
        } + self.m_start as i64;
        let t = int2str(pp);
        push_all(&mut ss, t.as_slice());
        assert(ss@ =~= pos_text(self, pos as int));
        ss
    }
}

/// The text `pos2str` writes for gene position `pos`.
pub open spec fn pos_text(g: &Gene, pos: int) -> Seq<u8> {
    let mid = match locate(g.m_exons@, g.m_reversed, g.chr_pos(pos), 0) {
        Some((true, n)) => seq![101u8, 120, 111, 110, 58] + decimal(n) + seq![124u8],
        Some((false, n)) => seq![105u8, 110, 116, 114, 111, 110, 58] + decimal(n) + seq![124u8],
        None => Seq::empty(),
    };
    let strand: u8 = if pos >= 0 {
        43
    } else {
        45
    };
    g.m_name@ + seq![58u8] + mid + seq![strand] + g.m_chr@ + seq![58u8] + decimal(g.chr_pos(pos))
}

impl Default for Gene {
    fn default() -> (r: Gene)
        ensures
            r.wf(),
            r.m_start == 0,
            r.m_end == 0,
            r.m_exons@.len() == 0,
            r.m_name@.len() == 0,
            r.m_chr@.len() == 0,
    {
        Gene { m_name: Vec::new(), m_chr: Vec::new(), m_start: 0, m_end: 0, m_exons: Vec::new(), m_reversed: false }
    }
}

/// One gene region of the panel that fusions are searched in.
#[derive(Clone, Debug)]
pub struct Fusion {
    pub m_gene: Gene,
}

impl Fusion {
    pub fn new(gene: Gene) -> (r: Fusion)
        ensures
            r.m_gene == gene,
    {
        Fusion { m_gene: gene }
    }

    pub fn is_reversed(&self) -> (r: bool)
        ensures
            r == self.m_gene.m_reversed,
    {
        self.m_gene.is_reversed()
    }

    pub fn pos2str(&self, pos: i32) -> (r: Vec<u8>)
        requires
            self.m_gene.wf(),
        ensures
            r@ == pos_text(&self.m_gene, pos as int),
    {
        self.m_gene.pos2str(pos)
    }
}

} // verus!
