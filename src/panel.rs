//! The gene panel text format: `#` lines are comments, a line
//! `>name,chr:start-end` starts a gene, and lines `id,start,end` add exons
//! to the current gene. Malformed lines are skipped; a number that does not
//! parse is an error.
use vstd::prelude::*;
use crate::gene::{Exon, Fusion, Gene};

verus! {

pub open spec fn is_space(b: u8) -> bool {
    b == 32 || (9 <= b <= 13)
}

pub open spec fn trim_start(s: Seq<u8>) -> Seq<u8>
    decreases s.len(),
{
    if s.len() > 0 && is_space(s[0]) {
        trim_start(s.drop_first())
    } else {
        s
    }
}

pub open spec fn trim_end(s: Seq<u8>) -> Seq<u8>
    decreases s.len(),
{
    if s.len() > 0 && is_space(s.last()) {
        trim_end(s.drop_last())
    } else {
        s
    }
}

/// `s` without leading and trailing ASCII white space.
pub open spec fn trim(s: Seq<u8>) -> Seq<u8> {
    trim_end(trim_start(s))
}

/// The fields of `s` between separators `sep`; there is always at least one.
pub open spec fn split(s: Seq<u8>, sep: u8) -> Seq<Seq<u8>>
    decreases s.len(),
{
    if s.len() == 0 {
        seq![Seq::empty()]
    } else if s.last() == sep {
        split(s.drop_last(), sep).push(Seq::empty())
    } else {
        let p = split(s.drop_last(), sep);
        p.update(p.len() - 1, p.last().push(s.last()))
    }
}

pub open spec fn is_digit(b: u8) -> bool {
    48 <= b <= 57
}

pub open spec fn digits_value(d: Seq<u8>) -> int
    decreases d.len(),
{
    if d.len() == 0 {
        0
    } else {
        digits_value(d.drop_last()) * 10 + (d.last() - 48)
    }
}

/// A 32-bit integer in decimal, with an optional sign, as Rust's `i32`
/// parser reads it.
pub open spec fn all_digits(d: Seq<u8>) -> bool {
    forall|i: int| 0 <= i < d.len() ==> is_digit(#[trigger] d[i])
}

/// The digits of a number, after its sign if it has one.
pub open spec fn unsigned_part(s: Seq<u8>) -> Seq<u8> {
    if s.len() > 0 && (s[0] == 45 || s[0] == 43) {
        s.drop_first()
    } else {
        s
    }
}

pub open spec fn parse_int(s: Seq<u8>) -> Option<int> {
    let neg = s.len() > 0 && s[0] == 45;
    let d = unsigned_part(s);
    if d.len() == 0 || !all_digits(d) {
        None
    } else {
        let v = if neg {
            -digits_value(d)
        } else {
            digits_value(d)
        };
        if i32::MIN <= v <= i32::MAX {
            Some(v)
        } else {
            None
        }
    }
}

/// A gene as the panel describes it: name, chromosome, start, end, exons.
pub type GeneDesc = (Seq<u8>, Seq<u8>, int, int, Seq<Exon>);

pub open spec fn invalid_gene() -> GeneDesc {
    (Seq::empty(), Seq::empty(), 0, 0, Seq::empty())
}

/// The gene of a `>` line: `None` when a coordinate is not a number, the
/// invalid gene when the line lacks a part.
pub open spec fn parse_gene_line(line: Seq<u8>) -> Option<GeneDesc> {
    let fields = split(line, 44);
    if fields.len() < 2 {
        Some(invalid_gene())
    } else {
        let name = trim(drop_first_or_empty(fields[0]));
        let chr_pos = split(fields[1], 58);
        if chr_pos.len() < 2 {
            Some(invalid_gene())
        } else {
            let range = split(chr_pos[1], 45);
            if range.len() < 2 {
                Some(invalid_gene())
            } else {
                match (parse_int(trim(range[0])), parse_int(trim(range[1]))) {
                    (Some(a), Some(b)) => Some((name, trim(chr_pos[0]), a, b, Seq::empty())),
                    _ => None,
                }
            }
        }
    }
}

/// What has been read of a panel: the finished genes, the current one, and
/// whether a number failed to parse.
pub type PanelState = (Seq<GeneDesc>, GeneDesc, bool);

pub open spec fn gene_valid(g: GeneDesc) -> bool {
    g.2 != 0 && g.3 != 0
}

/// One line of the panel.
pub open spec fn panel_step(st: PanelState, raw: Seq<u8>) -> PanelState {
    let line = trim(raw);
    let fields = split(line, 44);
    if st.2 || fields.len() < 2 || (fields[0].len() > 0 && fields[0][0] == 35) {
        st
    } else if fields[0].len() > 0 && fields[0][0] == 62 {
        let done = if gene_valid(st.1) {
            st.0.push(st.1)
        } else {
            st.0
        };
        match parse_gene_line(line) {
            Some(g) => (done, g, false),
            None => (done, st.1, true),
        }
    } else if fields.len() < 3 {
        st
    } else {
        match (parse_int(trim(fields[0])), parse_int(trim(fields[1])), parse_int(trim(fields[2]))) {
            (Some(id), Some(a), Some(b)) => if id == i32::MIN {
                (st.0, st.1, true)
            } else {
                let g = st.1;
                (st.0, (g.0, g.1, g.2, g.3, g.4.push(Exon { id: id as i32, start: a as i32, end: b as i32 })), false)
            },
            _ => (st.0, st.1, true),
        }
    }
}

pub open spec fn panel_fold(lines: Seq<Seq<u8>>) -> PanelState
    decreases lines.len(),
{
    if lines.len() == 0 {
        (Seq::empty(), invalid_gene(), false)
    } else {
        panel_step(panel_fold(lines.drop_last()), lines.last())
    }
}

/// The genes of a panel text, or `None` when a number fails to parse.
pub open spec fn panel_genes(text: Seq<u8>) -> Option<Seq<GeneDesc>> {
    let st = panel_fold(split(text, 10));
    if st.2 {
        None
    } else if gene_valid(st.1) {
        Some(st.0.push(st.1))
    } else {
        Some(st.0)
    }
}

pub open spec fn desc_of(g: &Gene) -> GeneDesc {
    (g.m_name@, g.m_chr@, g.m_start as int, g.m_end as int, g.m_exons@)
}

pub open spec fn drop_first_or_empty(s: Seq<u8>) -> Seq<u8> {
    if s.len() == 0 {
        s
    } else {
        s.drop_first()
    }
}

pub open spec fn fields_view(f: Seq<Vec<u8>>) -> Seq<Seq<u8>> {
    f.map_values(|v: Vec<u8>| v@)
}

/// A number of the panel that does not parse.
#[derive(Debug, Clone, Copy, PartialEq, Eq, Structural)]
pub struct PanelError {
    /// Index of the offending line.
    pub line: usize,
}

pub fn is_space_byte(b: u8) -> (r: bool)
    ensures
        r == is_space(b),
{
    b == 32 || (9 <= b && b <= 13)
}

/// `s` without leading and trailing white space.
pub fn trim_bytes(s: &[u8]) -> (r: Vec<u8>)
    ensures
        r@ == trim(s@),
{
    let n = s.len();
    let mut a: usize = 0;
    assert(s@.subrange(0, n as int) =~= s@);
    while a < n && is_space_byte(s[a])
        invariant
            a <= n,
            n == s@.len(),
            trim_start(s@) == trim_start(s@.subrange(a as int, n as int)),
        decreases n - a,
    {
        assert(s@.subrange(a as int, n as int).drop_first() =~= s@.subrange(a + 1, n as int));
        a = a + 1;
    }
    let mut b: usize = n;
    assert(trim_start(s@) == s@.subrange(a as int, n as int));
    while b > a && is_space_byte(s[b - 1])
        invariant
            a <= b <= n,
            n == s@.len(),
            trim(s@) == trim_end(s@.subrange(a as int, b as int)),
        decreases b,
    {
        assert(s@.subrange(a as int, b as int).drop_last() =~= s@.subrange(a as int, b - 1));
        b = b - 1;
    }
    let mut out: Vec<u8> = Vec::new();
    crate::text::push_all(&mut out, &s[a..b]);
    out
}

/// The fields of `s` between separators `sep`.
pub fn split_fields(s: &[u8], sep: u8) -> (r: Vec<Vec<u8>>)
    ensures
        fields_view(r@) == split(s@, sep),
{
    let n = s.len();
    let mut fields: Vec<Vec<u8>> = Vec::new();
    let mut cur: Vec<u8> = Vec::new();
    let mut i: usize = 0;
    assert(s@.subrange(0, 0) =~= Seq::<u8>::empty());
    assert(fields_view(fields@).push(cur@) =~= seq![Seq::<u8>::empty()]);
    while i < n
        invariant
            i <= n,
            n == s@.len(),
            fields_view(fields@).push(cur@) == split(s@.subrange(0, i as int), sep),
        decreases n - i,
    {
        let ghost pre = s@.subrange(0, i + 1);
        assert(pre.drop_last() =~= s@.subrange(0, i as int));
        assert(pre.last() == s@[i as int]);
        let ghost fv0 = fields_view(fields@);
        let ghost c0 = cur@;
        if s[i] == sep {
            let mut done: Vec<u8> = Vec::new();
            std::mem::swap(&mut cur, &mut done);
            fields.push(done);
            assert(fields_view(fields@) =~= fv0.push(c0));
            assert(fields_view(fields@).push(cur@) =~= fv0.push(c0).push(Seq::empty()));
        } else {
            cur.push(s[i]);
            assert(fields_view(fields@).push(cur@) =~= fv0.push(c0).update(fv0.len() as int, c0.push(s@[i as int])));
        }
        i = i + 1;
    }
    let ghost fv0 = fields_view(fields@);
    let ghost c0 = cur@;
    fields.push(cur);
    assert(fields_view(fields@) =~= fv0.push(c0));
    assert(s@.subrange(0, n as int) =~= s@);
    fields
}

pub proof fn lemma_digits_nonneg(d: Seq<u8>)
    requires
        forall|i: int| 0 <= i < d.len() ==> is_digit(#[trigger] d[i]),
    ensures
        digits_value(d) >= 0,
    decreases d.len(),
{
    if d.len() > 0 {
        assert forall|i: int| 0 <= i < d.drop_last().len() implies is_digit(#[trigger] d.drop_last()[i]) by {
            assert(d.drop_last()[i] == d[i]);
        }
        lemma_digits_nonneg(d.drop_last());
        assert(is_digit(d[d.len() - 1]));
    }
}

/// A 32-bit integer in decimal, as `parse_int` reads it.
pub fn parse_i32(s: &[u8]) -> (r: Option<i32>)
    ensures
        match parse_int(s@) {
            Some(v) => r == Some(v as i32),
            None => r is None,
        },
{
    let n = s.len();
    let neg = n > 0 && s[0] == 45;
    let start: usize = if n > 0 && (s[0] == 45 || s[0] == 43) {
        1
    } else {
        0
    };
    let ghost d = unsigned_part(s@);
    assert(d =~= s@.subrange(start as int, n as int));
    if start == n {
        return None;
    }
    let mut value: i64 = 0;
    let mut big = false;
    let mut i: usize = start;
    while i < n
        invariant
            start <= i <= n,
            n == s@.len(),
            d == s@.subrange(start as int, n as int),
            d == unsigned_part(s@),
            forall|j: int| start <= j < i ==> is_digit(#[trigger] s@[j]),
            !big ==> value == digits_value(s@.subrange(start as int, i as int)) && 0 <= value <= 0x8000_0000,
            big ==> digits_value(s@.subrange(start as int, i as int)) > 0x8000_0000,
        decreases n - i,
    {
        let c = s[i];
        let ghost p = s@.subrange(start as int, i + 1);
        assert(p.drop_last() =~= s@.subrange(start as int, i as int));
        assert(p.last() == c);
        if !(48 <= c && c <= 57) {
            assert(d[i - start] == c);
            assert(!is_digit(d[i - start]));
            assert(!all_digits(d));
            return None;
        }
        proof {
            assert forall|j: int| 0 <= j < p.drop_last().len() implies is_digit(#[trigger] p.drop_last()[j]) by {
                assert(p.drop_last()[j] == s@[start + j]);
            }
            lemma_digits_nonneg(p.drop_last());
        }
        if !big {
            let nv = value * 10 + (c - 48) as i64;
            if nv > 0x8000_0000 {
                big = true;
            } else {
                value = nv;
            }
        }
        i = i + 1;
    }
    assert(s@.subrange(start as int, n as int) =~= d);
    assert forall|j: int| 0 <= j < d.len() implies is_digit(#[trigger] d[j]) by {
        assert(d[j] == s@[start + j]);
    }
    assert(all_digits(d));
    if big {
        return None;
    }
    if neg {
        Some((-value) as i32)
    } else if value > 0x7FFF_FFFF {
        None
    } else {
        Some(value as i32)
    }
}

pub open spec fn fusion_descs(v: Seq<Fusion>) -> Seq<GeneDesc> {
    v.map_values(|f: Fusion| desc_of(&f.m_gene))
}

impl Gene {
    /// Reads a gene line `>name,chr:start-end`; a line that lacks a part
    /// gives the invalid default gene, a coordinate that is not a number an
    /// error.
    pub fn parse(line: &[u8]) -> (r: Result<Gene, PanelError>)
        ensures
            match parse_gene_line(line@) {
                None => r is Err,
                Some(g) => r matches Ok(gene) && desc_of(&gene) == g && gene.wf(),
            },
    {
        let fields = split_fields(line, 44);
        let ghost fs = split(line@, 44);
        if fields.len() < 2 {
            let g = Gene::default();
            assert(g.m_name@ =~= Seq::<u8>::empty() && g.m_chr@ =~= Seq::<u8>::empty() && g.m_exons@ =~= Seq::<Exon>::empty());
            return Ok(g);
        }
        assert(fields@[0]@ == fs[0] && fields@[1]@ == fs[1]);
        let f0 = fields[0].as_slice();
        let name_raw: &[u8] = if f0.len() == 0 {
            f0
        } else {
            &f0[1..f0.len()]
        };
        assert(name_raw@ =~= drop_first_or_empty(fs[0]));
        let name = trim_bytes(name_raw);
        let chr_pos = split_fields(fields[1].as_slice(), 58);
        let ghost cp = split(fs[1], 58);
        if chr_pos.len() < 2 {
            let g = Gene::default();
            assert(g.m_name@ =~= Seq::<u8>::empty() && g.m_chr@ =~= Seq::<u8>::empty() && g.m_exons@ =~= Seq::<Exon>::empty());
            return Ok(g);
        }
        assert(chr_pos@[0]@ == cp[0] && chr_pos@[1]@ == cp[1]);
        let range = split_fields(chr_pos[1].as_slice(), 45);
        let ghost rg = split(cp[1], 45);
        if range.len() < 2 {
            let g = Gene::default();
            assert(g.m_name@ =~= Seq::<u8>::empty() && g.m_chr@ =~= Seq::<u8>::empty() && g.m_exons@ =~= Seq::<Exon>::empty());
            return Ok(g);
        }
        assert(range@[0]@ == rg[0] && range@[1]@ == rg[1]);
        let t0 = trim_bytes(range[0].as_slice());
        let t1 = trim_bytes(range[1].as_slice());
        let chr = trim_bytes(chr_pos[0].as_slice());
        match (parse_i32(t0.as_slice()), parse_i32(t1.as_slice())) {
            (Some(a), Some(b)) => {
                let g = Gene::new(name, chr, a, b);
                assert(desc_of(&g) =~= (trim(drop_first_or_empty(fs[0])), trim(cp[0]), a as int, b as int, Seq::<Exon>::empty()));
                Ok(g)
            },
            _ => Err(PanelError { line: 0 }),
        }
    }
}

impl Fusion {
    /// Reads a gene panel. Each finished valid gene becomes one region, in
    /// order; the first number that does not parse makes the whole panel an
    /// error, which names its line.
    pub fn parse_csv(text: &[u8]) -> (r: Result<Vec<Fusion>, PanelError>)
        ensures
            match panel_genes(text@) {
                None => r is Err,
                Some(gs) => r matches Ok(v) && fusion_descs(v@) == gs && forall|i: int|
                    0 <= i < v@.len() ==> (#[trigger] v@[i]).m_gene.wf(),
            },
    {
        let lines = split_fields(text, 10);
        let ghost ls = split(text@, 10);
        let mut done: Vec<Fusion> = Vec::new();
        let mut cur = Gene::default();
        let mut failed: Option<usize> = None;
        let n = lines.len();
        let mut i: usize = 0;
        assert(ls.subrange(0, 0) =~= Seq::<Seq<u8>>::empty());
        assert(fusion_descs(done@) =~= Seq::<GeneDesc>::empty());
        assert(cur.m_name@ =~= Seq::<u8>::empty() && cur.m_chr@ =~= Seq::<u8>::empty() && cur.m_exons@ =~= Seq::<Exon>::empty());
        while i < n
            invariant
                n == lines@.len(),
                fields_view(lines@) == ls,
                i <= n,
                cur.wf(),
                forall|k: int| 0 <= k < done@.len() ==> (#[trigger] done@[k]).m_gene.wf(),
                failed.is_some() == panel_fold(ls.subrange(0, i as int)).2,
                failed.is_none() ==> fusion_descs(done@) == panel_fold(ls.subrange(0, i as int)).0
                    && desc_of(&cur) == panel_fold(ls.subrange(0, i as int)).1,
            decreases n - i,
        {
            let ghost pre = ls.subrange(0, i + 1);
            assert(pre.drop_last() =~= ls.subrange(0, i as int));
            assert(pre.last() == lines@[i as int]@);
            let ghost st = panel_fold(ls.subrange(0, i as int));
            if failed.is_some() {
                i = i + 1;
                continue;
            }
            let line = trim_bytes(lines[i].as_slice());
            let fields = split_fields(line.as_slice(), 44);
            let ghost fs = split(line@, 44);
            if fields.len() < 2 {
                i = i + 1;
                continue;
            }
            assert(fields@[0]@ == fs[0]);
            if fields[0].len() > 0 && fields[0][0] == 35 {
                i = i + 1;
                continue;
            }
            if fields[0].len() > 0 && fields[0][0] == 62 {
                let ghost done0 = fusion_descs(done@);
                if cur.valid() {
                    let mut g = Gene::default();
                    std::mem::swap(&mut g, &mut cur);
                    done.push(Fusion::new(g));
                    assert(fusion_descs(done@) =~= done0.push(st.1));
                }
                match Gene::parse(line.as_slice()) {
                    Ok(g) => {
                        cur = g;
                    },
                    Err(_) => {
                        failed = Some(i);
                    },
                }
                i = i + 1;
                continue;
            }
            if fields.len() < 3 {
                i = i + 1;
                continue;
            }
            assert(fields@[1]@ == fs[1] && fields@[2]@ == fs[2]);
            let t0 = trim_bytes(fields[0].as_slice());
            let t1 = trim_bytes(fields[1].as_slice());
            let t2 = trim_bytes(fields[2].as_slice());
            match (parse_i32(t0.as_slice()), parse_i32(t1.as_slice()), parse_i32(t2.as_slice())) {
                (Some(id), Some(a), Some(b)) => {
                    if id == i32::MIN {
                        failed = Some(i);
                    } else {
                        cur.add_exon(id, a, b);
                        assert(desc_of(&cur) =~= (st.1.0, st.1.1, st.1.2, st.1.3, st.1.4.push(Exon { id, start: a, end: b })));
                    }
                },
                _ => {
                    failed = Some(i);
                },
            }
            i = i + 1;
        }
        assert(ls.subrange(0, n as int) =~= ls);
        match failed {
            Some(k) => Err(PanelError { line: k }),
            None => {
                let ghost done0 = fusion_descs(done@);
                if cur.valid() {
                    done.push(Fusion::new(cur));
                    assert(fusion_descs(done@) =~= done0.push(panel_fold(ls).1));
                }
                Ok(done)
            },
        }
    }
}

} // verus!
