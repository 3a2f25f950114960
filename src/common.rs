//! Genomic coordinates and the scan's configuration.
use vstd::prelude::*;

verus! {

/// How many reads one pack of the scan pipeline holds.
pub const PACK_SIZE: usize = 1000;

/// How many packs may wait in memory before the producer holds back.
pub const PACK_IN_MEM_LIMIT: usize = 100;

/// Contig marker of a k-mer seen at several places; its position indexes the
/// duplicate table.
pub const DUPE_NORMAL_LEVEL: i16 = -1;

/// Contig marker of a k-mer seen at too many places to be of use.
pub const DUPE_HIGH_LEVEL: i16 = -2;

/// A position on a gene region. A non-negative position counts on the
/// forward strand of the region's sequence, a negative one on its reverse
/// complement.
#[derive(Clone, Copy, Debug, PartialEq, Eq, Structural)]
pub struct GenePos {
    pub contig: i16,
    pub position: i32,
}

impl Default for GenePos {
    fn default() -> (r: GenePos)
        ensures
            r.contig == 0 && r.position == 0,
    {
        GenePos { contig: 0, position: 0 }
    }
}

/// Tunable parameters of a scan, set once before it starts.
#[derive(Clone, Copy, Debug)]
pub struct GlobalSettings {
    pub marked_only_for_vcf: bool,
    /// Least number of distinct supporting reads of a fusion call.
    pub unique_requirement: usize,
    /// Same-contig matches closer than this are small indels, not fusions.
    pub deletion_threshold: usize,
    pub output_deletions: bool,
    pub output_untranslated: bool,
    /// A duplicated k-mer seen this many times is discarded.
    pub skip_key_dup_threshold: usize,
    /// Least support, in bases, of the best placement of a read.
    pub major_gene_key_requirement: i32,
    /// Least support, in bases, of the second placement of a read.
    pub minor_gene_key_requirement: i32,
    /// Most bases of a read that may match neither placement.
    pub mismatch_threshold: i32,
}

impl Default for GlobalSettings {
    fn default() -> (r: GlobalSettings)
        ensures
            r.marked_only_for_vcf == false,
            r.unique_requirement == 2,
            r.deletion_threshold == 50,
            r.output_deletions == false,
            r.output_untranslated == false,
            r.skip_key_dup_threshold == 5,
            r.major_gene_key_requirement == 40,
            r.minor_gene_key_requirement == 20,
            r.mismatch_threshold == 10,
    {
        GlobalSettings {
            marked_only_for_vcf: false,
            unique_requirement: 2,
            deletion_threshold: 50,
            output_deletions: false,
            output_untranslated: false,
            skip_key_dup_threshold: 5,
            major_gene_key_requirement: 40,
            minor_gene_key_requirement: 20,
            mismatch_threshold: 10,
        }
    }
}

impl GlobalSettings {
    pub fn set_marked_only_for_vcf(&mut self, flag: bool)
        ensures
            *final(self) == (GlobalSettings { marked_only_for_vcf: flag, ..*old(self) }),
    {
        self.marked_only_for_vcf = flag;
    }

    pub fn set_unique_requirement(&mut self, val: usize)
        ensures
            *final(self) == (GlobalSettings { unique_requirement: val, ..*old(self) }),
    {
        self.unique_requirement = val;
    }

    pub fn set_deletion_threshold(&mut self, val: usize)
        ensures
            *final(self) == (GlobalSettings { deletion_threshold: val, ..*old(self) }),
    {
        self.deletion_threshold = val;
    }

    pub fn set_output_deletions(&mut self, flag: bool)
        ensures
            *final(self) == (GlobalSettings { output_deletions: flag, ..*old(self) }),
    {
        self.output_deletions = flag;
    }

    pub fn set_output_untranslated(&mut self, flag: bool)
        ensures
            *final(self) == (GlobalSettings { output_untranslated: flag, ..*old(self) }),
    {
        self.output_untranslated = flag;
    }
}

} // verus!
