//! Alignment-free detection of gene fusions in short sequencing reads.
//!
//! The library holds the verified matching engine:
//! - `sequence`, `text`: nucleotide strings, reverse complement, byte text;
//! - `edit_distance`: exact Levenshtein distance;
//! - `kmer`, `indexer`, `mask`: the 16-base k-mer region index with its
//!   duplicate tiers and bloom filter, and the mapping of one read on it;
//! - `read`, `overlap`: reads, merging of read pairs, overlap of mates;
//! - `read_match`, `fusion_result`, `fusion_mapper`: matches across a
//!   breakpoint, their filters, their clustering into fusion calls;
//! - `matcher`: the whole-reference check for reads that align normally;
//! - `gene`, `panel`: gene regions and the gene panel format;
//! - `scan`: what the scan pipeline decides for each pack of reads;
//! - `common`, `int_hasher`: positions, configuration, hasher builders.

pub mod common;
pub mod edit_distance;
pub mod fusion_mapper;
pub mod fusion_result;
pub mod gene;
pub mod indexer;
pub mod int_hasher;
pub mod kmer;
pub mod mask;
pub mod matcher;
pub mod overlap;
pub mod panel;
pub mod read;
pub mod read_match;
pub mod scan;
pub mod sequence;
pub mod text;
