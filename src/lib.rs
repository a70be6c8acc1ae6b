//! An index of pairwise alignments that projects ranges on a target sequence
//! onto the sequences aligned to it, directly and along chains of alignments.

pub mod cigar;
pub mod codec;
pub mod impg;
pub mod index;
pub mod laws;
pub mod paf;
pub mod project;
pub mod seqidx;
