use vstd::prelude::*;
use crate::cigar::Strand;

verus! {

/// One pairwise alignment as read from a PAF line.
#[derive(Clone, Debug)]
pub struct PafRecord {
    pub query_name: String,
    pub query_length: usize,
    pub query_start: usize,
    pub query_end: usize,
    pub target_name: String,
    pub target_length: usize,
    pub target_start: usize,
    pub target_end: usize,
    pub cigar: Option<String>,
    pub strand: Strand,
}

} // verus!
