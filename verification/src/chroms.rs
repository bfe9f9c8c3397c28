//! The chromosomes whose reads are kept.

use vstd::prelude::*;
use crate::text::str_eq;

verus! {

/// The names of the 22 autosomes. Reads on any other reference sequence are
/// dropped.
pub const KEEP_CHROMS: [&'static str; 22] = [
    "chr1", "chr2", "chr3", "chr4", "chr5", "chr6", "chr7", "chr8", "chr9", "chr10", "chr11",
    "chr12", "chr13", "chr14", "chr15", "chr16", "chr17", "chr18", "chr19", "chr20", "chr21",
    "chr22",
];

/// Whether `name` is the name of a chromosome whose reads are kept.
pub open spec fn is_kept(name: Seq<char>) -> bool {
    exists|j: int| 0 <= j < KEEP_CHROMS@.len() && (#[trigger] KEEP_CHROMS@[j])@ == name
}

/// Tells whether reads on the reference sequence `name` are kept.
pub fn keeps(name: &str) -> (kept: bool)
    ensures
        kept == is_kept(name@),
{
    let mut j: usize = 0;
    while j < 22
        invariant
            j <= 22,
            KEEP_CHROMS@.len() == 22,
            forall|k: int| 0 <= k < j ==> (#[trigger] KEEP_CHROMS@[k])@ != name@,
        decreases 22 - j,
    {
        if str_eq(name, KEEP_CHROMS[j]) {
            return true;
        }
        j += 1;
    }
    false
}

} // verus!
