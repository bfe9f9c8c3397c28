//! The names of shard files.
//!
//! A FASTQ shard is named after the input file and the index of its bin,
//! `<file name>-<bin>`; a chromosome shard after the chromosome and the stem
//! of the input's file name, `<chromosome>_<stem>.bam`.

use vstd::prelude::*;
use crate::decimal::{append_decimal, decimal, lemma_number_of_decimal};

verus! {

/// The name of the shard that holds bin `bin` of the file `filename`.
pub open spec fn fastq_shard_name(filename: Seq<char>, bin: nat) -> Seq<char> {
    filename + seq!['-'] + decimal(bin)
}

/// The name of the shard that holds the reads on `chrom`, for an input whose
/// file name has the stem `stem`.
pub open spec fn bam_shard_name(chrom: Seq<char>, stem: Seq<char>) -> Seq<char> {
    chrom + seq!['_'] + stem + seq!['.', 'b', 'a', 'm']
}

/// Builds the name of the shard for bin `bin` of the file `filename`.
pub fn make_fastq_shard_name(filename: &str, bin: u32) -> (name: String)
    ensures
        name@ == fastq_shard_name(filename@, bin as nat),
{
    let mut name = String::from_str(filename);
    proof {
        reveal_strlit("-");
    }
    name.append("-");
    append_decimal(&mut name, bin as u64);
    assert(name@ =~= fastq_shard_name(filename@, bin as nat));
    name
}

/// Builds the name of the shard for the chromosome `chrom` of an input whose
/// file name has the stem `stem`.
pub fn make_bam_shard_name(chrom: &str, stem: &str) -> (name: String)
    ensures
        name@ == bam_shard_name(chrom@, stem@),
{
    let mut name = String::from_str(chrom);
    proof {
        reveal_strlit("_");
        reveal_strlit(".bam");
    }
    name.append("_");
    name.append(stem);
    name.append(".bam");
    assert(name@ =~= bam_shard_name(chrom@, stem@));
    name
}

/// Two bins of one file have shards of different names.
pub proof fn lemma_fastq_shard_names_differ(filename: Seq<char>, bin: nat, other: nat)
    requires
        bin != other,
    ensures
        fastq_shard_name(filename, bin) != fastq_shard_name(filename, other),
{
    let head = filename + seq!['-'];
    let a = fastq_shard_name(filename, bin);
    let b = fastq_shard_name(filename, other);
    if a == b {
        assert(a.skip(head.len() as int) =~= decimal(bin));
        assert(b.skip(head.len() as int) =~= decimal(other));
        lemma_number_of_decimal(bin);
        lemma_number_of_decimal(other);
    }
}

/// Two chromosomes have shards of different names.
pub proof fn lemma_bam_shard_names_differ(chrom: Seq<char>, other: Seq<char>, stem: Seq<char>)
    requires
        chrom != other,
    ensures
        bam_shard_name(chrom, stem) != bam_shard_name(other, stem),
{
    let a = bam_shard_name(chrom, stem);
    let b = bam_shard_name(other, stem);
    if a == b {
        assert(a.len() == chrom.len() + stem.len() + 5);
        assert(b.len() == other.len() + stem.len() + 5);
        assert(a.take(chrom.len() as int) =~= chrom);
        assert(b.take(other.len() as int) =~= other);
    }
}

} // verus!
