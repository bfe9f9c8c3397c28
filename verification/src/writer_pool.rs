//! The pool of chromosome shards: one shard per chromosome that was seen,
//! made when its first record arrives and never made again.

use vstd::prelude::*;
use crate::names::{bam_shard_name, make_bam_shard_name};
use crate::text::str_eq;

verus! {

/// The shard of one chromosome: its file name and the positions of the
/// records that were written to it, in the order in which they arrived.
#[derive(Debug, Clone, PartialEq, Eq)]
pub struct ChromShard {
    pub chrom: String,
    pub file_name: String,
    pub records: Vec<usize>,
}

/// The chromosome names of a list of shards.
pub open spec fn shard_chroms(shards: Seq<ChromShard>) -> Seq<Seq<char>> {
    Seq::new(shards.len(), |k: int| shards[k].chrom@)
}

/// The shards that exist so far in one pass, for an input whose file name has
/// the stem `stem`.
#[derive(Debug, Clone, PartialEq, Eq)]
pub struct WriterPool {
    pub stem: String,
    pub shards: Vec<ChromShard>,
}

impl WriterPool {
    /// The chromosomes that have a shard, in the order in which the shards
    /// were made.
    pub open spec fn chroms(&self) -> Seq<Seq<char>> {
        shard_chroms(self.shards@)
    }

    /// No chromosome has two shards, and every shard is named after its
    /// chromosome and the stem.
    pub open spec fn wf(&self) -> bool {
        &&& self.chroms().no_duplicates()
        &&& forall|k: int|
            0 <= k < self.shards@.len() ==> (#[trigger] self.shards@[k]).file_name@
                == bam_shard_name(self.shards@[k].chrom@, self.stem@)
    }

    /// A pool without shards.
    pub fn new(stem: &str) -> (pool: WriterPool)
        ensures
            pool.wf(),
            pool.stem@ == stem@,
            pool.shards@.len() == 0,
    {
        WriterPool { stem: String::from_str(stem), shards: Vec::new() }
    }

    /// Looks for the shard of `chrom`: the first one of that chromosome.
    pub fn find(&self, chrom: &str) -> (found: Option<usize>)
        ensures
            match found {
                Some(k) => {
                    &&& k < self.shards@.len()
                    &&& self.chroms()[k as int] == chrom@
                    &&& forall|j: int| 0 <= j < k ==> self.chroms()[j] != chrom@
                },
                None => !self.chroms().contains(chrom@),
            },
    {
        let mut k: usize = 0;
        while k < self.shards.len()
            invariant
                k <= self.shards@.len(),
                forall|j: int| 0 <= j < k ==> self.chroms()[j] != chrom@,
            decreases self.shards@.len() - k,
        {
            if str_eq(self.shards[k].chrom.as_str(), chrom) {
                return Some(k);
            }
            k += 1;
        }
        None
    }

    /// Returns the shard of `chrom`, and makes it first if there is none yet.
    /// The second result tells whether the shard was made by this call.
    pub fn get_or_create(&mut self, chrom: &str) -> (handle: (usize, bool))
        requires
            old(self).wf(),
        ensures
            final(self).wf(),
            final(self).stem == old(self).stem,
            handle.0 < final(self).shards@.len(),
            final(self).chroms()[handle.0 as int] == chrom@,
            handle.1 == !old(self).chroms().contains(chrom@),
            !handle.1 ==> final(self).shards@ == old(self).shards@,
            handle.1 ==> {
                &&& handle.0 == old(self).shards@.len()
                &&& final(self).shards@.drop_last() == old(self).shards@
                &&& final(self).shards@.last().records@.len() == 0
            },
    {
        match self.find(chrom) {
            Some(k) => (k, false),
            None => {
                let k = self.shards.len();
                let shard = ChromShard {
                    chrom: String::from_str(chrom),
                    file_name: make_bam_shard_name(chrom, self.stem.as_str()),
                    records: Vec::new(),
                };
                self.shards.push(shard);
                proof {
                    assert(self.shards@.drop_last() =~= old(self).shards@);
                    assert(self.chroms() =~= old(self).chroms().push(chrom@));
                }
                (k, true)
            },
        }
    }

    /// Writes the record at `position` to the shard `handle`.
    pub fn append(&mut self, handle: usize, position: usize)
        requires
            old(self).wf(),
            handle < old(self).shards@.len(),
        ensures
            final(self).wf(),
            final(self).stem == old(self).stem,
            final(self).chroms() == old(self).chroms(),
            final(self).shards@.len() == old(self).shards@.len(),
            forall|k: int|
                0 <= k < old(self).shards@.len() && k != handle ==> final(self).shards@[k] == old(
                    self,
                ).shards@[k],
            final(self).shards@[handle as int].chrom == old(self).shards@[handle as int].chrom,
            final(self).shards@[handle as int].file_name == old(self).shards@[handle
                as int].file_name,
            final(self).shards@[handle as int].records@ == old(self).shards@[handle
                as int].records@.push(position),
    {
        self.shards[handle].records.push(position);
        proof {
            assert(self.chroms() =~= old(self).chroms());
        }
    }
}

} // verus!
