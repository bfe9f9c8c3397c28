//! Splitting FASTQ files into a fixed number of shards by a hash of the read
//! identifier.
//!
//! The bucket of a read depends on its identifier and the number of bins
//! alone. The two mates of a pair carry the same identifier, so two files of
//! mates that are split on their own, with the same number of bins, put the
//! mates of every pair into shards of the same index.

use vstd::prelude::*;
use vstd::arithmetic::power2::is_pow2;
use crate::bucket::{
    advise, bucket, bucket_of_hash, hashable, is_hashable, record_buckets, Advisory,
};
use crate::error::SplitError;
use crate::manifest::Manifest;
use crate::murmur::hash32;
use crate::names::{fastq_shard_name, lemma_fastq_shard_names_differ, make_fastq_shard_name};
use crate::positions::{
    lemma_count_below_all, lemma_positions_increasing, lemma_positions_member, lemma_positions_push,
    lemma_total_len_is_count, positions_of, total_len,
};
use crate::text::views;

verus! {

/// One shard of a FASTQ file: its file name and the positions of the records
/// that were written to it, in the order in which they arrived.
#[derive(Debug, Clone, PartialEq, Eq)]
pub struct Shard {
    pub file_name: String,
    pub records: Vec<usize>,
}

/// The shards of one FASTQ file.
#[derive(Debug, Clone, PartialEq, Eq)]
pub struct FileShards {
    pub filename: String,
    pub shards: Vec<Shard>,
}

/// The file names of a list of shards.
pub open spec fn shard_file_names(shards: Seq<Shard>) -> Seq<Seq<char>> {
    Seq::new(shards.len(), |b: int| shards[b].file_name@)
}

/// The names of the `bins` shards of the file `filename`.
pub open spec fn shard_names(filename: Seq<char>, bins: u32) -> Seq<Seq<char>> {
    Seq::new(bins as nat, |b: int| fastq_shard_name(filename, b as nat))
}

/// What the split of one file leaves behind: `bins` shards, named after the
/// file and their index, where shard `b` holds the positions of the records
/// whose bucket is `b`, in input order.
pub open spec fn sharded(
    shards: Seq<Shard>,
    filename: Seq<char>,
    buckets: Seq<usize>,
    bins: u32,
) -> bool {
    &&& shards.len() == bins
    &&& shard_file_names(shards) == shard_names(filename, bins)
    &&& forall|b: int|
        0 <= b < bins ==> (#[trigger] shards[b]).records@ == positions_of(buckets, b as usize)
}

/// Splits the records of FASTQ files over a fixed number of bins.
#[derive(Debug, Clone, Copy, PartialEq, Eq)]
pub struct FqSplitter {
    pub bins: u32,
}

impl FqSplitter {
    /// A splitter into `bins` bins.
    pub fn new(bins: u32) -> (splitter: Self)
        ensures
            splitter.bins == bins,
    {
        Self { bins }
    }

    /// The bin of the record with the identifier `id`.
    pub fn bin_record(&self, id: &str) -> (bin: usize)
        requires
            self.bins > 0,
            hashable(id@),
        ensures
            bin == bucket(id@, self.bins),
            bin < self.bins,
    {
        let hash = hash32(id.as_bytes());
        bucket_of_hash(hash, self.bins)
    }

    /// The bin of each record, from the identifiers of the records.
    pub fn bin_records(&self, ids: &Vec<String>) -> (record_bins: Vec<usize>)
        requires
            self.bins > 0,
            forall|i: int| 0 <= i < ids@.len() ==> hashable(#[trigger] ids@[i]@),
        ensures
            record_bins@ == record_buckets(views(ids@), self.bins),
            forall|i: int| 0 <= i < record_bins@.len() ==> #[trigger] record_bins@[i] < self.bins,
    {
        let mut record_bins: Vec<usize> = Vec::with_capacity(ids.len());
        let mut i: usize = 0;
        while i < ids.len()
            invariant
                self.bins > 0,
                i <= ids@.len(),
                forall|k: int| 0 <= k < ids@.len() ==> hashable(#[trigger] ids@[k]@),
                record_bins@.len() == i,
                forall|k: int|
                    0 <= k < i ==> #[trigger] record_bins@[k] == bucket(ids@[k]@, self.bins) as usize,
                forall|k: int| 0 <= k < i ==> #[trigger] record_bins@[k] < self.bins,
            decreases ids@.len() - i,
        {
            let bin = self.bin_record(ids[i].as_str());
            record_bins.push(bin);
            i += 1;
        }
        assert(record_bins@ =~= record_buckets(views(ids@), self.bins));
        record_bins
    }

    /// The shards of the file `filename`, all of them empty.
    pub fn empty_shards(&self, filename: &str) -> (shards: Vec<Shard>)
        ensures
            shards@.len() == self.bins,
            shard_file_names(shards@) == shard_names(filename@, self.bins),
            forall|b: int| 0 <= b < self.bins ==> (#[trigger] shards@[b]).records@.len() == 0,
    {
        let mut shards: Vec<Shard> = Vec::new();
        let mut b: u32 = 0;
        while b < self.bins
            invariant
                b <= self.bins,
                shards@.len() == b,
                forall|k: int|
                    0 <= k < b ==> (#[trigger] shards@[k]).file_name@ == fastq_shard_name(
                        filename@,
                        k as nat,
                    ),
                forall|k: int| 0 <= k < b ==> (#[trigger] shards@[k]).records@.len() == 0,
            decreases self.bins - b,
        {
            let file_name = make_fastq_shard_name(filename, b);
            shards.push(Shard { file_name, records: Vec::new() });
            b += 1;
        }
        assert(shard_file_names(shards@) =~= shard_names(filename@, self.bins));
        shards
    }

    /// Splits the file `filename`, given the bin of each of its records.
    pub fn shard_bins(&self, filename: &str, record_bins: &Vec<usize>) -> (out: FileShards)
        requires
            forall|i: int| 0 <= i < record_bins@.len() ==> #[trigger] record_bins@[i] < self.bins,
        ensures
            out.filename@ == filename@,
            sharded(out.shards@, filename@, record_bins@, self.bins),
    {
        let mut shards = self.empty_shards(filename);
        let mut i: usize = 0;
        while i < record_bins.len()
            invariant
                i <= record_bins@.len(),
                forall|k: int| 0 <= k < record_bins@.len() ==> #[trigger] record_bins@[k] < self.bins,
                shards@.len() == self.bins,
                shard_file_names(shards@) == shard_names(filename@, self.bins),
                forall|b: int|
                    0 <= b < self.bins ==> (#[trigger] shards@[b]).records@ == positions_of(
                        record_bins@.take(i as int),
                        b as usize,
                    ),
            decreases record_bins@.len() - i,
        {
            let ghost before = shards@;
            let bin = record_bins[i];
            shards[bin].records.push(i);
            proof {
                assert(record_bins@.take(i + 1) =~= record_bins@.take(i as int).push(bin));
                assert(shard_file_names(shards@) =~= shard_file_names(before));
                assert forall|b: int| 0 <= b < self.bins implies (#[trigger] shards@[b]).records@
                    == positions_of(record_bins@.take(i + 1), b as usize) by {
                    lemma_positions_push(record_bins@.take(i as int), bin, b as usize);
                    assert(before[b].records@ == positions_of(record_bins@.take(i as int), b as usize));
                }
            }
            i += 1;
        }
        proof {
            assert(record_bins@.take(i as int) =~= record_bins@);
        }
        FileShards { filename: String::from_str(filename), shards }
    }

    /// Splits the file `filename`, given the identifiers of its records in
    /// input order.
    pub fn shard_file(&self, filename: &str, ids: &Vec<String>) -> (out: FileShards)
        requires
            self.bins > 0,
            forall|i: int| 0 <= i < ids@.len() ==> hashable(#[trigger] ids@[i]@),
        ensures
            out.filename@ == filename@,
            sharded(out.shards@, filename@, record_buckets(views(ids@), self.bins), self.bins),
    {
        let record_bins = self.bin_records(ids);
        self.shard_bins(filename, &record_bins)
    }
}

/// One FASTQ input: its file name and the identifiers of its records, in
/// input order.
#[derive(Debug, Clone, PartialEq, Eq)]
pub struct FastqFile {
    pub filename: String,
    pub ids: Vec<String>,
}

/// The outcome of a split: the shards of each input, in the order of the
/// inputs, the manifest, and a remark if the number of bins earned one.
#[derive(Debug, Clone, PartialEq, Eq)]
pub struct SplitOutput {
    pub manifest: Manifest,
    pub files: Vec<FileShards>,
    pub advisory: Option<Advisory>,
}

/// The file names of a list of inputs.
pub open spec fn file_names(files: Seq<FastqFile>) -> Seq<Seq<char>> {
    Seq::new(files.len(), |f: int| files[f].filename@)
}

/// Whether every identifier of a list can be hashed.
pub open spec fn all_hashable(ids: Seq<String>) -> bool {
    forall|r: int| 0 <= r < ids.len() ==> hashable(#[trigger] ids[r]@)
}

/// Whether the record at `record` of the input at `file` is the first, in
/// the order of the inputs and then of their records, whose identifier
/// cannot be hashed.
pub open spec fn first_unhashable(files: Seq<FastqFile>, file: int, record: int) -> bool {
    &&& 0 <= file < files.len()
    &&& 0 <= record < files[file].ids@.len()
    &&& !hashable(files[file].ids@[record]@)
    &&& forall|r: int| 0 <= r < record ==> hashable(#[trigger] files[file].ids@[r]@)
    &&& forall|f: int| 0 <= f < file ==> all_hashable(#[trigger] files[f].ids@)
}

/// The manifest of a split of the inputs named `names` into `bins` bins:
/// under each name, the names of its `bins` shards.
pub open spec fn manifest_of(names: Seq<Seq<char>>, bins: u32) -> Map<Seq<char>, Seq<Seq<char>>> {
    Map::new(|name: Seq<char>| names.contains(name), |name: Seq<char>| shard_names(name, bins))
}

/// How the manifest grows when one more input has been split.
pub proof fn lemma_manifest_grows(names: Seq<Seq<char>>, next: Seq<char>, bins: u32)
    ensures
        manifest_of(names.push(next), bins) == manifest_of(names, bins).insert(
            next,
            shard_names(next, bins),
        ),
{
    let grown = manifest_of(names.push(next), bins);
    let inserted = manifest_of(names, bins).insert(next, shard_names(next, bins));
    assert forall|k: Seq<char>| grown.dom().contains(k) <==> inserted.dom().contains(k) by {
        assert(names.push(next)[names.len() as int] == next);
        if names.contains(k) {
            let j = choose|j: int| 0 <= j < names.len() && names[j] == k;
            assert(names.push(next)[j] == k);
        }
        if names.push(next).contains(k) {
            let j = choose|j: int| 0 <= j < names.push(next).len() && names.push(next)[j] == k;
            if j < names.len() {
                assert(names[j] == k);
            }
        }
    }
    assert(grown =~= inserted);
}

/// What a split of `files` into `bins` bins returns.
pub open spec fn split_of(out: SplitOutput, files: Seq<FastqFile>, bins: u32) -> bool {
    &&& out.files@.len() == files.len()
    &&& forall|f: int|
        0 <= f < files.len() ==> {
            &&& (#[trigger] out.files@[f]).filename@ == files[f].filename@
            &&& sharded(
                out.files@[f].shards@,
                files[f].filename@,
                record_buckets(views(files[f].ids@), bins),
                bins,
            )
        }
    &&& out.manifest.wf()
    &&& out.manifest@ == manifest_of(file_names(files), bins)
    &&& out.advisory == if is_pow2(bins as int) {
        None
    } else {
        Some(Advisory::BinsNotPowerOfTwo { bins })
    }
}

/// Looks for the first identifier that cannot be hashed.
pub fn first_long_id(ids: &Vec<String>) -> (found: Option<usize>)
    ensures
        match found {
            Some(r) => {
                &&& r < ids@.len()
                &&& !hashable(ids@[r as int]@)
                &&& forall|k: int| 0 <= k < r ==> hashable(#[trigger] ids@[k]@)
            },
            None => all_hashable(ids@),
        },
{
    let mut r: usize = 0;
    while r < ids.len()
        invariant
            r <= ids@.len(),
            forall|k: int| 0 <= k < r ==> hashable(#[trigger] ids@[k]@),
        decreases ids@.len() - r,
    {
        if !is_hashable(ids[r].as_str()) {
            return Some(r);
        }
        r += 1;
    }
    None
}

/// Copies the file names of a list of shards.
pub fn file_names_of(shards: &Vec<Shard>) -> (names: Vec<String>)
    ensures
        views(names@) == shard_file_names(shards@),
{
    let mut names: Vec<String> = Vec::with_capacity(shards.len());
    let mut b: usize = 0;
    while b < shards.len()
        invariant
            b <= shards@.len(),
            names@.len() == b,
            forall|k: int| 0 <= k < b ==> (#[trigger] names@[k])@ == shards@[k].file_name@,
        decreases shards@.len() - b,
    {
        names.push(shards[b].file_name.clone());
        b += 1;
    }
    assert(views(names@) =~= shard_file_names(shards@));
    names
}

/// Splits each of `files` into `bins` shards.
///
/// Fails if `bins` is zero, or at the first identifier that is too long to be
/// hashed. Otherwise every input is split on its own, as `sharded` describes,
/// and the manifest lists the shards of each input under its file name.
pub fn run_fastq_split(files: &Vec<FastqFile>, bins: u32) -> (result: Result<
    SplitOutput,
    SplitError,
>)
    ensures
        match result {
            Ok(out) => {
                &&& bins > 0
                &&& forall|f: int| 0 <= f < files@.len() ==> all_hashable(#[trigger] files@[f].ids@)
                &&& split_of(out, files@, bins)
            },
            Err(SplitError::NoBins) => bins == 0,
            Err(SplitError::IdTooLong { file, record }) => {
                &&& bins > 0
                &&& first_unhashable(files@, file as int, record as int)
            },
        },
{
    if bins == 0 {
        return Err(SplitError::NoBins);
    }
    let splitter = FqSplitter::new(bins);
    let mut manifest = Manifest::new();
    let mut out_files: Vec<FileShards> = Vec::with_capacity(files.len());
    let mut f: usize = 0;
    while f < files.len()
        invariant
            bins > 0,
            splitter.bins == bins,
            f <= files@.len(),
            out_files@.len() == f,
            forall|k: int| 0 <= k < f ==> all_hashable(#[trigger] files@[k].ids@),
            forall|k: int|
                0 <= k < f ==> {
                    &&& (#[trigger] out_files@[k]).filename@ == files@[k].filename@
                    &&& sharded(
                        out_files@[k].shards@,
                        files@[k].filename@,
                        record_buckets(views(files@[k].ids@), bins),
                        bins,
                    )
                },
            manifest.wf(),
            manifest@ == manifest_of(file_names(files@).take(f as int), bins),
        decreases files@.len() - f,
    {
        let file = &files[f];
        match first_long_id(&file.ids) {
            Some(record) => {
                return Err(SplitError::IdTooLong { file: f, record });
            },
            None => {},
        }
        let shards = splitter.shard_file(file.filename.as_str(), &file.ids);
        let names = file_names_of(&shards.shards);
        let ghost before = manifest@;
        let ghost listed = views(names@);
        manifest.insert(file.filename.clone(), names);
        out_files.push(shards);
        proof {
            let seen = file_names(files@).take(f as int);
            let name = file.filename@;
            assert(listed == shard_names(name, bins));
            assert(manifest@ == before.insert(name, listed));
            assert(file_names(files@).take(f + 1) =~= seen.push(name));
            lemma_manifest_grows(seen, name, bins);
        }
        f += 1;
    }
    proof {
        assert(file_names(files@).take(f as int) =~= file_names(files@));
    }
    Ok(SplitOutput { manifest, files: out_files, advisory: advise(bins) })
}

/// The positions held by each shard of a list.
pub open spec fn shard_records(shards: Seq<Shard>) -> Seq<Seq<usize>> {
    Seq::new(shards.len(), |b: int| shards[b].records@)
}

/// The bin of a record is decided by its identifier and the number of bins,
/// and by nothing else: not by the splitter that is asked, nor by the input
/// that the record stands in, nor by its place there.
pub proof fn bin_depends_on_identifier_alone(
    first: FqSplitter,
    ids_first: Seq<Seq<char>>,
    i: int,
    second: FqSplitter,
    ids_second: Seq<Seq<char>>,
    j: int,
)
    requires
        first.bins == second.bins,
        0 <= i < ids_first.len(),
        0 <= j < ids_second.len(),
        ids_first[i] == ids_second[j],
    ensures
        bucket(ids_first[i], first.bins) == bucket(ids_second[j], second.bins),
        record_buckets(ids_first, first.bins)[i] == record_buckets(ids_second, second.bins)[j],
{
}

/// Mates meet: where two inputs are split on their own into the same number
/// of bins, two records with the same identifier lie in shards of the same
/// index.
pub proof fn mates_share_a_bin(
    shards_first: Seq<Shard>,
    filename_first: Seq<char>,
    ids_first: Seq<Seq<char>>,
    i: usize,
    shards_second: Seq<Shard>,
    filename_second: Seq<char>,
    ids_second: Seq<Seq<char>>,
    j: usize,
    bins: u32,
)
    requires
        ids_first.len() <= usize::MAX,
        ids_second.len() <= usize::MAX,
        sharded(shards_first, filename_first, record_buckets(ids_first, bins), bins),
        sharded(shards_second, filename_second, record_buckets(ids_second, bins), bins),
        i < ids_first.len(),
        j < ids_second.len(),
        ids_first[i as int] == ids_second[j as int],
    ensures
        forall|b: int|
            0 <= b < bins ==> (#[trigger] shards_first[b].records@.contains(i)
                <==> shards_second[b].records@.contains(j)),
{
    assert forall|b: int| 0 <= b < bins implies (#[trigger] shards_first[b].records@.contains(i)
        <==> shards_second[b].records@.contains(j)) by {
        lemma_positions_member(record_buckets(ids_first, bins), b as usize, i);
        lemma_positions_member(record_buckets(ids_second, bins), b as usize, j);
    }
}

/// Every record of an input lies in exactly one of its shards: the one of
/// its bin.
pub proof fn every_record_is_in_exactly_one_shard(
    shards: Seq<Shard>,
    filename: Seq<char>,
    ids: Seq<Seq<char>>,
    bins: u32,
    i: usize,
)
    requires
        bins > 0,
        ids.len() <= usize::MAX,
        sharded(shards, filename, record_buckets(ids, bins), bins),
        i < ids.len(),
    ensures
        0 <= bucket(ids[i as int], bins) < bins,
        shards[bucket(ids[i as int], bins)].records@.contains(i),
        forall|b: int|
            0 <= b < bins ==> (#[trigger] shards[b].records@.contains(i) <==> b == bucket(
                ids[i as int],
                bins,
            )),
{
    let buckets = record_buckets(ids, bins);
    lemma_positions_member(buckets, buckets[i as int], i);
    assert forall|b: int| 0 <= b < bins implies (#[trigger] shards[b].records@.contains(i) <==> b
        == bucket(ids[i as int], bins)) by {
        lemma_positions_member(buckets, b as usize, i);
    }
}

/// The shards of an input hold as many records as the input.
pub proof fn shards_hold_as_many_records_as_the_input(
    shards: Seq<Shard>,
    filename: Seq<char>,
    ids: Seq<Seq<char>>,
    bins: u32,
)
    requires
        bins > 0,
        sharded(shards, filename, record_buckets(ids, bins), bins),
    ensures
        total_len(shard_records(shards)) == ids.len(),
{
    let buckets = record_buckets(ids, bins);
    lemma_total_len_is_count(shard_records(shards), buckets);
    lemma_count_below_all(buckets, bins as nat);
}

/// Every bin of an input has one shard, and no two shards of an input have
/// the same file name.
pub proof fn every_bin_has_one_shard(
    shards: Seq<Shard>,
    filename: Seq<char>,
    buckets: Seq<usize>,
    bins: u32,
)
    requires
        sharded(shards, filename, buckets, bins),
    ensures
        shards.len() == bins,
        forall|a: int, b: int|
            0 <= a < b < bins ==> (#[trigger] shards[a]).file_name@ != (
            #[trigger] shards[b]).file_name@,
{
    assert forall|a: int, b: int| 0 <= a < b < bins implies (#[trigger] shards[a]).file_name@ != (
    #[trigger] shards[b]).file_name@ by {
        assert(shard_file_names(shards)[a] == shard_names(filename, bins)[a]);
        assert(shard_file_names(shards)[b] == shard_names(filename, bins)[b]);
        lemma_fastq_shard_names_differ(filename, a as nat, b as nat);
    }
}

/// Within a shard the records keep the order of the input, and none is
/// written twice.
pub proof fn shards_keep_the_order_of_the_input(
    shards: Seq<Shard>,
    filename: Seq<char>,
    buckets: Seq<usize>,
    bins: u32,
)
    requires
        buckets.len() <= usize::MAX,
        sharded(shards, filename, buckets, bins),
    ensures
        forall|b: int, earlier: int, later: int|
            0 <= b < bins && 0 <= earlier < later < shards[b].records@.len() ==> (
            #[trigger] shards[b].records@[earlier]) < (#[trigger] shards[b].records@[later]),
{
    assert forall|b: int, earlier: int, later: int|
        0 <= b < bins && 0 <= earlier < later < shards[b].records@.len() implies (
    #[trigger] shards[b].records@[earlier]) < (#[trigger] shards[b].records@[later]) by {
        lemma_positions_increasing(buckets, b as usize);
    }
}

} // verus!
