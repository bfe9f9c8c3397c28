//! Routing of sequencing records into shards.
//!
//! Two operations are offered. Reads of a FASTQ file are spread over a fixed
//! number of shards by a hash of their identifier, so that the two mates of a
//! pair, which carry the same identifier in two files, always meet in shards
//! of the same index. Aligned reads are sorted into one shard per autosome,
//! and reads on any other reference sequence are dropped.
//!
//! The library decides where each record goes; it never touches a file. A
//! record is known to it by its position in the input and by its routing key
//! alone, and a shard is a file name together with the positions of the
//! records that belong to it, in input order.
//!
//! Each operation comes in two grains. `fastq_split::run_fastq_split` and
//! `bam_sort::run_bam_sort` route a whole input at once and say what the
//! shards hold in the end. `fastq_split::FqSplitter::bin_record` and
//! `bam_sort::route` decide on one record, for a caller that reads and writes
//! as it goes.

pub mod bucket;
pub mod murmur;
pub mod decimal;
pub mod names;
pub mod text;
pub mod positions;
pub mod error;
pub mod manifest;
pub mod fastq_split;
pub mod chroms;
pub mod writer_pool;
pub mod bam_sort;
