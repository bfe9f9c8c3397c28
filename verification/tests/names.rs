use toil_methylseq_utils::bucket::Advisory;
use toil_methylseq_utils::decimal::{append_decimal, append_signed_decimal};
use toil_methylseq_utils::error::{RouteError, SplitError};
use toil_methylseq_utils::manifest::Manifest;
use toil_methylseq_utils::names::{make_bam_shard_name, make_fastq_shard_name};
use toil_methylseq_utils::text::str_eq;

fn signed(n: i32) -> String {
    let mut out = String::new();
    append_signed_decimal(&mut out, n);
    out
}

fn decimal(n: u64) -> String {
    let mut out = String::new();
    append_decimal(&mut out, n);
    out
}

fn names(list: &[&str]) -> Vec<String> {
    list.iter().map(|name| name.to_string()).collect()
}

#[test]
fn decimal_of_small_and_large_numbers() {
    assert_eq!(decimal(0), "0");
    assert_eq!(decimal(7), "7");
    assert_eq!(decimal(9), "9");
    assert_eq!(decimal(10), "10");
    assert_eq!(decimal(11), "11");
    assert_eq!(decimal(99), "99");
    assert_eq!(decimal(100), "100");
    assert_eq!(decimal(1234567890), "1234567890");
    assert_eq!(decimal(u32::MAX as u64), "4294967295");
    assert_eq!(decimal(u64::MAX), "18446744073709551615");
    for n in (0..100_000u64).step_by(37) {
        assert_eq!(decimal(n), format!("{:?}", n));
    }
}

#[test]
fn signed_decimal_of_both_signs() {
    assert_eq!(signed(0), "0");
    assert_eq!(signed(5), "5");
    assert_eq!(signed(-1), "-1");
    assert_eq!(signed(-10), "-10");
    assert_eq!(signed(99), "99");
    assert_eq!(signed(i32::MAX), "2147483647");
    assert_eq!(signed(i32::MIN), "-2147483648");
    for n in (-50_000..50_000).step_by(41) {
        assert_eq!(signed(n), format!("{}", n));
    }
}

#[test]
fn failures_in_words() {
    assert_eq!(SplitError::NoBins.message(), "the number of bins must be positive");
    assert_eq!(
        SplitError::IdTooLong { file: 1, record: 20 }.message(),
        "the identifier of record 20 of input 1 is too long to be hashed"
    );
    assert_eq!(
        RouteError::OutOfRangeReference { record: 2, tid: 99, targets: 24 }.message(),
        "record 2 cites reference index 99, but the target table has 24 entries"
    );
    assert_eq!(
        RouteError::OutOfRangeReference { record: 0, tid: -1, targets: 0 }.message(),
        "record 0 cites reference index -1, but the target table has 0 entries"
    );
    assert_eq!(
        Advisory::BinsNotPowerOfTwo { bins: 3 }.message(),
        "bins is not a power of 2.."
    );
}

#[test]
fn append_decimal_keeps_what_was_there() {
    let mut out = String::from("bin ");
    append_decimal(&mut out, 42);
    append_decimal(&mut out, 0);
    assert_eq!(out, "bin 420");
}

#[test]
fn fastq_shard_names() {
    assert_eq!(make_fastq_shard_name("reads_1.fastq.gz", 0), "reads_1.fastq.gz-0");
    assert_eq!(make_fastq_shard_name("reads_1.fastq.gz", 15), "reads_1.fastq.gz-15");
    assert_eq!(make_fastq_shard_name("", 3), "-3");
    assert_eq!(make_fastq_shard_name("a-1", 2), "a-1-2");
    assert_eq!(make_fastq_shard_name("läufe.fq", u32::MAX), "läufe.fq-4294967295");
}

#[test]
fn bam_shard_names() {
    assert_eq!(make_bam_shard_name("chr1", "sample"), "chr1_sample.bam");
    assert_eq!(make_bam_shard_name("chr22", "shard_0"), "chr22_shard_0.bam");
    assert_eq!(make_bam_shard_name("", ""), "_.bam");
    assert_eq!(make_bam_shard_name("chr2", "a.sorted"), "chr2_a.sorted.bam");
}

#[test]
fn str_eq_compares_characters() {
    assert!(str_eq("", ""));
    assert!(str_eq("chr1", "chr1"));
    assert!(!str_eq("chr1", "chr2"));
    assert!(!str_eq("chr1", "chr10"));
    assert!(!str_eq("chr10", "chr1"));
    assert!(!str_eq("", "a"));
    assert!(str_eq("żółć", "żółć"));
    assert!(!str_eq("żółć", "zolc"));
    assert!(!str_eq("é", "e\u{301}"));
}

#[test]
fn manifest_starts_empty() {
    let manifest = Manifest::new();
    assert!(manifest.entries.is_empty());
    assert_eq!(manifest.get("reads.fq"), None);
    assert_eq!(manifest.position("reads.fq"), None);
}

#[test]
fn manifest_insert_adds_and_replaces() {
    let mut manifest = Manifest::new();
    manifest.insert("a.fq".to_string(), names(&["a.fq-0", "a.fq-1"]));
    manifest.insert("b.fq".to_string(), names(&["b.fq-0"]));
    assert_eq!(manifest.entries.len(), 2);
    assert_eq!(manifest.position("a.fq"), Some(0));
    assert_eq!(manifest.position("b.fq"), Some(1));
    assert_eq!(manifest.get("a.fq"), Some(&names(&["a.fq-0", "a.fq-1"])));
    assert_eq!(manifest.get("b.fq"), Some(&names(&["b.fq-0"])));
    assert_eq!(manifest.get("c.fq"), None);

    manifest.insert("a.fq".to_string(), names(&["a.fq-0", "a.fq-1", "a.fq-2"]));
    assert_eq!(manifest.entries.len(), 2);
    assert_eq!(manifest.get("a.fq"), Some(&names(&["a.fq-0", "a.fq-1", "a.fq-2"])));
    assert_eq!(manifest.get("b.fq"), Some(&names(&["b.fq-0"])));
    assert_eq!(manifest.entries[0].filename, "a.fq");
    assert_eq!(manifest.entries[1].filename, "b.fq");
}
