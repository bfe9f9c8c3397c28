use toil_methylseq_utils::bam_sort::{route, run_bam_sort, target_name, Route};
use toil_methylseq_utils::chroms::{keeps, KEEP_CHROMS};
use toil_methylseq_utils::error::RouteError;
use toil_methylseq_utils::writer_pool::{ChromShard, WriterPool};

fn table(names: &[&str]) -> Vec<String> {
    names.iter().map(|name| name.to_string()).collect()
}

/// The target table of a human genome: the autosomes, then X, Y and M.
fn human_targets() -> Vec<String> {
    let mut names: Vec<String> = (1..=22).map(|i| format!("chr{}", i)).collect();
    names.push("chrX".to_string());
    names.push("chrY".to_string());
    names.push("chrM".to_string());
    names
}

fn summary(shards: &[ChromShard]) -> Vec<(String, String, Vec<usize>)> {
    shards
        .iter()
        .map(|s| (s.chrom.clone(), s.file_name.clone(), s.records.clone()))
        .collect()
}

#[test]
fn test_bam_sort_basic() {
    let targets = human_targets();
    let tids: Vec<i32> = (0..40).map(|i| (i * 3) % 25).collect();
    let shards = run_bam_sort("shard_0", &targets, &tids).expect("should work!");

    let mut i = 0;
    for shard in &shards {
        assert_eq!(shard.file_name, format!("{}_shard_0.bam", shard.chrom));
        for position in &shard.records {
            assert_eq!(targets[tids[*position] as usize], shard.chrom);
        }
        i += 1;
        if i > 10 {
            break;
        }
    }
    assert_eq!(i, 11);
}

#[test]
fn records_on_chr1_chrm_chr2_chr1() {
    let targets = table(&["chr1", "chr2", "chrM"]);
    let tids = vec![0, 2, 1, 0];
    let shards = run_bam_sort("sample", &targets, &tids).expect("should sort");
    assert_eq!(
        summary(&shards),
        vec![
            ("chr1".to_string(), "chr1_sample.bam".to_string(), vec![0, 3]),
            ("chr2".to_string(), "chr2_sample.bam".to_string(), vec![2]),
        ]
    );
    assert!(shards.iter().all(|s| s.chrom != "chrM"));
}

#[test]
fn reference_index_99_in_a_table_of_24() {
    let mut targets = human_targets();
    targets.truncate(24);
    let tids = vec![0, 5, 99, 1];
    assert_eq!(
        run_bam_sort("sample", &targets, &tids).err(),
        Some(RouteError::OutOfRangeReference { record: 2, tid: 99, targets: 24 })
    );
}

#[test]
fn the_first_bad_record_is_reported() {
    let targets = table(&["chr1", "chr2"]);
    assert_eq!(
        run_bam_sort("s", &targets, &vec![1, 2, 0, 7]).err(),
        Some(RouteError::OutOfRangeReference { record: 1, tid: 2, targets: 2 })
    );
    assert_eq!(
        run_bam_sort("s", &targets, &vec![7]).err(),
        Some(RouteError::OutOfRangeReference { record: 0, tid: 7, targets: 2 })
    );
    assert_eq!(
        run_bam_sort("s", &Vec::new(), &vec![0]).err(),
        Some(RouteError::OutOfRangeReference { record: 0, tid: 0, targets: 0 })
    );
}

#[test]
fn an_unmapped_record_has_no_reference() {
    let targets = human_targets();
    assert_eq!(
        run_bam_sort("s", &targets, &vec![3, -1]).err(),
        Some(RouteError::OutOfRangeReference { record: 1, tid: -1, targets: 25 })
    );
    assert_eq!(
        run_bam_sort("s", &targets, &vec![i32::MIN]).err(),
        Some(RouteError::OutOfRangeReference { record: 0, tid: i32::MIN, targets: 25 })
    );
    assert_eq!(
        run_bam_sort("s", &targets, &vec![i32::MAX]).err(),
        Some(RouteError::OutOfRangeReference { record: 0, tid: i32::MAX, targets: 25 })
    );
}

#[test]
fn the_last_position_of_the_table_is_valid() {
    let targets = human_targets();
    let shards = run_bam_sort("s", &targets, &vec![24, 21, 0]).expect("should sort");
    assert_eq!(
        summary(&shards),
        vec![
            ("chr22".to_string(), "chr22_s.bam".to_string(), vec![1]),
            ("chr1".to_string(), "chr1_s.bam".to_string(), vec![2]),
        ]
    );
    assert!(run_bam_sort("s", &targets, &vec![25]).is_err());
}

#[test]
fn no_records_give_no_shards() {
    let shards = run_bam_sort("s", &human_targets(), &Vec::new()).expect("should sort");
    assert!(shards.is_empty());
    let shards = run_bam_sort("s", &Vec::new(), &Vec::new()).expect("should sort");
    assert!(shards.is_empty());
}

#[test]
fn dropped_records_leave_no_shard() {
    let targets = human_targets();
    // X, Y and M only.
    let shards = run_bam_sort("s", &targets, &vec![22, 23, 24, 24, 22]).expect("should sort");
    assert!(shards.is_empty());
}

#[test]
fn shards_come_in_order_of_first_appearance() {
    let targets = human_targets();
    let tids = vec![4, 24, 0, 4, 21, 0, 22, 4, 9];
    let shards = run_bam_sort("run7", &targets, &tids).expect("should sort");
    assert_eq!(
        summary(&shards),
        vec![
            ("chr5".to_string(), "chr5_run7.bam".to_string(), vec![0, 3, 7]),
            ("chr1".to_string(), "chr1_run7.bam".to_string(), vec![2, 5]),
            ("chr22".to_string(), "chr22_run7.bam".to_string(), vec![4]),
            ("chr10".to_string(), "chr10_run7.bam".to_string(), vec![8]),
        ]
    );
}

#[test]
fn kept_records_are_in_their_shard_and_the_others_nowhere() {
    let targets = human_targets();
    let tids: Vec<i32> = (0..1000).map(|i| (i * 37 + i / 7) % 25).collect();
    let shards = run_bam_sort("n", &targets, &tids).expect("should sort");
    for (i, tid) in tids.iter().enumerate() {
        let name = &targets[*tid as usize];
        let holders: Vec<&String> =
            shards.iter().filter(|s| s.records.contains(&i)).map(|s| &s.chrom).collect();
        if *tid < 22 {
            assert_eq!(holders, vec![name]);
        } else {
            assert!(holders.is_empty());
        }
    }
    let written: usize = shards.iter().map(|s| s.records.len()).sum();
    assert_eq!(written, tids.iter().filter(|tid| **tid < 22).count());
}

#[test]
fn no_chromosome_gets_two_shards() {
    let targets = human_targets();
    let tids: Vec<i32> = (0..500).map(|i| (i * 11) % 25).collect();
    let shards = run_bam_sort("n", &targets, &tids).expect("should sort");
    assert_eq!(shards.len(), 22);
    for (k, shard) in shards.iter().enumerate() {
        for other in &shards[k + 1..] {
            assert_ne!(shard.chrom, other.chrom);
            assert_ne!(shard.file_name, other.file_name);
        }
        assert!(!shard.records.is_empty());
    }
}

#[test]
fn chromosome_shards_keep_the_order_of_the_input() {
    let targets = human_targets();
    let tids: Vec<i32> = (0..500).map(|i| (i * i + 3) % 25).collect();
    let shards = run_bam_sort("n", &targets, &tids).expect("should sort");
    for shard in &shards {
        for pair in shard.records.windows(2) {
            assert!(pair[0] < pair[1]);
        }
    }
}

#[test]
fn two_targets_of_one_name_share_a_shard() {
    let targets = table(&["chr3", "chrUn", "chr3"]);
    let shards = run_bam_sort("d", &targets, &vec![2, 0, 1, 2]).expect("should sort");
    assert_eq!(
        summary(&shards),
        vec![("chr3".to_string(), "chr3_d.bam".to_string(), vec![0, 1, 3])]
    );
}

#[test]
fn target_name_looks_the_index_up() {
    let targets = table(&["chr1", "chr2", "chrM"]);
    assert_eq!(target_name(&targets, 0, 0), Ok("chr1"));
    assert_eq!(target_name(&targets, 9, 2), Ok("chrM"));
    assert_eq!(
        target_name(&targets, 9, 3),
        Err(RouteError::OutOfRangeReference { record: 9, tid: 3, targets: 3 })
    );
    assert_eq!(
        target_name(&targets, 4, -1),
        Err(RouteError::OutOfRangeReference { record: 4, tid: -1, targets: 3 })
    );
}

#[test]
fn the_autosomes_are_kept_and_nothing_else() {
    assert_eq!(KEEP_CHROMS.len(), 22);
    for i in 1..=22 {
        assert!(keeps(&format!("chr{}", i)));
    }
    for name in [
        "chrM", "chrX", "chrY", "chr0", "chr23", "chr", "", "1", "CHR1", "chr1 ", " chr1", "chr01",
        "chr1_random", "chrUn_gl000220", "chr100",
    ] {
        assert!(!keeps(name));
    }
}

#[test]
fn a_shard_is_made_once() {
    let mut pool = WriterPool::new("sample");
    assert!(pool.shards.is_empty());
    assert_eq!(pool.stem, "sample");
    assert_eq!(pool.find("chr1"), None);
    assert_eq!(pool.get_or_create("chr1"), (0, true));
    assert_eq!(pool.get_or_create("chr7"), (1, true));
    assert_eq!(pool.get_or_create("chr1"), (0, false));
    assert_eq!(pool.get_or_create("chr7"), (1, false));
    assert_eq!(pool.find("chr7"), Some(1));
    assert_eq!(pool.find("chr2"), None);
    assert_eq!(pool.shards.len(), 2);
    assert_eq!(pool.shards[0].file_name, "chr1_sample.bam");
    assert_eq!(pool.shards[1].file_name, "chr7_sample.bam");
    pool.append(1, 5);
    pool.append(0, 6);
    pool.append(1, 8);
    assert_eq!(pool.get_or_create("chr7"), (1, false));
    assert_eq!(pool.shards[0].records, vec![6]);
    assert_eq!(pool.shards[1].records, vec![5, 8]);
}

#[test]
fn route_drops_writes_and_fails() {
    let targets = table(&["chr1", "chrM", "chr2"]);
    let mut pool = WriterPool::new("in");
    assert_eq!(route(&mut pool, &targets, 0, 1), Ok(Route::Dropped));
    assert!(pool.shards.is_empty());
    assert_eq!(route(&mut pool, &targets, 1, 2), Ok(Route::Written { shard: 0, created: true }));
    assert_eq!(route(&mut pool, &targets, 2, 0), Ok(Route::Written { shard: 1, created: true }));
    assert_eq!(route(&mut pool, &targets, 3, 2), Ok(Route::Written { shard: 0, created: false }));
    assert_eq!(
        route(&mut pool, &targets, 4, 3),
        Err(RouteError::OutOfRangeReference { record: 4, tid: 3, targets: 3 })
    );
    assert_eq!(
        summary(&pool.shards),
        vec![
            ("chr2".to_string(), "chr2_in.bam".to_string(), vec![1, 3]),
            ("chr1".to_string(), "chr1_in.bam".to_string(), vec![2]),
        ]
    );
}
