//! Sorting aligned reads into one shard per chromosome.
//!
//! A record names its reference sequence by an index into the target table
//! of its input. Records on one of the kept chromosomes go to the shard of
//! that chromosome, which is made when the first of them arrives; all other
//! records are dropped. A record whose index is no position of the table ends
//! the pass.

use vstd::prelude::*;
use crate::chroms::{is_kept, keeps};
use crate::error::RouteError;
use crate::names::{bam_shard_name, lemma_bam_shard_names_differ};
use crate::positions::{
    lemma_positions_in_range, lemma_positions_increasing, lemma_positions_member,
    lemma_positions_of_absent, lemma_positions_push, positions_of,
};
use crate::text::views;
use crate::writer_pool::{shard_chroms, ChromShard, WriterPool};

verus! {

/// Whether `tid` is a position of a target table with `targets` entries.
pub open spec fn valid_tid(tid: i32, targets: nat) -> bool {
    0 <= tid < targets
}

/// Whether every record cites a position of the target table.
pub open spec fn all_valid(tids: Seq<i32>, targets: nat) -> bool {
    forall|i: int| 0 <= i < tids.len() ==> valid_tid(#[trigger] tids[i], targets)
}

/// Whether the record at `record` is the first that cites no position of the
/// target table.
pub open spec fn first_invalid(tids: Seq<i32>, targets: nat, record: int) -> bool {
    &&& 0 <= record < tids.len()
    &&& !valid_tid(tids[record], targets)
    &&& forall|j: int| 0 <= j < record ==> valid_tid(#[trigger] tids[j], targets)
}

/// The name of the reference sequence of each record.
pub open spec fn reference_names(targets: Seq<Seq<char>>, tids: Seq<i32>) -> Seq<Seq<char>> {
    Seq::new(tids.len(), |i: int| targets[tids[i] as int])
}

/// The kept chromosomes among `names`, each once, in the order in which they
/// first appear.
pub open spec fn chroms_seen(names: Seq<Seq<char>>) -> Seq<Seq<char>>
    decreases names.len(),
{
    if names.len() == 0 {
        Seq::empty()
    } else {
        let earlier = chroms_seen(names.drop_last());
        if is_kept(names.last()) && !earlier.contains(names.last()) {
            earlier.push(names.last())
        } else {
            earlier
        }
    }
}

/// What a finished pass over records with the reference names `names` leaves
/// behind: one shard for each kept chromosome that was seen, in order of
/// first appearance, named after the chromosome and `stem`, and holding the
/// positions of the records on that chromosome in input order.
pub open spec fn sorted_by_chrom(
    shards: Seq<ChromShard>,
    stem: Seq<char>,
    names: Seq<Seq<char>>,
) -> bool {
    &&& shard_chroms(shards) == chroms_seen(names)
    &&& forall|k: int|
        0 <= k < shards.len() ==> (#[trigger] shards[k]).file_name@ == bam_shard_name(
            shards[k].chrom@,
            stem,
        )
    &&& forall|k: int|
        0 <= k < shards.len() ==> (#[trigger] shards[k]).records@ == positions_of(
            names,
            shards[k].chrom@,
        )
}

/// How `chroms_seen` grows when one more record arrives.
pub proof fn lemma_seen_push(names: Seq<Seq<char>>, next: Seq<char>)
    ensures
        chroms_seen(names.push(next)) == if is_kept(next) && !chroms_seen(names).contains(next) {
            chroms_seen(names).push(next)
        } else {
            chroms_seen(names)
        },
{
    assert(names.push(next).drop_last() =~= names);
}

/// A chromosome has been seen exactly when it is kept and some record lies
/// on it.
pub proof fn lemma_seen_contains(names: Seq<Seq<char>>, chrom: Seq<char>)
    ensures
        chroms_seen(names).contains(chrom) <==> (is_kept(chrom) && names.contains(chrom)),
    decreases names.len(),
{
    if names.len() > 0 {
        let front = names.drop_last();
        let earlier = chroms_seen(front);
        lemma_seen_contains(front, chrom);
        lemma_seen_contains(front, names.last());
        assert(names[names.len() - 1] == names.last());
        if front.contains(chrom) {
            let k = choose|k: int| 0 <= k < front.len() && front[k] == chrom;
            assert(names[k] == chrom);
        }
        if names.contains(chrom) && chrom != names.last() {
            let k = choose|k: int| 0 <= k < names.len() && names[k] == chrom;
            assert(front[k] == chrom);
        }
        if is_kept(names.last()) && !earlier.contains(names.last()) {
            let all = earlier.push(names.last());
            assert(all[earlier.len() as int] == names.last());
            if earlier.contains(chrom) {
                let k = choose|k: int| 0 <= k < earlier.len() && earlier[k] == chrom;
                assert(all[k] == chrom);
            }
            if all.contains(chrom) {
                let k = choose|k: int| 0 <= k < all.len() && all[k] == chrom;
                if k < earlier.len() {
                    assert(earlier[k] == chrom);
                }
            }
        }
    }
}

/// No chromosome is seen twice.
pub proof fn lemma_seen_no_duplicates(names: Seq<Seq<char>>)
    ensures
        chroms_seen(names).no_duplicates(),
    decreases names.len(),
{
    if names.len() > 0 {
        lemma_seen_no_duplicates(names.drop_last());
    }
}

/// Of two chromosomes that were seen, the one that stands first has the
/// earlier first record.
pub proof fn lemma_seen_in_order_of_first_record(names: Seq<Seq<char>>, a: int, b: int)
    requires
        names.len() <= usize::MAX,
        0 <= a < b < chroms_seen(names).len(),
    ensures
        positions_of(names, chroms_seen(names)[a]).len() > 0,
        positions_of(names, chroms_seen(names)[b]).len() > 0,
        positions_of(names, chroms_seen(names)[a])[0] < positions_of(
            names,
            chroms_seen(names)[b],
        )[0],
    decreases names.len(),
{
    let front = names.drop_last();
    let next = names.last();
    let earlier = chroms_seen(front);
    let first = chroms_seen(names)[a];
    let second = chroms_seen(names)[b];
    assert(front.push(next) =~= names);
    lemma_positions_push(front, next, first);
    lemma_positions_push(front, next, second);
    // The chromosome at `a` was seen before the last record arrived.
    assert(earlier[a] == first);
    assert(earlier.contains(first));
    lemma_seen_contains(front, first);
    let at = choose|i: int| 0 <= i < front.len() && front[i] == first;
    lemma_positions_member(front, first, at as usize);
    lemma_positions_in_range(front, first);
    assert(positions_of(front, first).len() > 0);
    if b < earlier.len() {
        assert(earlier[b] == second);
        lemma_seen_in_order_of_first_record(front, a, b);
    } else {
        // The chromosome at `b` is that of the last record, which is its first.
        lemma_seen_contains(front, next);
        lemma_positions_of_absent(front, next);
    }
}

/// What becomes of one record.
#[derive(Debug, Clone, Copy, PartialEq, Eq, Structural)]
pub enum Route {
    /// The record lies on no kept chromosome and is written nowhere.
    Dropped,
    /// The record was written to the shard `shard`, which was made for it if
    /// `created` is set.
    Written { shard: usize, created: bool },
}

/// Looks up the reference sequence of the record at `record`, which cites
/// the index `tid`.
pub fn target_name<'a>(targets: &'a Vec<String>, record: usize, tid: i32) -> (name: Result<
    &'a str,
    RouteError,
>)
    ensures
        match name {
            Ok(n) => valid_tid(tid, targets@.len()) && n@ == targets@[tid as int]@,
            Err(e) => !valid_tid(tid, targets@.len()) && e == (RouteError::OutOfRangeReference {
                record,
                tid,
                targets: targets.len(),
            }),
        },
{
    if tid < 0 || tid as usize >= targets.len() {
        Err(RouteError::OutOfRangeReference { record, tid, targets: targets.len() })
    } else {
        Ok(targets[tid as usize].as_str())
    }
}

/// Routes the record at `position`, which cites the reference index `tid`:
/// drops it, or writes it to the shard of its chromosome.
pub fn route(pool: &mut WriterPool, targets: &Vec<String>, position: usize, tid: i32) -> (result:
    Result<Route, RouteError>)
    requires
        old(pool).wf(),
    ensures
        final(pool).wf(),
        final(pool).stem == old(pool).stem,
        match result {
            Err(e) => {
                &&& !valid_tid(tid, targets@.len())
                &&& e == (RouteError::OutOfRangeReference {
                    record: position,
                    tid,
                    targets: targets.len(),
                })
                &&& final(pool).shards@ == old(pool).shards@
            },
            Ok(Route::Dropped) => {
                &&& valid_tid(tid, targets@.len())
                &&& !is_kept(targets@[tid as int]@)
                &&& final(pool).shards@ == old(pool).shards@
            },
            Ok(Route::Written { shard, created }) => {
                let name = targets@[tid as int]@;
                let fresh: Seq<usize> = Seq::empty();
                &&& valid_tid(tid, targets@.len())
                &&& is_kept(name)
                &&& created == !old(pool).chroms().contains(name)
                &&& final(pool).chroms() == if created {
                    old(pool).chroms().push(name)
                } else {
                    old(pool).chroms()
                }
                &&& final(pool).shards@.len() == old(pool).shards@.len() + if created {
                    1nat
                } else {
                    0nat
                }
                &&& shard < final(pool).shards@.len()
                &&& created ==> shard == old(pool).shards@.len()
                &&& final(pool).chroms()[shard as int] == name
                &&& final(pool).shards@[shard as int].records@ == if created {
                    fresh.push(position)
                } else {
                    old(pool).shards@[shard as int].records@.push(position)
                }
                &&& forall|k: int|
                    0 <= k < old(pool).shards@.len() && k != shard ==> final(pool).shards@[k]
                        == old(pool).shards@[k]
            },
        },
{
    let name = match target_name(targets, position, tid) {
        Ok(name) => name,
        Err(e) => {
            return Err(e);
        },
    };
    if !keeps(name) {
        return Ok(Route::Dropped);
    }
    let (shard, created) = pool.get_or_create(name);
    let ghost made = pool.shards@;
    pool.append(shard, position);
    proof {
        if created {
            assert(made.drop_last() == old(pool).shards@);
            assert(pool.chroms() =~= old(pool).chroms().push(name@));
            assert forall|k: int|
                0 <= k < old(pool).shards@.len() && k != shard implies pool.shards@[k] == old(
                pool,
            ).shards@[k] by {
                assert(made.drop_last()[k] == made[k]);
            }
            assert(pool.shards@[shard as int].records@ =~= Seq::<usize>::empty().push(position));
        }
    }
    Ok(Route::Written { shard, created })
}

/// Sorts the records of one input by chromosome.
///
/// `stem` is the stem of the input's file name, `targets` its target table,
/// and `tids` the reference index of each record, in input order. The pass
/// succeeds if every record cites a position of the target table, and then
/// returns the shards as `sorted_by_chrom` describes them. Otherwise it fails
/// at the first record that does not.
pub fn run_bam_sort(stem: &str, targets: &Vec<String>, tids: &Vec<i32>) -> (result: Result<
    Vec<ChromShard>,
    RouteError,
>)
    ensures
        match result {
            Ok(shards) => {
                &&& all_valid(tids@, targets@.len())
                &&& sorted_by_chrom(shards@, stem@, reference_names(views(targets@), tids@))
            },
            Err(RouteError::OutOfRangeReference { record, tid, targets: n }) => {
                &&& first_invalid(tids@, targets@.len(), record as int)
                &&& tid == tids@[record as int]
                &&& n == targets.len()
            },
        },
{
    let mut pool = WriterPool::new(stem);
    let ghost names = reference_names(views(targets@), tids@);
    let mut i: usize = 0;
    while i < tids.len()
        invariant
            i <= tids@.len(),
            names == reference_names(views(targets@), tids@),
            forall|j: int| 0 <= j < i ==> valid_tid(#[trigger] tids@[j], targets@.len()),
            pool.wf(),
            pool.stem@ == stem@,
            pool.chroms() == chroms_seen(names.take(i as int)),
            forall|k: int|
                0 <= k < pool.shards@.len() ==> (#[trigger] pool.shards@[k]).records@
                    == positions_of(names.take(i as int), pool.shards@[k].chrom@),
        decreases tids@.len() - i,
    {
        let ghost before = pool.shards@;
        let ghost seen = names.take(i as int);
        match route(&mut pool, targets, i, tids[i]) {
            Err(e) => {
                return Err(e);
            },
            Ok(routed) => {
                proof {
                    let name = names[i as int];
                    assert(name == targets@[tids@[i as int] as int]@);
                    assert(names.take(i + 1) =~= seen.push(name));
                    lemma_seen_push(seen, name);
                    lemma_seen_contains(seen, name);
                    assert forall|k: int| 0 <= k < pool.shards@.len() implies (
                    #[trigger] pool.shards@[k]).records@ == positions_of(
                        seen.push(name),
                        pool.shards@[k].chrom@,
                    ) by {
                        let chrom = pool.shards@[k].chrom@;
                        assert(chrom == pool.chroms()[k]);
                        lemma_positions_push(seen, name, chrom);
                        match routed {
                            Route::Dropped => {
                                assert(chrom == chroms_seen(seen)[k]);
                                lemma_seen_contains(seen, chrom);
                            },
                            Route::Written { shard, created } => {
                                if k == shard {
                                    if created {
                                        lemma_positions_of_absent(seen, name);
                                    } else {
                                        assert(before[k].chrom@ == shard_chroms(before)[k]);
                                    }
                                } else {
                                    assert(pool.shards@[k] == before[k]);
                                    assert(before[k].chrom@ == shard_chroms(before)[k]);
                                    assert(pool.chroms()[shard as int] == name);
                                }
                            },
                        }
                    }
                }
            },
        }
        i += 1;
    }
    proof {
        assert(names.take(i as int) =~= names);
    }
    Ok(pool.shards)
}

/// A record on a reference sequence that is not kept lies in no shard.
pub proof fn dropped_records_are_in_no_shard(
    shards: Seq<ChromShard>,
    stem: Seq<char>,
    names: Seq<Seq<char>>,
    i: usize,
)
    requires
        names.len() <= usize::MAX,
        sorted_by_chrom(shards, stem, names),
        i < names.len(),
        !is_kept(names[i as int]),
    ensures
        forall|k: int| 0 <= k < shards.len() ==> !(#[trigger] shards[k]).records@.contains(i),
{
    assert forall|k: int| 0 <= k < shards.len() implies !(#[trigger] shards[k]).records@.contains(
        i,
    ) by {
        let chrom = shards[k].chrom@;
        assert(chrom == shard_chroms(shards)[k]);
        lemma_seen_contains(names, chrom);
        lemma_positions_member(names, chrom, i);
    }
}

/// A record on a kept chromosome lies in the shard of that chromosome, which
/// exists, and in no other.
pub proof fn kept_records_are_in_the_shard_of_their_chromosome(
    shards: Seq<ChromShard>,
    stem: Seq<char>,
    names: Seq<Seq<char>>,
    i: usize,
)
    requires
        names.len() <= usize::MAX,
        sorted_by_chrom(shards, stem, names),
        i < names.len(),
        is_kept(names[i as int]),
    ensures
        exists|k: int| 0 <= k < shards.len() && (#[trigger] shards[k]).chrom@ == names[i as int],
        forall|k: int|
            0 <= k < shards.len() ==> ((#[trigger] shards[k]).records@.contains(i)
                <==> shards[k].chrom@ == names[i as int]),
{
    let name = names[i as int];
    lemma_seen_contains(names, name);
    let found = choose|k: int| 0 <= k < shards.len() && shard_chroms(shards)[k] == name;
    assert(shards[found].chrom@ == name);
    assert forall|k: int| 0 <= k < shards.len() implies ((#[trigger] shards[k]).records@.contains(
        i,
    ) <==> shards[k].chrom@ == name) by {
        lemma_positions_member(names, shards[k].chrom@, i);
    }
}

/// A shard is made only for a kept chromosome that some record lies on, so
/// no shard is empty.
pub proof fn every_shard_holds_a_record(
    shards: Seq<ChromShard>,
    stem: Seq<char>,
    names: Seq<Seq<char>>,
    k: int,
)
    requires
        names.len() <= usize::MAX,
        sorted_by_chrom(shards, stem, names),
        0 <= k < shards.len(),
    ensures
        is_kept(shards[k].chrom@),
        names.contains(shards[k].chrom@),
        shards[k].records@.len() > 0,
{
    let chrom = shards[k].chrom@;
    assert(chrom == shard_chroms(shards)[k]);
    lemma_seen_contains(names, chrom);
    let i = choose|i: int| 0 <= i < names.len() && names[i] == chrom;
    lemma_positions_member(names, chrom, i as usize);
}

/// No chromosome has two shards, and no two shards have the same file name.
pub proof fn no_chromosome_has_two_shards(
    shards: Seq<ChromShard>,
    stem: Seq<char>,
    names: Seq<Seq<char>>,
)
    requires
        sorted_by_chrom(shards, stem, names),
    ensures
        forall|k: int, l: int|
            0 <= k < l < shards.len() ==> (#[trigger] shards[k]).chrom@ != (
            #[trigger] shards[l]).chrom@,
        forall|k: int, l: int|
            0 <= k < l < shards.len() ==> (#[trigger] shards[k]).file_name@ != (
            #[trigger] shards[l]).file_name@,
{
    lemma_seen_no_duplicates(names);
    assert forall|k: int, l: int| 0 <= k < l < shards.len() implies (#[trigger] shards[k]).chrom@
        != (#[trigger] shards[l]).chrom@ by {
        assert(shard_chroms(shards)[k] == shards[k].chrom@);
        assert(shard_chroms(shards)[l] == shards[l].chrom@);
    }
    assert forall|k: int, l: int| 0 <= k < l < shards.len() implies (
    #[trigger] shards[k]).file_name@ != (#[trigger] shards[l]).file_name@ by {
        lemma_bam_shard_names_differ(shards[k].chrom@, shards[l].chrom@, stem);
    }
}

/// The shards stand in the order in which their first records arrived.
pub proof fn shards_stand_in_order_of_first_record(
    shards: Seq<ChromShard>,
    stem: Seq<char>,
    names: Seq<Seq<char>>,
    k: int,
    l: int,
)
    requires
        names.len() <= usize::MAX,
        sorted_by_chrom(shards, stem, names),
        0 <= k < l < shards.len(),
    ensures
        shards[k].records@.len() > 0,
        shards[l].records@.len() > 0,
        shards[k].records@[0] < shards[l].records@[0],
{
    assert(shard_chroms(shards)[k] == shards[k].chrom@);
    assert(shard_chroms(shards)[l] == shards[l].chrom@);
    lemma_seen_in_order_of_first_record(names, k, l);
}

/// Within the shard of a chromosome the records keep the order of the input,
/// and none is written twice.
pub proof fn chromosome_shards_keep_the_order_of_the_input(
    shards: Seq<ChromShard>,
    stem: Seq<char>,
    names: Seq<Seq<char>>,
)
    requires
        names.len() <= usize::MAX,
        sorted_by_chrom(shards, stem, names),
    ensures
        forall|k: int, earlier: int, later: int|
            0 <= k < shards.len() && 0 <= earlier < later < shards[k].records@.len() ==> (
            #[trigger] shards[k].records@[earlier]) < (#[trigger] shards[k].records@[later]),
{
    assert forall|k: int, earlier: int, later: int|
        0 <= k < shards.len() && 0 <= earlier < later < shards[k].records@.len() implies (
    #[trigger] shards[k].records@[earlier]) < (#[trigger] shards[k].records@[later]) by {
        lemma_positions_increasing(names, shards[k].chrom@);
    }
}

} // verus!
