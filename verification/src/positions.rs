//! Which records of an input carry a given label, and in what order.
//!
//! Both routing operations give every record a label (a bucket index, a
//! chromosome name) and collect, for each label, the positions of the records
//! that carry it. `positions_of` is the model of such a collection; the lemmas
//! say what makes it a partition of the input that keeps the input's order.

use vstd::prelude::*;

verus! {

/// The positions in `labels` at which `label` stands, in increasing order.
pub open spec fn positions_of<L>(labels: Seq<L>, label: L) -> Seq<usize>
    decreases labels.len(),
{
    if labels.len() == 0 {
        Seq::empty()
    } else {
        let earlier = positions_of(labels.drop_last(), label);
        if labels.last() == label {
            earlier.push((labels.len() - 1) as usize)
        } else {
            earlier
        }
    }
}

/// The number of positions held by a list of shards.
pub open spec fn total_len(shards: Seq<Seq<usize>>) -> nat
    decreases shards.len(),
{
    if shards.len() == 0 {
        0
    } else {
        total_len(shards.drop_last()) + shards.last().len()
    }
}

/// How `positions_of` grows when one more record arrives.
pub proof fn lemma_positions_push<L>(labels: Seq<L>, next: L, label: L)
    ensures
        positions_of(labels.push(next), label) == if next == label {
            positions_of(labels, label).push(labels.len() as usize)
        } else {
            positions_of(labels, label)
        },
{
    assert(labels.push(next).drop_last() =~= labels);
}

/// Every position that `positions_of` lists lies inside the input.
pub proof fn lemma_positions_in_range<L>(labels: Seq<L>, label: L)
    requires
        labels.len() <= usize::MAX,
    ensures
        positions_of(labels, label).len() <= labels.len(),
        forall|k: int|
            0 <= k < positions_of(labels, label).len() ==> (#[trigger] positions_of(
                labels,
                label,
            )[k]) < labels.len(),
    decreases labels.len(),
{
    if labels.len() > 0 {
        lemma_positions_in_range(labels.drop_last(), label);
    }
}

/// A position is listed exactly when the record at that position carries the
/// label.
pub proof fn lemma_positions_member<L>(labels: Seq<L>, label: L, i: usize)
    requires
        labels.len() <= usize::MAX,
    ensures
        positions_of(labels, label).contains(i) <==> (i < labels.len() && labels[i as int]
            == label),
    decreases labels.len(),
{
    if labels.len() > 0 {
        let earlier = positions_of(labels.drop_last(), label);
        let last = (labels.len() - 1) as usize;
        lemma_positions_member(labels.drop_last(), label, i);
        if labels.last() == label {
            let all = earlier.push(last);
            assert(all[earlier.len() as int] == last);
            if earlier.contains(i) {
                let k = choose|k: int| 0 <= k < earlier.len() && earlier[k] == i;
                assert(all[k] == i);
            }
            if all.contains(i) {
                let k = choose|k: int| 0 <= k < all.len() && all[k] == i;
                if k < earlier.len() {
                    assert(earlier[k] == i);
                }
            }
        }
    }
}

/// The listed positions increase strictly: records keep the order they had in
/// the input, and none is listed twice.
pub proof fn lemma_positions_increasing<L>(labels: Seq<L>, label: L)
    requires
        labels.len() <= usize::MAX,
    ensures
        forall|a: int, b: int|
            0 <= a < b < positions_of(labels, label).len() ==> (#[trigger] positions_of(
                labels,
                label,
            )[a]) < (#[trigger] positions_of(labels, label)[b]),
    decreases labels.len(),
{
    if labels.len() > 0 {
        lemma_positions_increasing(labels.drop_last(), label);
        lemma_positions_in_range(labels.drop_last(), label);
    }
}

/// A label that no record carries has no positions.
pub proof fn lemma_positions_of_absent<L>(labels: Seq<L>, label: L)
    requires
        !labels.contains(label),
    ensures
        positions_of(labels, label) == Seq::<usize>::empty(),
    decreases labels.len(),
{
    if labels.len() > 0 {
        assert(labels[labels.len() - 1] == labels.last());
        assert forall|l: L| labels.drop_last().contains(l) implies labels.contains(l) by {
            let k = choose|k: int| 0 <= k < labels.drop_last().len() && labels.drop_last()[k] == l;
            assert(labels[k] == l);
        }
        lemma_positions_of_absent(labels.drop_last(), label);
    }
}

/// The number of records that carry one of the labels `0`, ..., `labels_end - 1`.
pub open spec fn count_below(labels: Seq<usize>, labels_end: nat) -> nat
    decreases labels_end,
{
    if labels_end == 0 {
        0
    } else {
        count_below(labels, (labels_end - 1) as nat) + positions_of(
            labels,
            (labels_end - 1) as usize,
        ).len()
    }
}

/// One more record adds one to the count if its label is below the end, and
/// nothing otherwise.
pub proof fn lemma_count_below_push(labels: Seq<usize>, next: usize, labels_end: nat)
    requires
        labels_end <= usize::MAX + 1,
    ensures
        count_below(labels.push(next), labels_end) == count_below(labels, labels_end) + if next
            < labels_end {
            1nat
        } else {
            0nat
        },
    decreases labels_end,
{
    if labels_end > 0 {
        lemma_count_below_push(labels, next, (labels_end - 1) as nat);
        lemma_positions_push(labels, next, (labels_end - 1) as usize);
    }
}

/// Where every label lies below the end, the positions of all labels
/// together are as many as the records.
pub proof fn lemma_count_below_all(labels: Seq<usize>, labels_end: nat)
    requires
        labels_end <= usize::MAX + 1,
        forall|i: int| 0 <= i < labels.len() ==> #[trigger] labels[i] < labels_end,
    ensures
        count_below(labels, labels_end) == labels.len(),
    decreases labels.len(),
{
    if labels.len() == 0 {
        assert(labels =~= Seq::<usize>::empty());
        lemma_count_below_none(labels_end);
    } else {
        let front = labels.drop_last();
        assert forall|i: int| 0 <= i < front.len() implies #[trigger] front[i] < labels_end by {
            assert(front[i] == labels[i]);
        }
        assert(labels.last() == labels[labels.len() - 1]);
        lemma_count_below_all(front, labels_end);
        lemma_count_below_push(front, labels.last(), labels_end);
        assert(front.push(labels.last()) =~= labels);
    }
}

/// Without records, no label has a position.
pub proof fn lemma_count_below_none(labels_end: nat)
    ensures
        count_below(Seq::<usize>::empty(), labels_end) == 0,
    decreases labels_end,
{
    if labels_end > 0 {
        lemma_count_below_none((labels_end - 1) as nat);
    }
}

/// The positions held by shards that are the positions of the labels `0`,
/// ..., `shards.len() - 1`, in this order, are counted by `count_below`.
pub proof fn lemma_total_len_is_count(shards: Seq<Seq<usize>>, labels: Seq<usize>)
    requires
        shards.len() <= usize::MAX + 1,
        forall|b: int|
            0 <= b < shards.len() ==> #[trigger] shards[b] == positions_of(labels, b as usize),
    ensures
        total_len(shards) == count_below(labels, shards.len()),
    decreases shards.len(),
{
    if shards.len() > 0 {
        lemma_total_len_is_count(shards.drop_last(), labels);
    }
}

} // verus!
