use vstd::prelude::*;
use vstd::seq_lib::{
    to_multiset_build, to_multiset_contains, to_multiset_insert, to_multiset_len, to_multiset_remove,
};

use crate::field::Field;
use crate::order::{
    ascending, law_built_is_search_tree, law_built_walk, lemma_built_payload, order_of, place_in,
};
use crate::table_index::TableIndex;
use crate::tree::{built, emitted, inorder};

verus! {

/// The place of `value` among the pairs: the number of pairs, from the
/// front, whose values are not above it.
pub open spec fn slot_for<T: Field>(pairs: Seq<(T, usize)>, value: T) -> int
    decreases pairs.len(),
{
    if pairs.len() == 0 || value.spec_less(pairs[0].0) {
        0
    } else {
        1 + slot_for(pairs.skip(1), value)
    }
}

/// The entries, each a value and the record that it refers to, in the order
/// of their values; entries with equal values keep the order in which they
/// stand.
pub open spec fn walk_entries<T: Field>(entries: Seq<(T, usize)>) -> Seq<(T, usize)>
    decreases entries.len(),
{
    if entries.len() == 0 {
        Seq::empty()
    } else {
        let before = walk_entries(entries.drop_last());
        before.insert(slot_for(before, entries.last().0), entries.last())
    }
}

/// The records that the pairs refer to, in their order; a pair that refers
/// to no record gives none.
pub open spec fn yielded<T>(pairs: Seq<(T, usize)>) -> Seq<usize>
    decreases pairs.len(),
{
    if pairs.len() == 0 {
        Seq::empty()
    } else if pairs[0].1 != 0 {
        seq![pairs[0].1] + yielded(pairs.skip(1))
    } else {
        yielded(pairs.skip(1))
    }
}

/// No two entries have the same value.
pub open spec fn distinct_values<T>(entries: Seq<(T, usize)>) -> bool {
    forall|i: int, j: int|
        0 <= i < j < entries.len() ==> (#[trigger] entries[i]).0 != (#[trigger] entries[j]).0
}

/// Every pair has a smaller value than the pairs behind it.
pub open spec fn strictly_rising<T: Field>(pairs: Seq<(T, usize)>) -> bool {
    forall|i: int, j: int|
        0 <= i < j < pairs.len() ==> (#[trigger] pairs[i]).0.spec_less((#[trigger] pairs[j]).0)
}

/// The place of a value lies within the pairs.
pub proof fn lemma_slot_for_range<T: Field>(pairs: Seq<(T, usize)>, value: T)
    ensures
        0 <= slot_for(pairs, value) <= pairs.len(),
    decreases pairs.len(),
{
    if pairs.len() > 0 {
        lemma_slot_for_range(pairs.skip(1), value);
    }
}

/// Where the pairs hold the values of the entries with the numbers `ids`, a
/// value has the same place among the pairs as among these entries.
pub proof fn lemma_slot_for<T: Field>(
    entries: Seq<(T, usize)>,
    ids: Seq<usize>,
    pairs: Seq<(T, usize)>,
    value: T,
)
    requires
        ids.len() == pairs.len(),
        forall|k: int| 0 <= k < ids.len() ==> (#[trigger] pairs[k]).0 == entries[ids[k] - 1].0,
    ensures
        place_in(entries, ids, value) == slot_for(pairs, value),
    decreases ids.len(),
{
    if ids.len() > 0 {
        let fewer = ids.skip(1);
        let rest = pairs.skip(1);
        assert(pairs[0].0 == entries[ids[0] - 1].0);
        assert forall|k: int| 0 <= k < fewer.len() implies (#[trigger] rest[k]).0 == entries[fewer[k]
            - 1].0 by {
            assert(rest[k] == pairs[k + 1]);
            assert(fewer[k] == ids[k + 1]);
        }
        lemma_slot_for(entries, fewer, rest, value);
    }
}

/// The entries in the order of their values are the entries with the
/// numbers that `order_of` gives, and no number comes twice.
pub proof fn lemma_walk_entries<T: Field>(entries: Seq<(T, usize)>)
    requires
        entries.len() <= usize::MAX,
    ensures
        order_of(entries).len() == entries.len(),
        walk_entries(entries).len() == entries.len(),
        forall|k: int|
            0 <= k < entries.len() ==> 0 < #[trigger] order_of(entries)[k] <= entries.len(),
        forall|k: int|
            0 <= k < entries.len() ==> #[trigger] walk_entries(entries)[k] == entries[order_of(
                entries,
            )[k] - 1],
        forall|i: int, j: int|
            0 <= i < j < entries.len() ==> #[trigger] order_of(entries)[i] != #[trigger] order_of(
                entries,
            )[j],
    decreases entries.len(),
{
    if entries.len() > 0 {
        let fewer = entries.drop_last();
        let last = entries.last();
        let ids = order_of(fewer);
        let pairs = walk_entries(fewer);
        lemma_walk_entries(fewer);
        assert forall|k: int| 0 <= k < ids.len() implies (#[trigger] pairs[k]).0 == entries[ids[k]
            - 1].0 by {
            assert(0 < ids[k] <= fewer.len());
            assert(fewer[ids[k] - 1] == entries[ids[k] - 1]);
        }
        lemma_slot_for(entries, ids, pairs, last.0);
        lemma_slot_for_range(pairs, last.0);
        let at = slot_for(pairs, last.0);
        let fresh = entries.len() as usize;
        let more_ids = order_of(entries);
        let more_pairs = walk_entries(entries);
        assert(more_ids == ids.insert(at, fresh));
        assert(more_pairs == pairs.insert(at, last));
        assert forall|k: int| 0 <= k < entries.len() implies 0 < #[trigger] more_ids[k]
            <= entries.len() && more_pairs[k] == entries[more_ids[k] - 1] && (k < at ==> more_ids[k]
            == ids[k]) && (k > at ==> more_ids[k] == ids[k - 1]) && (k == at ==> more_ids[k]
            == fresh) by {
            if k < at {
                assert(more_ids[k] == ids[k]);
                assert(more_pairs[k] == pairs[k]);
                assert(fewer[ids[k] - 1] == entries[ids[k] - 1]);
            } else if k > at {
                assert(more_ids[k] == ids[k - 1]);
                assert(more_pairs[k] == pairs[k - 1]);
                assert(fewer[ids[k - 1] - 1] == entries[ids[k - 1] - 1]);
            } else {
                assert(more_ids[k] == fresh);
                assert(more_pairs[k] == last);
            }
        }
        assert forall|i: int, j: int| 0 <= i < j < entries.len() implies #[trigger] more_ids[i]
            != #[trigger] more_ids[j] by {
            let a = if i < at { i } else { i - 1 };
            let b = if j < at { j } else { j - 1 };
            if i != at && j != at {
                assert(more_ids[i] == ids[a]);
                assert(more_ids[j] == ids[b]);
                assert(ids[a] != ids[b]);
            } else if i == at {
                assert(more_ids[j] == ids[b]);
                assert(0 < ids[b] <= fewer.len());
            } else {
                assert(more_ids[i] == ids[a]);
                assert(0 < ids[a] <= fewer.len());
            }
        }
    }
}

/// Where the pairs hold the records of the nodes `ids`, a walk over the
/// nodes without an upper bound yields the records of the pairs.
pub proof fn lemma_yielded<T: Field>(nodes: Seq<TableIndex<T>>, ids: Seq<usize>, pairs: Seq<(T, usize)>)
    requires
        ids.len() == pairs.len(),
        forall|k: int| 0 <= k < ids.len() ==> (#[trigger] pairs[k]).1 == nodes[ids[k] - 1].table_id,
    ensures
        emitted(nodes, ids, None) == yielded(pairs),
    decreases ids.len(),
{
    if ids.len() > 0 {
        let fewer = ids.skip(1);
        let rest = pairs.skip(1);
        assert(pairs[0].1 == nodes[ids[0] - 1].table_id);
        assert forall|k: int| 0 <= k < fewer.len() implies (#[trigger] rest[k]).1 == nodes[fewer[k]
            - 1].table_id by {
            assert(rest[k] == pairs[k + 1]);
            assert(fewer[k] == ids[k + 1]);
        }
        lemma_yielded(nodes, fewer, rest);
    }
}

/// The entries in the order of their values are the entries, each as often
/// as it stands among them.
pub proof fn lemma_walk_entries_same<T: Field>(entries: Seq<(T, usize)>)
    ensures
        walk_entries(entries).to_multiset() == entries.to_multiset(),
    decreases entries.len(),
{
    if entries.len() > 0 {
        let fewer = entries.drop_last();
        let last = entries.last();
        let pairs = walk_entries(fewer);
        assert(entries =~= fewer.push(last));
        lemma_walk_entries_same(fewer);
        lemma_slot_for_range(pairs, last.0);
        to_multiset_insert(pairs, slot_for(pairs, last.0), last);
        to_multiset_build(fewer, last);
    } else {
        assert(entries =~= Seq::<(T, usize)>::empty());
    }
}

/// Of entries with distinct values, those in the order of their values have
/// strictly rising values.
pub proof fn lemma_walk_entries_rising<T: Field>(entries: Seq<(T, usize)>)
    requires
        entries.len() <= usize::MAX,
        distinct_values(entries),
    ensures
        strictly_rising(walk_entries(entries)),
{
    let nodes = built(entries);
    let ids = order_of(entries);
    let pairs = walk_entries(entries);
    lemma_walk_entries(entries);
    law_built_is_search_tree(entries);
    law_built_walk(entries);
    lemma_built_payload(entries);
    assert forall|i: int, j: int| 0 <= i < j < pairs.len() implies (#[trigger] pairs[i]).0.spec_less(
        (#[trigger] pairs[j]).0,
    ) by {
        let a = ids[i] - 1;
        let b = ids[j] - 1;
        assert(0 < ids[i] <= entries.len() && 0 < ids[j] <= entries.len());
        assert(ids[i] != ids[j]);
        assert(pairs[i] == entries[a] && pairs[j] == entries[b]);
        assert(nodes[a].value == entries[a].0 && nodes[b].value == entries[b].0);
        assert(!nodes[ids[j] - 1].value.spec_less(nodes[ids[i] - 1].value));
        if a < b {
            assert(entries[a].0 != entries[b].0);
        } else {
            assert(entries[b].0 != entries[a].0);
        }
        T::lemma_total_order(entries[a].0, entries[b].0, entries[a].0);
    }
}

/// Two runs of pairs with strictly rising values that hold the same pairs
/// are the same run.
pub proof fn lemma_rising_unique<T: Field>(p: Seq<(T, usize)>, q: Seq<(T, usize)>)
    requires
        strictly_rising(p),
        strictly_rising(q),
        p.to_multiset() == q.to_multiset(),
    ensures
        p == q,
    decreases p.len(),
{
    to_multiset_len(p);
    to_multiset_len(q);
    if p.len() == 0 {
        assert(p =~= q);
    } else {
        to_multiset_contains(p, p[0]);
        to_multiset_contains(q, p[0]);
        to_multiset_contains(p, q[0]);
        to_multiset_contains(q, q[0]);
        assert(p.contains(p[0]));
        assert(q.contains(q[0]));
        let k = choose|k: int| 0 <= k < q.len() && q[k] == p[0];
        let m = choose|m: int| 0 <= m < p.len() && p[m] == q[0];
        if k > 0 {
            assert(q[0].0.spec_less(q[k].0));
            if m > 0 {
                assert(p[0].0.spec_less(p[m].0));
            }
            T::lemma_total_order(q[0].0, p[0].0, q[0].0);
            T::lemma_total_order(q[0].0, q[0].0, q[0].0);
        }
        assert(p[0] == q[0]);
        to_multiset_remove(p, 0);
        to_multiset_remove(q, 0);
        assert(p.remove(0) =~= p.skip(1));
        assert(q.remove(0) =~= q.skip(1));
        let rest = p.skip(1);
        let other = q.skip(1);
        assert forall|i: int, j: int| 0 <= i < j < rest.len() implies (#[trigger] rest[i]).0.spec_less(
            (#[trigger] rest[j]).0,
        ) by {
            assert(rest[i] == p[i + 1] && rest[j] == p[j + 1]);
        }
        assert forall|i: int, j: int| 0 <= i < j < other.len() implies (#[trigger] other[i]).0.spec_less(
            (#[trigger] other[j]).0,
        ) by {
            assert(other[i] == q[i + 1] && other[j] == q[j + 1]);
        }
        lemma_rising_unique(rest, other);
        assert(p =~= seq![p[0]] + rest);
        assert(q =~= seq![q[0]] + other);
    }
}

/// A walk over an index that was built by adding yields the records of the
/// entries in the order of their values.
pub proof fn law_built_yield<T: Field>(entries: Seq<(T, usize)>)
    requires
        entries.len() <= usize::MAX,
    ensures
        emitted(built(entries), inorder(built(entries), 1), None) == yielded(walk_entries(entries)),
{
    let nodes = built(entries);
    let ids = order_of(entries);
    let pairs = walk_entries(entries);
    lemma_walk_entries(entries);
    law_built_walk(entries);
    lemma_built_payload(entries);
    assert forall|k: int| 0 <= k < ids.len() implies (#[trigger] pairs[k]).1 == nodes[ids[k]
        - 1].table_id by {
        assert(0 < ids[k] <= entries.len());
        assert(nodes[ids[k] - 1].table_id == entries[ids[k] - 1].1);
    }
    lemma_yielded(nodes, ids, pairs);
}

/// The same entries with distinct values, added in two orders, give two
/// indexes over which a walk yields the same records in the same order: the
/// trees may differ in shape, the walks do not.
pub proof fn law_walk_any_order<T: Field>(first: Seq<(T, usize)>, second: Seq<(T, usize)>)
    requires
        first.len() <= usize::MAX,
        first.to_multiset() == second.to_multiset(),
        distinct_values(first),
        distinct_values(second),
    ensures
        walk_entries(first) == walk_entries(second),
        emitted(built(first), inorder(built(first), 1), None) == emitted(
            built(second),
            inorder(built(second), 1),
            None,
        ),
{
    to_multiset_len(first);
    to_multiset_len(second);
    lemma_walk_entries_same(first);
    lemma_walk_entries_same(second);
    lemma_walk_entries_rising(first);
    lemma_walk_entries_rising(second);
    lemma_rising_unique(walk_entries(first), walk_entries(second));
    law_built_yield(first);
    law_built_yield(second);
}

} // verus!
