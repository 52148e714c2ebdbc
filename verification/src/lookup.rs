use vstd::prelude::*;

use crate::field::Field;
use crate::table_index::TableIndex;
use crate::tree::{
    added, attach_point, built, emitted, excluded, first_with_target, holders, lemma_added_linked,
    lemma_attach_point_bounds, lemma_built_linked, linked, records_for, room_below, toward,
    with_child,
};

verus! {

/// `s` without the first occurrence of `x`.
pub open spec fn without_first(s: Seq<usize>, x: usize) -> Seq<usize>
    decreases s.len(),
{
    if s.len() == 0 {
        s
    } else if s[0] == x {
        s.skip(1)
    } else {
        seq![s[0]] + without_first(s.skip(1), x)
    }
}

/// The identities never decrease, and each is that of a node.
pub open spec fn rising(ids: Seq<usize>, count: nat) -> bool {
    &&& forall|i: int| 0 <= i < ids.len() ==> 0 < #[trigger] ids[i] <= count
    &&& forall|i: int, j: int| 0 <= i < j < ids.len() ==> #[trigger] ids[i] < #[trigger] ids[j]
}

/// Two indexes have the same tree: the same nodes with the same values and
/// children. The records that the nodes refer to may differ.
pub open spec fn same_shape<T>(a: Seq<TableIndex<T>>, b: Seq<TableIndex<T>>) -> bool {
    &&& a.len() == b.len()
    &&& forall|i: int|
        0 <= i < a.len() ==> {
            &&& (#[trigger] a[i]).id == b[i].id
            &&& a[i].value == b[i].value
            &&& a[i].left == b[i].left
            &&& a[i].right == b[i].right
        }
}

/// The nodes that hold a value on the way down come in the order of their
/// identities, from `id` on, and all of them hold the value.
pub proof fn lemma_holders_rising<T: Field>(nodes: Seq<TableIndex<T>>, value: T, id: usize)
    requires
        linked(nodes),
    ensures
        rising(holders(nodes, value, id), nodes.len()),
        forall|i: int|
            0 <= i < holders(nodes, value, id).len() ==> id <= #[trigger] holders(nodes, value, id)[i],
        forall|i: int|
            0 <= i < holders(nodes, value, id).len() ==> nodes[holders(nodes, value, id)[i] - 1].value
                == value,
    decreases room_below(nodes.len(), id),
{
    if 0 < id <= nodes.len() {
        lemma_holders_rising(nodes, value, toward(nodes[id - 1], value));
    }
}

/// The same tree holds a value at the same nodes.
pub proof fn lemma_holders_same_shape<T: Field>(
    a: Seq<TableIndex<T>>,
    b: Seq<TableIndex<T>>,
    value: T,
    id: usize,
)
    requires
        same_shape(a, b),
        linked(a),
    ensures
        linked(b),
        holders(a, value, id) == holders(b, value, id),
    decreases room_below(a.len(), id),
{
    assert forall|i: int| 0 <= i < b.len() implies {
        &&& (#[trigger] b[i]).id == i + 1
        &&& (b[i].left == 0 || i + 1 < b[i].left <= b.len())
        &&& (b[i].right == 0 || i + 1 < b[i].right <= b.len())
    } by {
        assert(a[i].id == b[i].id);
    }
    if 0 < id <= a.len() {
        assert(a[id - 1].value == b[id - 1].value);
        lemma_holders_same_shape(a, b, value, toward(a[id - 1], value));
    }
}

/// What a walk yields depends only on the values and records of the nodes
/// that it visits.
pub proof fn lemma_emitted_same_nodes<T: Field>(
    a: Seq<TableIndex<T>>,
    b: Seq<TableIndex<T>>,
    ids: Seq<usize>,
    upper: Option<T>,
)
    requires
        forall|i: int|
            0 <= i < ids.len() ==> a[#[trigger] ids[i] - 1].value == b[ids[i] - 1].value && a[ids[i]
                - 1].table_id == b[ids[i] - 1].table_id,
    ensures
        emitted(a, ids, upper) == emitted(b, ids, upper),
    decreases ids.len(),
{
    if ids.len() > 0 {
        let rest = ids.skip(1);
        assert(a[ids[0] - 1].value == b[ids[0] - 1].value);
        assert forall|i: int| 0 <= i < rest.len() implies a[#[trigger] rest[i] - 1].value == b[rest[i]
            - 1].value && a[rest[i] - 1].table_id == b[rest[i] - 1].table_id by {
            assert(rest[i] == ids[i + 1]);
        }
        lemma_emitted_same_nodes(a, b, rest, upper);
    }
}

/// One more node at the end of a walk without an upper bound adds its record
/// at the end, if it was not excluded.
pub proof fn lemma_emitted_push<T: Field>(nodes: Seq<TableIndex<T>>, ids: Seq<usize>, id: usize)
    ensures
        emitted(nodes, ids.push(id), None) == emitted(nodes, ids, None) + (if nodes[id - 1].table_id != 0 {
            seq![nodes[id - 1].table_id]
        } else {
            Seq::empty()
        }),
    decreases ids.len(),
{
    let more = ids.push(id);
    if ids.len() == 0 {
        assert(more.skip(1) =~= Seq::<usize>::empty());
        assert(emitted(nodes, more.skip(1), None::<T>) =~= Seq::<usize>::empty());
        assert(emitted(nodes, more, None::<T>) =~= emitted(nodes, ids, None) + (if nodes[id - 1].table_id
            != 0 {
            seq![nodes[id - 1].table_id]
        } else {
            Seq::empty()
        }));
    } else {
        assert(more.skip(1) =~= ids.skip(1).push(id));
        assert(more[0] == ids[0]);
        lemma_emitted_push(nodes, ids.skip(1), id);
        assert(emitted(nodes, more, None::<T>) =~= emitted(nodes, ids, None) + (if nodes[id - 1].table_id
            != 0 {
            seq![nodes[id - 1].table_id]
        } else {
            Seq::empty()
        }));
    }
}

/// After `value` was added, the way down toward it meets the nodes that
/// held it before, and then the new node.
pub proof fn lemma_holders_added<T: Field>(nodes: Seq<TableIndex<T>>, value: T, target: usize, id: usize)
    requires
        linked(nodes),
        nodes.len() < usize::MAX,
        0 < id <= nodes.len(),
        attach_point(nodes, value, id) == attach_point(nodes, value, 1),
    ensures
        holders(added(nodes, value, target), value, id) == holders(nodes, value, id).push(
            (nodes.len() + 1) as usize,
        ),
    decreases nodes.len() - id,
{
    let after = added(nodes, value, target);
    let fresh = (nodes.len() + 1) as usize;
    let parent = attach_point(nodes, value, 1);
    lemma_added_linked(nodes, value, target);
    lemma_attach_point_bounds(nodes, value, 1);
    T::lemma_total_order(value, value, value);
    let next = toward(nodes[id - 1], value);
    if next != 0 {
        assert(id != parent);
        assert(after[id - 1] == nodes[id - 1]);
        lemma_holders_added(nodes, value, target, next);
        assert(holders(after, value, id) =~= holders(nodes, value, id).push(fresh));
    } else {
        assert(id == parent);
        assert(after[id - 1] == with_child(nodes[id - 1], value, fresh));
        assert(toward(after[id - 1], value) == fresh);
        assert(after[fresh - 1].value == value);
        assert(toward(after[fresh - 1], value) == 0);
        assert(holders(after, value, 0) =~= Seq::<usize>::empty());
        assert(holders(after, value, fresh) =~= seq![fresh]);
        assert(holders(nodes, value, 0) =~= Seq::<usize>::empty());
        assert(holders(after, value, id) =~= holders(nodes, value, id).push(fresh));
    }
}

/// After `value` was added, the way down toward another value meets the
/// nodes that held that value before.
pub proof fn lemma_holders_added_other<T: Field>(
    nodes: Seq<TableIndex<T>>,
    value: T,
    target: usize,
    other: T,
    id: usize,
)
    requires
        linked(nodes),
        nodes.len() < usize::MAX,
        nodes.len() > 0,
        other != value,
        id <= nodes.len(),
    ensures
        holders(added(nodes, value, target), other, id) == holders(nodes, other, id),
    decreases room_below(nodes.len(), id),
{
    let after = added(nodes, value, target);
    let fresh = (nodes.len() + 1) as usize;
    let parent = attach_point(nodes, value, 1);
    lemma_added_linked(nodes, value, target);
    lemma_attach_point_bounds(nodes, value, 1);
    if id > 0 {
        let next = toward(after[id - 1], other);
        if id != parent {
            assert(after[id - 1] == nodes[id - 1]);
            lemma_holders_added_other(nodes, value, target, other, next);
        } else {
            assert(after[id - 1] == with_child(nodes[id - 1], value, fresh));
            if next == fresh {
                assert(toward(nodes[id - 1], other) == 0);
                assert(after[fresh - 1].value == value);
                assert(toward(after[fresh - 1], other) == 0);
                assert(holders(after, other, 0) =~= Seq::<usize>::empty());
                assert(holders(after, other, fresh) =~= Seq::<usize>::empty());
                assert(holders(nodes, other, 0) =~= Seq::<usize>::empty());
            } else {
                assert(next == toward(nodes[id - 1], other));
                lemma_holders_added_other(nodes, value, target, other, next);
            }
        }
    } else {
        assert(holders(after, other, 0) =~= holders(nodes, other, 0));
    }
}

/// After a value was added for a record, a search for the value yields what
/// it yielded before and then the record; a node added for no record yields
/// nothing. A search for any other value yields what it yielded before.
pub proof fn law_add_then_search<T: Field>(nodes: Seq<TableIndex<T>>, value: T, target: usize, other: T)
    requires
        linked(nodes),
        nodes.len() < usize::MAX,
    ensures
        target != 0 ==> records_for(added(nodes, value, target), value) == records_for(nodes, value).push(
            target,
        ),
        target == 0 ==> records_for(added(nodes, value, target), value) == records_for(nodes, value),
        other != value ==> records_for(added(nodes, value, target), other) == records_for(nodes, other),
{
    let after = added(nodes, value, target);
    let fresh = (nodes.len() + 1) as usize;
    lemma_added_linked(nodes, value, target);
    T::lemma_total_order(value, value, value);
    if nodes.len() == 0 {
        assert(after[0].value == value);
        assert(toward(after[0], value) == 0);
        assert(holders(after, value, 0) =~= Seq::<usize>::empty());
        assert(holders(after, value, 1) =~= seq![1usize]);
        assert(holders(nodes, value, 1) =~= Seq::<usize>::empty());
        assert(holders(nodes, value, 1).push(fresh) =~= holders(after, value, 1));
        if other != value {
            assert(toward(after[0], other) == 0);
            assert(holders(after, other, 0) =~= Seq::<usize>::empty());
            assert(holders(after, other, 1) =~= Seq::<usize>::empty());
            assert(holders(nodes, other, 1) =~= Seq::<usize>::empty());
        }
    } else {
        lemma_holders_added(nodes, value, target, 1);
        lemma_attach_point_bounds(nodes, value, 1);
        if other != value {
            lemma_holders_added_other(nodes, value, target, other, 1);
        }
    }
    let before_ids = holders(nodes, value, 1);
    lemma_holders_rising(nodes, value, 1);
    assert forall|i: int| 0 <= i < before_ids.len() implies after[#[trigger] before_ids[i] - 1].value
        == nodes[before_ids[i] - 1].value && after[before_ids[i] - 1].table_id == nodes[before_ids[i]
        - 1].table_id by {
        let k = before_ids[i];
        assert(0 < k <= nodes.len());
    }
    lemma_emitted_same_nodes(after, nodes, before_ids, None);
    lemma_emitted_push(after, before_ids, fresh);
    assert(after[fresh - 1].table_id == target);
    if target == 0 {
        assert(records_for(after, value) =~= records_for(nodes, value));
    }
    if other != value {
        let other_ids = holders(nodes, other, 1);
        lemma_holders_rising(nodes, other, 1);
        assert forall|i: int| 0 <= i < other_ids.len() implies after[#[trigger] other_ids[i] - 1].value
            == nodes[other_ids[i] - 1].value && after[other_ids[i] - 1].table_id == nodes[other_ids[i]
            - 1].table_id by {
            let k = other_ids[i];
            assert(0 < k <= nodes.len());
        }
        lemma_emitted_same_nodes(after, nodes, other_ids, None);
    }
}

/// The first node that refers to a record is one of the nodes, and it does
/// refer to the record.
pub proof fn lemma_first_with_target<T>(nodes: Seq<TableIndex<T>>, ids: Seq<usize>, target: usize)
    requires
        forall|i: int| 0 <= i < ids.len() ==> 0 < #[trigger] ids[i],
    ensures
        first_with_target(nodes, ids, target) != 0 ==> ids.contains(first_with_target(nodes, ids, target))
            && nodes[first_with_target(nodes, ids, target) - 1].table_id == target,
        first_with_target(nodes, ids, target) == 0 ==> forall|i: int|
            0 <= i < ids.len() ==> nodes[#[trigger] ids[i] - 1].table_id != target,
    decreases ids.len(),
{
    if ids.len() > 0 {
        let rest = ids.skip(1);
        assert(ids[0] > 0);
        assert forall|i: int| 0 <= i < rest.len() implies 0 < #[trigger] rest[i] by {
            assert(rest[i] == ids[i + 1]);
        }
        lemma_first_with_target(nodes, rest, target);
        let found = first_with_target(nodes, ids, target);
        if nodes[ids[0] - 1].table_id != target {
            if found != 0 {
                let k = choose|k: int| 0 <= k < rest.len() && rest[k] == found;
                assert(ids[k + 1] == found);
            } else {
                assert forall|i: int| 0 <= i < ids.len() implies nodes[#[trigger] ids[i] - 1].table_id
                    != target by {
                    if i > 0 {
                        assert(rest[i - 1] == ids[i]);
                    }
                }
            }
        } else {
            assert(ids[0] == found);
        }
    }
}

/// Where the first of the visited nodes that refers to a record is made to
/// refer to none, the walk yields what it yielded before, without the first
/// occurrence of the record.
pub proof fn lemma_emitted_cleared<T: Field>(nodes: Seq<TableIndex<T>>, ids: Seq<usize>, target: usize)
    requires
        target != 0,
        rising(ids, nodes.len()),
    ensures
        ({
            let id = first_with_target(nodes, ids, target);
            let after = if id == 0 {
                nodes
            } else {
                nodes.update(id - 1, TableIndex { table_id: 0, ..nodes[id - 1] })
            };
            emitted(after, ids, None) == without_first(emitted(nodes, ids, None), target)
        }),
    decreases ids.len(),
{
    let id = first_with_target(nodes, ids, target);
    let after = if id == 0 {
        nodes
    } else {
        nodes.update(id - 1, TableIndex { table_id: 0, ..nodes[id - 1] })
    };
    if ids.len() > 0 {
        let rest = ids.skip(1);
        assert(0 < ids[0] <= nodes.len());
        assert forall|i: int| 0 <= i < rest.len() implies 0 < #[trigger] rest[i] <= nodes.len() && ids[0]
            < rest[i] by {
            assert(rest[i] == ids[i + 1]);
        }
        assert forall|i: int, j: int| 0 <= i < j < rest.len() implies #[trigger] rest[i]
            < #[trigger] rest[j] by {
            assert(rest[i] == ids[i + 1]);
            assert(rest[j] == ids[j + 1]);
        }
        if nodes[ids[0] - 1].table_id == target {
            assert(id == ids[0]);
            assert forall|i: int| 0 <= i < rest.len() implies after[#[trigger] rest[i] - 1].value
                == nodes[rest[i] - 1].value && after[rest[i] - 1].table_id == nodes[rest[i]
                - 1].table_id by {
                assert(ids[0] < rest[i]);
            }
            lemma_emitted_same_nodes(after, nodes, rest, None);
            let all = emitted(nodes, ids, None::<T>);
            assert(all[0] == target);
            assert(all.skip(1) =~= emitted(nodes, rest, None::<T>));
        } else {
            lemma_emitted_cleared(nodes, rest, target);
            lemma_first_with_target(nodes, rest, target);
            assert(id == first_with_target(nodes, rest, target));
            if id != 0 {
                let k = choose|k: int| 0 <= k < rest.len() && rest[k] == id;
                assert(ids[0] < rest[k]);
            }
            assert(after[ids[0] - 1] == nodes[ids[0] - 1]);
            let first = nodes[ids[0] - 1].table_id;
            if first != 0 {
                let all = emitted(nodes, ids, None::<T>);
                assert(all[0] == first);
                assert(all.skip(1) =~= emitted(nodes, rest, None::<T>));
            }
        }
    }
}

/// The node that an exclusion clears is a node of the index that holds the
/// value and refers to the record, and the tree keeps its shape.
pub proof fn lemma_excluded_shape<T: Field>(nodes: Seq<TableIndex<T>>, value: T, target: usize)
    requires
        linked(nodes),
    ensures
        ({
            let id = first_with_target(nodes, holders(nodes, value, 1), target);
            id != 0 ==> 0 < id <= nodes.len() && nodes[id - 1].value == value && nodes[id - 1].table_id
                == target
        }),
        same_shape(nodes, excluded(nodes, value, target)),
{
    let after = excluded(nodes, value, target);
    let ids = holders(nodes, value, 1);
    let id = first_with_target(nodes, ids, target);
    lemma_holders_rising(nodes, value, 1);
    lemma_first_with_target(nodes, ids, target);
    if id != 0 {
        let k = choose|k: int| 0 <= k < ids.len() && ids[k] == id;
        assert(0 < ids[k] <= nodes.len());
        assert(nodes[ids[k] - 1].value == value);
    }
    assert(same_shape(nodes, after));
}

/// After a record was excluded for a value, a search for the value yields
/// what it yielded before without the first occurrence of the record, and a
/// search for any other value yields what it yielded before. The tree keeps
/// its shape.
pub proof fn law_exclude_then_search<T: Field>(nodes: Seq<TableIndex<T>>, value: T, target: usize, other: T)
    requires
        linked(nodes),
        target != 0,
    ensures
        same_shape(nodes, excluded(nodes, value, target)),
        linked(excluded(nodes, value, target)),
        records_for(excluded(nodes, value, target), value) == without_first(
            records_for(nodes, value),
            target,
        ),
        other != value ==> records_for(excluded(nodes, value, target), other) == records_for(nodes, other),
{
    let after = excluded(nodes, value, target);
    let ids = holders(nodes, value, 1);
    lemma_holders_rising(nodes, value, 1);
    lemma_excluded_shape(nodes, value, target);
    lemma_holders_same_shape(nodes, after, value, 1);
    lemma_emitted_cleared(nodes, ids, target);
    if other != value {
        lemma_holders_same_shape(nodes, after, other, 1);
        let other_ids = holders(nodes, other, 1);
        lemma_holders_rising(nodes, other, 1);
        assert forall|i: int| 0 <= i < other_ids.len() implies after[#[trigger] other_ids[i] - 1].value
            == nodes[other_ids[i] - 1].value && after[other_ids[i] - 1].table_id == nodes[other_ids[i]
            - 1].table_id by {
            let k = other_ids[i];
            assert(0 < k <= nodes.len());
            assert(nodes[k - 1].value == other);
        }
        lemma_emitted_same_nodes(after, nodes, other_ids, None);
    }
}

/// A record that is added for a value and then excluded leaves every search
/// as it was before, provided that the search for the value did not yield
/// the record already.
pub proof fn law_add_then_exclude<T: Field>(nodes: Seq<TableIndex<T>>, value: T, target: usize, other: T)
    requires
        linked(nodes),
        nodes.len() < usize::MAX,
        target != 0,
        !records_for(nodes, value).contains(target),
    ensures
        records_for(excluded(added(nodes, value, target), value, target), value) == records_for(
            nodes,
            value,
        ),
        other != value ==> records_for(excluded(added(nodes, value, target), value, target), other)
            == records_for(nodes, other),
{
    let grown = added(nodes, value, target);
    lemma_added_linked(nodes, value, target);
    law_add_then_search(nodes, value, target, other);
    law_exclude_then_search(grown, value, target, other);
    lemma_without_first_of_push(records_for(nodes, value), target);
}

/// Taking the first occurrence away from a sequence that ends with the only
/// occurrence gives the rest.
pub proof fn lemma_without_first_of_push(s: Seq<usize>, x: usize)
    requires
        !s.contains(x),
    ensures
        without_first(s.push(x), x) == s,
    decreases s.len(),
{
    let more = s.push(x);
    if s.len() == 0 {
        assert(more.skip(1) =~= s);
    } else {
        assert(more[0] == s[0]);
        assert(s.contains(s[0]));
        assert(more.skip(1) =~= s.skip(1).push(x));
        assert forall|i: int| 0 <= i < s.skip(1).len() implies s.skip(1)[i] != x by {
            assert(s.contains(s[i + 1]));
        }
        lemma_without_first_of_push(s.skip(1), x);
        assert(seq![s[0]] + s.skip(1) =~= s);
    }
}

/// The records that the entries name for `value`, in the order of the
/// entries. An entry for no record names none.
pub open spec fn added_for<T: Field>(entries: Seq<(T, usize)>, value: T) -> Seq<usize>
    decreases entries.len(),
{
    if entries.len() == 0 {
        Seq::empty()
    } else if entries.last().0 == value && entries.last().1 != 0 {
        added_for(entries.drop_last(), value).push(entries.last().1)
    } else {
        added_for(entries.drop_last(), value)
    }
}

/// In an index that was built by adding, a search for a value yields the
/// records that were added for it, all of them and in the order in which
/// they were added.
pub proof fn law_built_search<T: Field>(entries: Seq<(T, usize)>, value: T)
    requires
        entries.len() <= usize::MAX,
    ensures
        records_for(built(entries), value) == added_for(entries, value),
    decreases entries.len(),
{
    if entries.len() > 0 {
        let before = built(entries.drop_last());
        lemma_built_linked(entries.drop_last());
        law_built_search(entries.drop_last(), value);
        law_add_then_search(before, entries.last().0, entries.last().1, value);
    } else {
        assert(records_for(built(entries), value) =~= Seq::<usize>::empty());
    }
}

} // verus!
