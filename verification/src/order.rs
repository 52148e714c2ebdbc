use vstd::prelude::*;

use crate::field::Field;
use crate::lookup::{lemma_excluded_shape, lemma_holders_same_shape, same_shape};
use crate::table_index::TableIndex;
use crate::tree::{
    added, attach_point, built, emitted, excluded, from_bound, inorder, lemma_added_linked,
    lemma_attach_point_bounds, linked, room_below, steps_under, toward, with_child,
};

verus! {

/// `value` is not below the lower bound and is below the upper bound, as far
/// as there are bounds.
pub open spec fn fits<T: Field>(value: T, lo: Option<T>, hi: Option<T>) -> bool {
    &&& (lo is Some ==> !value.spec_less(lo->Some_0))
    &&& (hi is Some ==> value.spec_less(hi->Some_0))
}

/// Every value in the subtree under the node `id` fits the bounds, every
/// value in a left subtree is below the value of the node above it, and no
/// value in a right subtree is.
pub open spec fn within<T: Field>(nodes: Seq<TableIndex<T>>, id: usize, lo: Option<T>, hi: Option<T>) -> bool
    decreases room_below(nodes.len(), id),
{
    if linked(nodes) && 0 < id <= nodes.len() {
        let node = nodes[id - 1];
        &&& fits(node.value, lo, hi)
        &&& within(nodes, node.left, lo, Some(node.value))
        &&& within(nodes, node.right, Some(node.value), hi)
    } else {
        true
    }
}

/// The nodes form a search tree under the first node: smaller values to the
/// left, equal and greater ones to the right.
pub open spec fn is_search_tree<T: Field>(nodes: Seq<TableIndex<T>>) -> bool {
    linked(nodes) && within(nodes, 1, None, None)
}

/// The values of the nodes `ids` never decrease.
pub open spec fn ascending<T: Field>(nodes: Seq<TableIndex<T>>, ids: Seq<usize>) -> bool {
    forall|i: int, j: int|
        0 <= i < j < ids.len() ==> !nodes[#[trigger] ids[j] - 1].value.spec_less(
            nodes[#[trigger] ids[i] - 1].value,
        )
}

/// Those of the nodes `ids` whose values fit the bounds, in their order.
pub open spec fn between<T: Field>(
    nodes: Seq<TableIndex<T>>,
    ids: Seq<usize>,
    lo: Option<T>,
    hi: Option<T>,
) -> Seq<usize>
    decreases ids.len(),
{
    if ids.len() == 0 {
        ids
    } else if fits(nodes[ids[0] - 1].value, lo, hi) {
        seq![ids[0]] + between(nodes, ids.skip(1), lo, hi)
    } else {
        between(nodes, ids.skip(1), lo, hi)
    }
}

/// Every subtree that is still to be looked at, each with the bounds that
/// its place in the tree sets, is in order within these bounds.
pub open spec fn all_within<T: Field>(
    nodes: Seq<TableIndex<T>>,
    frames: Seq<(usize, Option<T>, Option<T>)>,
) -> bool
    decreases frames.len(),
{
    if frames.len() == 0 {
        true
    } else {
        &&& within(nodes, frames.last().0, frames.last().1, frames.last().2)
        &&& all_within(nodes, frames.drop_last())
    }
}

/// The number of steps that it still takes to look at the subtrees.
pub open spec fn looks_left<T: Field>(
    nodes: Seq<TableIndex<T>>,
    frames: Seq<(usize, Option<T>, Option<T>)>,
) -> nat
    decreases frames.len(),
{
    if frames.len() == 0 {
        0
    } else {
        1 + steps_under(nodes, frames.last().0) + looks_left(nodes, frames.drop_last())
    }
}

/// One more subtree to look at adds its condition and its steps.
pub proof fn lemma_push_subtree<T: Field>(
    nodes: Seq<TableIndex<T>>,
    frames: Seq<(usize, Option<T>, Option<T>)>,
    id: usize,
    lo: Option<T>,
    hi: Option<T>,
)
    ensures
        all_within(nodes, frames.push((id, lo, hi))) == (within(nodes, id, lo, hi) && all_within(
            nodes,
            frames,
        )),
        looks_left(nodes, frames.push((id, lo, hi))) == 1 + steps_under(nodes, id) + looks_left(
            nodes,
            frames,
        ),
{
    let more = frames.push((id, lo, hi));
    assert(more.drop_last() =~= frames);
    assert(more.last() == (id, lo, hi));
}

/// A value that fits below `mid` fits wherever `mid` fits.
pub proof fn lemma_widen_left<T: Field>(x: T, mid: T, lo: Option<T>, hi: Option<T>)
    requires
        fits(x, lo, Some(mid)),
        fits(mid, lo, hi),
    ensures
        fits(x, lo, hi),
{
    if hi is Some {
        T::lemma_total_order(x, mid, hi->Some_0);
    }
}

/// A value that fits from `mid` on fits wherever `mid` fits.
pub proof fn lemma_widen_right<T: Field>(x: T, mid: T, lo: Option<T>, hi: Option<T>)
    requires
        fits(x, Some(mid), hi),
        fits(mid, lo, hi),
    ensures
        fits(x, lo, hi),
{
    if lo is Some {
        let low = lo->Some_0;
        T::lemma_total_order(x, low, mid);
        T::lemma_total_order(low, mid, mid);
    }
}

/// The last node on the way down from a node fits the bounds of that node's
/// subtree.
pub proof fn lemma_attach_point_fits<T: Field>(
    nodes: Seq<TableIndex<T>>,
    value: T,
    id: usize,
    lo: Option<T>,
    hi: Option<T>,
)
    requires
        linked(nodes),
        0 < id <= nodes.len(),
        within(nodes, id, lo, hi),
    ensures
        fits(nodes[attach_point(nodes, value, id) - 1].value, lo, hi),
    decreases nodes.len() - id,
{
    let node = nodes[id - 1];
    let next = toward(node, value);
    if next != 0 {
        if value.spec_less(node.value) {
            lemma_attach_point_fits(nodes, value, next, lo, Some(node.value));
            lemma_widen_left(nodes[attach_point(nodes, value, next) - 1].value, node.value, lo, hi);
        } else {
            lemma_attach_point_fits(nodes, value, next, Some(node.value), hi);
            lemma_widen_right(nodes[attach_point(nodes, value, next) - 1].value, node.value, lo, hi);
        }
    }
}

/// A subtree that cannot hold the node `changed`, because it was stored
/// later or because its bounds leave the node's value out, is in order after
/// a change to that node alone, and to nodes that were stored since.
pub proof fn lemma_within_frame<T: Field>(
    nodes: Seq<TableIndex<T>>,
    after: Seq<TableIndex<T>>,
    changed: usize,
    id: usize,
    lo: Option<T>,
    hi: Option<T>,
)
    requires
        linked(nodes),
        linked(after),
        nodes.len() <= after.len(),
        0 < changed <= nodes.len(),
        forall|i: int| 0 <= i < nodes.len() && i != changed - 1 ==> #[trigger] after[i] == nodes[i],
        id <= nodes.len(),
        within(nodes, id, lo, hi),
        id == 0 || changed < id || !fits(nodes[changed - 1].value, lo, hi),
    ensures
        within(after, id, lo, hi),
    decreases room_below(nodes.len(), id),
{
    if id > 0 {
        let node = nodes[id - 1];
        assert(id != changed);
        assert(after[id - 1] == node);
        let moved = nodes[changed - 1].value;
        if !(changed < id) {
            if fits(moved, lo, Some(node.value)) {
                lemma_widen_left(moved, node.value, lo, hi);
            }
            if fits(moved, Some(node.value), hi) {
                lemma_widen_right(moved, node.value, lo, hi);
            }
        }
        lemma_within_frame(nodes, after, changed, node.left, lo, Some(node.value));
        lemma_within_frame(nodes, after, changed, node.right, Some(node.value), hi);
    }
}

/// A subtree on the way down toward a value that fits its bounds is in
/// order after the value was added.
pub proof fn lemma_added_within<T: Field>(
    nodes: Seq<TableIndex<T>>,
    value: T,
    target: usize,
    id: usize,
    lo: Option<T>,
    hi: Option<T>,
)
    requires
        linked(nodes),
        nodes.len() < usize::MAX,
        0 < id <= nodes.len(),
        within(nodes, id, lo, hi),
        fits(value, lo, hi),
        attach_point(nodes, value, id) == attach_point(nodes, value, 1),
    ensures
        within(added(nodes, value, target), id, lo, hi),
    decreases nodes.len() - id,
{
    let after = added(nodes, value, target);
    let fresh = (nodes.len() + 1) as usize;
    let parent = attach_point(nodes, value, 1);
    lemma_added_linked(nodes, value, target);
    lemma_attach_point_bounds(nodes, value, 1);
    assert forall|i: int| 0 <= i < nodes.len() && i != parent - 1 implies #[trigger] after[i]
        == nodes[i] by {}
    let node = nodes[id - 1];
    let next = toward(node, value);
    assert(after[fresh - 1] == TableIndex { id: fresh, value, table_id: target, left: 0, right: 0 });
    if next == 0 {
        assert(id == parent);
        assert(after[id - 1] == with_child(node, value, fresh));
        if value.spec_less(node.value) {
            assert(within(after, 0, lo, Some(value)));
            assert(within(after, 0, Some(value), Some(node.value)));
            assert(within(after, fresh, lo, Some(node.value)));
            lemma_within_frame(nodes, after, parent, node.right, Some(node.value), hi);
        } else {
            assert(within(after, 0, Some(node.value), Some(value)));
            assert(within(after, 0, Some(value), hi));
            assert(within(after, fresh, Some(node.value), hi));
            lemma_within_frame(nodes, after, parent, node.left, lo, Some(node.value));
        }
    } else {
        assert(id != parent);
        assert(after[id - 1] == node);
        if value.spec_less(node.value) {
            lemma_added_within(nodes, value, target, next, lo, Some(node.value));
            lemma_attach_point_fits(nodes, value, next, lo, Some(node.value));
            lemma_within_frame(nodes, after, parent, node.right, Some(node.value), hi);
        } else {
            lemma_added_within(nodes, value, target, next, Some(node.value), hi);
            lemma_attach_point_fits(nodes, value, next, Some(node.value), hi);
            lemma_within_frame(nodes, after, parent, node.left, lo, Some(node.value));
        }
    }
}

/// Adding a value to a search tree gives a search tree.
pub proof fn lemma_added_search_tree<T: Field>(nodes: Seq<TableIndex<T>>, value: T, target: usize)
    requires
        is_search_tree(nodes),
        nodes.len() < usize::MAX,
    ensures
        is_search_tree(added(nodes, value, target)),
{
    let after = added(nodes, value, target);
    lemma_added_linked(nodes, value, target);
    if nodes.len() == 0 {
        assert(within(after, 0, None, Some(value)));
        assert(within(after, 0, Some(value), None));
        assert(after[0].left == 0 && after[0].right == 0 && after[0].value == value);
    } else {
        lemma_added_within(nodes, value, target, 1, None, None);
    }
}

/// The same tree is in order within the same bounds.
pub proof fn lemma_within_same_shape<T: Field>(
    a: Seq<TableIndex<T>>,
    b: Seq<TableIndex<T>>,
    id: usize,
    lo: Option<T>,
    hi: Option<T>,
)
    requires
        same_shape(a, b),
        linked(a),
    ensures
        linked(b),
        within(a, id, lo, hi) == within(b, id, lo, hi),
        inorder(a, id) == inorder(b, id),
    decreases room_below(a.len(), id),
{
    let any = a[0].value;
    lemma_holders_same_shape(a, b, any, 0);
    if 0 < id <= a.len() {
        assert(a[id - 1].value == b[id - 1].value);
        lemma_within_same_shape(a, b, a[id - 1].left, lo, Some(a[id - 1].value));
        lemma_within_same_shape(a, b, a[id - 1].right, Some(a[id - 1].value), hi);
    }
}

/// Excluding a record from a search tree leaves a search tree, and the
/// nodes in the order in which a walk visits them.
pub proof fn lemma_excluded_search_tree<T: Field>(nodes: Seq<TableIndex<T>>, value: T, target: usize)
    requires
        linked(nodes),
    ensures
        same_shape(nodes, excluded(nodes, value, target)),
        linked(excluded(nodes, value, target)),
        is_search_tree(nodes) == is_search_tree(excluded(nodes, value, target)),
        inorder(excluded(nodes, value, target), 1) == inorder(nodes, 1),
{
    let after = excluded(nodes, value, target);
    lemma_excluded_shape(nodes, value, target);
    lemma_within_same_shape(nodes, after, 1, None, None);
}

/// Whatever is added, and in whatever order, the index is a search tree,
/// with one node for each entry.
pub proof fn law_built_is_search_tree<T: Field>(entries: Seq<(T, usize)>)
    requires
        entries.len() <= usize::MAX,
    ensures
        built(entries).len() == entries.len(),
        is_search_tree(built(entries)),
        ascending(built(entries), inorder(built(entries), 1)),
    decreases entries.len(),
{
    if entries.len() > 0 {
        let before = built(entries.drop_last());
        law_built_is_search_tree(entries.drop_last());
        lemma_added_linked(before, entries.last().0, entries.last().1);
        lemma_added_search_tree(before, entries.last().0, entries.last().1);
    } else {
        assert(linked(built(entries)));
        assert(within(built(entries), 1, None, None));
    }
    law_iter_ascending(built(entries));
}

/// A subtree that is in order within bounds lists nodes of the index whose
/// values fit the bounds and never decrease.
pub proof fn lemma_inorder_ascending<T: Field>(
    nodes: Seq<TableIndex<T>>,
    id: usize,
    lo: Option<T>,
    hi: Option<T>,
)
    requires
        linked(nodes),
        within(nodes, id, lo, hi),
    ensures
        forall|k: int|
            0 <= k < inorder(nodes, id).len() ==> 0 < #[trigger] inorder(nodes, id)[k] <= nodes.len()
                && fits(nodes[inorder(nodes, id)[k] - 1].value, lo, hi),
        ascending(nodes, inorder(nodes, id)),
    decreases room_below(nodes.len(), id),
{
    if 0 < id <= nodes.len() {
        let node = nodes[id - 1];
        let mid = node.value;
        let left = inorder(nodes, node.left);
        let right = inorder(nodes, node.right);
        let all = inorder(nodes, id);
        lemma_inorder_ascending(nodes, node.left, lo, Some(mid));
        lemma_inorder_ascending(nodes, node.right, Some(mid), hi);
        assert(all =~= left + seq![id] + right);
        assert forall|k: int| 0 <= k < all.len() implies 0 < #[trigger] all[k] <= nodes.len() && fits(
            nodes[all[k] - 1].value,
            lo,
            hi,
        ) by {
            if k < left.len() {
                assert(all[k] == left[k]);
                lemma_widen_left(nodes[left[k] - 1].value, mid, lo, hi);
            } else if k > left.len() {
                let r = k - left.len() - 1;
                assert(all[k] == right[r]);
                lemma_widen_right(nodes[right[r] - 1].value, mid, lo, hi);
            }
        }
        assert forall|i: int, j: int| 0 <= i < j < all.len() implies !nodes[#[trigger] all[j]
            - 1].value.spec_less(nodes[#[trigger] all[i] - 1].value) by {
            let x = nodes[all[i] - 1].value;
            let y = nodes[all[j] - 1].value;
            if i < left.len() {
                assert(all[i] == left[i]);
                assert(x.spec_less(mid));
                if j < left.len() {
                    assert(all[j] == left[j]);
                } else if j == left.len() {
                    T::lemma_total_order(x, mid, x);
                    T::lemma_total_order(x, x, x);
                } else {
                    let r = j - left.len() - 1;
                    assert(all[j] == right[r]);
                    T::lemma_total_order(y, x, mid);
                }
            } else if i == left.len() {
                let r = j - left.len() - 1;
                assert(all[j] == right[r]);
            } else {
                let q = i - left.len() - 1;
                let r = j - left.len() - 1;
                assert(all[i] == right[q]);
                assert(all[j] == right[r]);
            }
        }
    }
}

/// A walk over a search tree visits the nodes in the order of their values,
/// whatever the order in which the values were added.
pub proof fn law_iter_ascending<T: Field>(nodes: Seq<TableIndex<T>>)
    requires
        is_search_tree(nodes),
    ensures
        ascending(nodes, inorder(nodes, 1)),
{
    lemma_inorder_ascending(nodes, 1, None, None);
}

/// Choosing among the nodes of two runs is choosing in each of them.
pub proof fn lemma_between_concat<T: Field>(
    nodes: Seq<TableIndex<T>>,
    a: Seq<usize>,
    b: Seq<usize>,
    lo: Option<T>,
    hi: Option<T>,
)
    ensures
        between(nodes, a + b, lo, hi) == between(nodes, a, lo, hi) + between(nodes, b, lo, hi),
    decreases a.len(),
{
    if a.len() == 0 {
        assert(a + b =~= b);
        assert(between(nodes, a, lo, hi) + between(nodes, b, lo, hi) =~= between(nodes, b, lo, hi));
    } else {
        assert((a + b).skip(1) =~= a.skip(1) + b);
        assert((a + b)[0] == a[0]);
        lemma_between_concat(nodes, a.skip(1), b, lo, hi);
        assert(between(nodes, a + b, lo, hi) =~= between(nodes, a, lo, hi) + between(nodes, b, lo, hi));
    }
}

/// Where every value fits, all nodes are chosen.
pub proof fn lemma_between_all<T: Field>(nodes: Seq<TableIndex<T>>, ids: Seq<usize>, lo: Option<T>, hi: Option<T>)
    requires
        forall|k: int| 0 <= k < ids.len() ==> fits(nodes[#[trigger] ids[k] - 1].value, lo, hi),
    ensures
        between(nodes, ids, lo, hi) == ids,
    decreases ids.len(),
{
    if ids.len() > 0 {
        let rest = ids.skip(1);
        assert(fits(nodes[ids[0] - 1].value, lo, hi));
        assert forall|k: int| 0 <= k < rest.len() implies fits(nodes[#[trigger] rest[k] - 1].value, lo, hi) by {
            assert(rest[k] == ids[k + 1]);
        }
        lemma_between_all(nodes, rest, lo, hi);
        assert(seq![ids[0]] + rest =~= ids);
    }
}

/// Where no value fits, no node is chosen.
pub proof fn lemma_between_none<T: Field>(nodes: Seq<TableIndex<T>>, ids: Seq<usize>, lo: Option<T>, hi: Option<T>)
    requires
        forall|k: int| 0 <= k < ids.len() ==> !fits(nodes[#[trigger] ids[k] - 1].value, lo, hi),
    ensures
        between(nodes, ids, lo, hi) == Seq::<usize>::empty(),
    decreases ids.len(),
{
    if ids.len() > 0 {
        let rest = ids.skip(1);
        assert(!fits(nodes[ids[0] - 1].value, lo, hi));
        assert forall|k: int| 0 <= k < rest.len() implies !fits(nodes[#[trigger] rest[k] - 1].value, lo, hi) by {
            assert(rest[k] == ids[k + 1]);
        }
        lemma_between_none(nodes, rest, lo, hi);
    } else {
        assert(ids =~= Seq::<usize>::empty());
    }
}

/// In a subtree that is in order, the walk from a value on visits the nodes
/// of the subtree whose values are not below that value.
pub proof fn lemma_from_bound_between<T: Field>(
    nodes: Seq<TableIndex<T>>,
    from: T,
    id: usize,
    lo: Option<T>,
    hi: Option<T>,
)
    requires
        linked(nodes),
        within(nodes, id, lo, hi),
    ensures
        from_bound(nodes, from, id) == between(nodes, inorder(nodes, id), Some(from), None),
    decreases room_below(nodes.len(), id),
{
    if 0 < id <= nodes.len() {
        let node = nodes[id - 1];
        let mid = node.value;
        let left = inorder(nodes, node.left);
        let right = inorder(nodes, node.right);
        let one = seq![id];
        lemma_inorder_ascending(nodes, node.left, lo, Some(mid));
        lemma_inorder_ascending(nodes, node.right, Some(mid), hi);
        lemma_between_concat(nodes, left + one, right, Some(from), None);
        lemma_between_concat(nodes, left, one, Some(from), None);
        assert(one.skip(1) =~= Seq::<usize>::empty());
        assert(between(nodes, one.skip(1), Some(from), None::<T>) =~= Seq::<usize>::empty());
        if from.spec_less(mid) {
            lemma_from_bound_between(nodes, from, node.left, lo, Some(mid));
            T::lemma_total_order(from, mid, from);
            T::lemma_total_order(from, from, from);
            assert(between(nodes, one, Some(from), None::<T>) =~= one);
            assert forall|k: int| 0 <= k < right.len() implies fits(
                nodes[#[trigger] right[k] - 1].value,
                Some(from),
                None,
            ) by {
                T::lemma_total_order(nodes[right[k] - 1].value, from, mid);
            }
            lemma_between_all(nodes, right, Some(from), None);
        } else if mid.spec_less(from) {
            lemma_from_bound_between(nodes, from, node.right, Some(mid), hi);
            assert(between(nodes, one, Some(from), None::<T>) =~= Seq::<usize>::empty());
            assert forall|k: int| 0 <= k < left.len() implies !fits(
                nodes[#[trigger] left[k] - 1].value,
                Some(from),
                None,
            ) by {
                T::lemma_total_order(nodes[left[k] - 1].value, mid, from);
            }
            lemma_between_none(nodes, left, Some(from), None);
            assert(from_bound(nodes, from, id) =~= between(nodes, inorder(nodes, id), Some(from), None));
        } else {
            T::lemma_total_order(from, mid, mid);
            assert(from == mid);
            assert(between(nodes, one, Some(from), None::<T>) =~= one);
            assert forall|k: int| 0 <= k < left.len() implies !fits(
                nodes[#[trigger] left[k] - 1].value,
                Some(from),
                None,
            ) by {}
            lemma_between_none(nodes, left, Some(from), None);
            assert forall|k: int| 0 <= k < right.len() implies fits(
                nodes[#[trigger] right[k] - 1].value,
                Some(from),
                None,
            ) by {}
            lemma_between_all(nodes, right, Some(from), None);
            assert(from_bound(nodes, from, id) =~= between(nodes, inorder(nodes, id), Some(from), None));
        }
    } else {
        assert(inorder(nodes, id) =~= Seq::<usize>::empty());
    }
}

/// Over nodes whose values never decrease, a walk that ends at the first
/// value at or above a bound yields what a walk over the nodes below the
/// bound yields.
pub proof fn lemma_upper_between<T: Field>(nodes: Seq<TableIndex<T>>, ids: Seq<usize>, lo: Option<T>, to: T)
    requires
        ascending(nodes, ids),
    ensures
        emitted(nodes, between(nodes, ids, lo, None), Some(to)) == emitted(
            nodes,
            between(nodes, ids, lo, Some(to)),
            None,
        ),
    decreases ids.len(),
{
    if ids.len() > 0 {
        let rest = ids.skip(1);
        let first = nodes[ids[0] - 1].value;
        assert forall|i: int, j: int| 0 <= i < j < rest.len() implies !nodes[#[trigger] rest[j]
            - 1].value.spec_less(nodes[#[trigger] rest[i] - 1].value) by {
            assert(rest[i] == ids[i + 1]);
            assert(rest[j] == ids[j + 1]);
        }
        lemma_upper_between(nodes, rest, lo, to);
        if fits(first, lo, None) {
            let open = between(nodes, ids, lo, None::<T>);
            assert(open[0] == ids[0]);
            assert(open.skip(1) =~= between(nodes, rest, lo, None::<T>));
            if first.spec_less(to) {
                let shut = between(nodes, ids, lo, Some(to));
                assert(shut[0] == ids[0]);
                assert(shut.skip(1) =~= between(nodes, rest, lo, Some(to)));
            } else {
                assert forall|k: int| 0 <= k < rest.len() implies !fits(
                    nodes[#[trigger] rest[k] - 1].value,
                    lo,
                    Some(to),
                ) by {
                    assert(rest[k] == ids[k + 1]);
                    assert(!nodes[ids[k + 1] - 1].value.spec_less(nodes[ids[0] - 1].value));
                    T::lemma_total_order(nodes[rest[k] - 1].value, to, first);
                    T::lemma_total_order(to, first, first);
                }
                lemma_between_none(nodes, rest, lo, Some(to));
            }
        }
    }
}

/// A walk between two values over a search tree yields the records of
/// exactly those nodes of the whole walk that hold a value from the first on
/// and below the second, in the order of the whole walk.
pub proof fn law_iter_between<T: Field>(nodes: Seq<TableIndex<T>>, from: T, to: T)
    requires
        is_search_tree(nodes),
    ensures
        emitted(nodes, from_bound(nodes, from, 1), Some(to)) == emitted(
            nodes,
            between(nodes, inorder(nodes, 1), Some(from), Some(to)),
            None,
        ),
{
    lemma_from_bound_between(nodes, from, 1, None, None);
    lemma_inorder_ascending(nodes, 1, None, None);
    lemma_upper_between(nodes, inorder(nodes, 1), Some(from), to);
}

/// The place of `value` among the nodes `ids`: the number of nodes, from
/// the front, whose values are not above it.
pub open spec fn place_of<T: Field>(nodes: Seq<TableIndex<T>>, ids: Seq<usize>, value: T) -> int
    decreases ids.len(),
{
    if ids.len() == 0 || value.spec_less(nodes[ids[0] - 1].value) {
        0
    } else {
        1 + place_of(nodes, ids.skip(1), value)
    }
}

/// A position with no value above `value` before it, and a value above
/// `value` at it, if there is one, is the place of `value`.
pub proof fn lemma_place_is<T: Field>(nodes: Seq<TableIndex<T>>, ids: Seq<usize>, value: T, at: int)
    requires
        0 <= at <= ids.len(),
        forall|i: int| 0 <= i < at ==> !value.spec_less(nodes[#[trigger] ids[i] - 1].value),
        at < ids.len() ==> value.spec_less(nodes[ids[at] - 1].value),
    ensures
        place_of(nodes, ids, value) == at,
    decreases ids.len(),
{
    if at > 0 {
        let rest = ids.skip(1);
        assert(!value.spec_less(nodes[ids[0] - 1].value));
        assert forall|i: int| 0 <= i < at - 1 implies !value.spec_less(nodes[#[trigger] rest[i] - 1].value) by {
            assert(rest[i] == ids[i + 1]);
        }
        lemma_place_is(nodes, rest, value, at - 1);
    }
}

/// No value before the place of `value` is above it, and the value at the
/// place, if there is one, is.
pub proof fn lemma_place_of<T: Field>(nodes: Seq<TableIndex<T>>, ids: Seq<usize>, value: T)
    ensures
        0 <= place_of(nodes, ids, value) <= ids.len(),
        forall|i: int|
            0 <= i < place_of(nodes, ids, value) ==> !value.spec_less(nodes[#[trigger] ids[i] - 1].value),
        place_of(nodes, ids, value) < ids.len() ==> value.spec_less(
            nodes[ids[place_of(nodes, ids, value)] - 1].value,
        ),
    decreases ids.len(),
{
    if ids.len() > 0 && !value.spec_less(nodes[ids[0] - 1].value) {
        let rest = ids.skip(1);
        lemma_place_of(nodes, rest, value);
        let at = place_of(nodes, ids, value);
        assert forall|i: int| 0 <= i < at implies !value.spec_less(nodes[#[trigger] ids[i] - 1].value) by {
            if i > 0 {
                assert(rest[i - 1] == ids[i]);
            }
        }
        if at < ids.len() {
            assert(rest[at - 1] == ids[at]);
        }
    }
}

/// A subtree that cannot hold the node `changed` lists the same nodes after
/// a change to that node alone, and to nodes that were stored since.
pub proof fn lemma_inorder_frame<T: Field>(
    nodes: Seq<TableIndex<T>>,
    after: Seq<TableIndex<T>>,
    changed: usize,
    id: usize,
    lo: Option<T>,
    hi: Option<T>,
)
    requires
        linked(nodes),
        linked(after),
        nodes.len() <= after.len(),
        0 < changed <= nodes.len(),
        forall|i: int| 0 <= i < nodes.len() && i != changed - 1 ==> #[trigger] after[i] == nodes[i],
        id <= nodes.len(),
        within(nodes, id, lo, hi),
        id == 0 || changed < id || !fits(nodes[changed - 1].value, lo, hi),
    ensures
        inorder(after, id) == inorder(nodes, id),
    decreases room_below(nodes.len(), id),
{
    if id > 0 {
        let node = nodes[id - 1];
        assert(id != changed);
        assert(after[id - 1] == node);
        let moved = nodes[changed - 1].value;
        if !(changed < id) {
            if fits(moved, lo, Some(node.value)) {
                lemma_widen_left(moved, node.value, lo, hi);
            }
            if fits(moved, Some(node.value), hi) {
                lemma_widen_right(moved, node.value, lo, hi);
            }
        }
        lemma_inorder_frame(nodes, after, changed, node.left, lo, Some(node.value));
        lemma_inorder_frame(nodes, after, changed, node.right, Some(node.value), hi);
    }
}

/// After a value was added, a subtree on the way down toward it lists the
/// nodes that it listed before, with the new node at the place of the value.
pub proof fn lemma_inorder_added<T: Field>(
    nodes: Seq<TableIndex<T>>,
    value: T,
    target: usize,
    id: usize,
    lo: Option<T>,
    hi: Option<T>,
)
    requires
        linked(nodes),
        nodes.len() < usize::MAX,
        0 < id <= nodes.len(),
        within(nodes, id, lo, hi),
        fits(value, lo, hi),
        attach_point(nodes, value, id) == attach_point(nodes, value, 1),
    ensures
        inorder(added(nodes, value, target), id) == inorder(nodes, id).insert(
            place_of(nodes, inorder(nodes, id), value),
            (nodes.len() + 1) as usize,
        ),
    decreases nodes.len() - id,
{
    let after = added(nodes, value, target);
    let fresh = (nodes.len() + 1) as usize;
    let parent = attach_point(nodes, value, 1);
    lemma_added_linked(nodes, value, target);
    lemma_attach_point_bounds(nodes, value, 1);
    assert forall|i: int| 0 <= i < nodes.len() && i != parent - 1 implies #[trigger] after[i]
        == nodes[i] by {}
    let node = nodes[id - 1];
    let mid = node.value;
    let next = toward(node, value);
    let left = inorder(nodes, node.left);
    let right = inorder(nodes, node.right);
    let all = inorder(nodes, id);
    assert(all =~= left + seq![id] + right);
    lemma_inorder_ascending(nodes, node.left, lo, Some(mid));
    lemma_inorder_ascending(nodes, node.right, Some(mid), hi);
    assert(after[fresh - 1] == TableIndex { id: fresh, value, table_id: target, left: 0, right: 0 });
    assert(inorder(after, 0) =~= Seq::<usize>::empty());
    assert(inorder(after, fresh) =~= seq![fresh]);
    if value.spec_less(mid) {
        let here;
        if next == 0 {
            assert(id == parent);
            assert(after[id - 1] == with_child(node, value, fresh));
            assert(left =~= Seq::<usize>::empty());
            here = 0int;
        } else {
            assert(after[id - 1] == node);
            lemma_inorder_added(nodes, value, target, next, lo, Some(mid));
            lemma_attach_point_fits(nodes, value, next, lo, Some(mid));
            lemma_place_of(nodes, left, value);
            here = place_of(nodes, left, value);
        }
        lemma_inorder_frame(nodes, after, parent, node.right, Some(mid), hi);
        assert forall|i: int| 0 <= i < here implies !value.spec_less(nodes[#[trigger] all[i] - 1].value) by {
            assert(all[i] == left[i]);
        }
        if here < left.len() {
            assert(all[here] == left[here]);
        } else {
            assert(all[here] == id);
        }
        lemma_place_is(nodes, all, value, here);
        assert(inorder(after, id) =~= all.insert(here, fresh));
    } else {
        let there;
        if next == 0 {
            assert(id == parent);
            assert(after[id - 1] == with_child(node, value, fresh));
            assert(right =~= Seq::<usize>::empty());
            there = 0int;
        } else {
            assert(after[id - 1] == node);
            lemma_inorder_added(nodes, value, target, next, Some(mid), hi);
            lemma_attach_point_fits(nodes, value, next, Some(mid), hi);
            lemma_place_of(nodes, right, value);
            there = place_of(nodes, right, value);
        }
        lemma_inorder_frame(nodes, after, parent, node.left, lo, Some(mid));
        let here = left.len() + 1 + there;
        assert forall|i: int| 0 <= i < here implies !value.spec_less(nodes[#[trigger] all[i] - 1].value) by {
            if i < left.len() {
                assert(all[i] == left[i]);
                T::lemma_total_order(value, nodes[left[i] - 1].value, mid);
            } else if i > left.len() {
                assert(all[i] == right[i - left.len() - 1]);
            }
        }
        if here < all.len() {
            assert(all[here] == right[there]);
        }
        lemma_place_is(nodes, all, value, here);
        assert(inorder(after, id) =~= all.insert(here, fresh));
    }
}

/// After a value was added to a search tree, a walk visits the nodes that
/// it visited before, in the same order, and the new node at the place of
/// its value: behind the nodes with smaller and with equal values, and
/// before those with greater values.
pub proof fn law_add_then_iter<T: Field>(nodes: Seq<TableIndex<T>>, value: T, target: usize)
    requires
        is_search_tree(nodes),
        nodes.len() < usize::MAX,
    ensures
        inorder(added(nodes, value, target), 1) == inorder(nodes, 1).insert(
            place_of(nodes, inorder(nodes, 1), value),
            (nodes.len() + 1) as usize,
        ),
{
    let after = added(nodes, value, target);
    lemma_added_linked(nodes, value, target);
    if nodes.len() == 0 {
        assert(inorder(nodes, 1) =~= Seq::<usize>::empty());
        assert(inorder(after, 0) =~= Seq::<usize>::empty());
        assert(after[0].left == 0 && after[0].right == 0);
        assert(inorder(after, 1) =~= inorder(nodes, 1).insert(0, 1usize));
    } else {
        lemma_inorder_added(nodes, value, target, 1, None, None);
    }
}

/// The place of `value` among the entries with the numbers `ids`: the
/// number of entries, from the front, whose values are not above it.
pub open spec fn place_in<T: Field>(entries: Seq<(T, usize)>, ids: Seq<usize>, value: T) -> int
    decreases ids.len(),
{
    if ids.len() == 0 || value.spec_less(entries[ids[0] - 1].0) {
        0
    } else {
        1 + place_in(entries, ids.skip(1), value)
    }
}

/// The numbers of the entries, counted from one, in the order of their
/// values; entries with equal values keep the order in which they stand.
pub open spec fn order_of<T: Field>(entries: Seq<(T, usize)>) -> Seq<usize>
    decreases entries.len(),
{
    if entries.len() == 0 {
        Seq::empty()
    } else {
        let before = order_of(entries.drop_last());
        before.insert(place_in(entries, before, entries.last().0), entries.len() as usize)
    }
}

/// The nodes of an index that was built by adding hold the values and the
/// records of the entries.
pub proof fn lemma_built_payload<T: Field>(entries: Seq<(T, usize)>)
    requires
        entries.len() <= usize::MAX,
    ensures
        built(entries).len() == entries.len(),
        forall|i: int|
            0 <= i < entries.len() ==> (#[trigger] built(entries)[i]).value == entries[i].0 && built(
                entries,
            )[i].table_id == entries[i].1,
    decreases entries.len(),
{
    if entries.len() > 0 {
        let fewer = entries.drop_last();
        let before = built(fewer);
        lemma_built_payload(fewer);
        law_built_is_search_tree(fewer);
        lemma_added_linked(before, entries.last().0, entries.last().1);
        if before.len() > 0 {
            lemma_attach_point_bounds(before, entries.last().0, 1);
        }
        assert forall|i: int| 0 <= i < entries.len() implies (#[trigger] built(entries)[i]).value
            == entries[i].0 && built(entries)[i].table_id == entries[i].1 by {
            if i < fewer.len() {
                assert(before[i].value == fewer[i].0);
            }
        }
    }
}

/// Where the nodes hold the values of the entries, a value has the same
/// place among the nodes as among the entries.
pub proof fn lemma_place_in<T: Field>(
    nodes: Seq<TableIndex<T>>,
    entries: Seq<(T, usize)>,
    ids: Seq<usize>,
    value: T,
)
    requires
        forall|k: int| 0 <= k < ids.len() ==> nodes[#[trigger] ids[k] - 1].value == entries[ids[k] - 1].0,
    ensures
        place_of(nodes, ids, value) == place_in(entries, ids, value),
    decreases ids.len(),
{
    if ids.len() > 0 {
        let rest = ids.skip(1);
        assert(nodes[ids[0] - 1].value == entries[ids[0] - 1].0);
        assert forall|k: int| 0 <= k < rest.len() implies nodes[#[trigger] rest[k] - 1].value
            == entries[rest[k] - 1].0 by {
            assert(rest[k] == ids[k + 1]);
        }
        lemma_place_in(nodes, entries, rest, value);
    }
}

/// A walk over an index that was built by adding visits the nodes of the
/// entries in the order of their values, and those of entries with equal
/// values in the order in which they were added.
pub proof fn law_built_walk<T: Field>(entries: Seq<(T, usize)>)
    requires
        entries.len() <= usize::MAX,
    ensures
        inorder(built(entries), 1) == order_of(entries),
    decreases entries.len(),
{
    if entries.len() > 0 {
        let fewer = entries.drop_last();
        let before = built(fewer);
        let ids = inorder(before, 1);
        law_built_walk(fewer);
        law_built_is_search_tree(fewer);
        lemma_built_payload(fewer);
        law_add_then_iter(before, entries.last().0, entries.last().1);
        lemma_inorder_ascending(before, 1, None, None);
        assert forall|k: int| 0 <= k < ids.len() implies before[#[trigger] ids[k] - 1].value
            == entries[ids[k] - 1].0 by {
            let i = ids[k] - 1;
            assert(before[i].value == fewer[i].0);
        }
        lemma_place_in(before, entries, ids, entries.last().0);
    } else {
        assert(inorder(built(entries), 1) =~= Seq::<usize>::empty());
    }
}

} // verus!
