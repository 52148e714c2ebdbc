use vstd::prelude::*;

use crate::field::Field;
use crate::table_index::TableIndex;
use crate::table_trait::TableTrait;

verus! {

/// Where the walk stands at a node that is pending.
#[derive(Clone, Copy, Debug, PartialEq, Eq, Structural)]
pub enum Phase {
    /// The left subtree is still to be entered.
    DescendLeft,
    /// The left subtree is done; the node itself comes next.
    EmitSelf,
    /// The node is done; the right subtree is still to be entered.
    DescendRight,
    /// Both subtrees are done; the node can leave the pending ones.
    Pop,
}

/// The nodes that the blocks of an index table stand for, by slot.
pub open spec fn nodes_of<T: Field>(blocks: Seq<Seq<u8>>) -> Seq<TableIndex<T>> {
    Seq::new(blocks.len(), |i: int| TableIndex::<T>::spec_from_bytes(blocks[i]))
}

/// The number of nodes that a way down from the node `id` can still meet,
/// in an index of `count` nodes in which children were stored after their
/// parents.
pub open spec fn room_below(count: nat, id: usize) -> nat {
    if 0 < id <= count {
        (count - id + 1) as nat
    } else {
        0
    }
}

/// Every node carries the identity of its slot, and every child that a node
/// names is a node that was stored after it.
pub open spec fn linked<T>(nodes: Seq<TableIndex<T>>) -> bool {
    forall|i: int|
        0 <= i < nodes.len() ==> {
            &&& (#[trigger] nodes[i]).id == i + 1
            &&& (nodes[i].left == 0 || i + 1 < nodes[i].left <= nodes.len())
            &&& (nodes[i].right == 0 || i + 1 < nodes[i].right <= nodes.len())
        }
}

/// The child of `node` on the way to `value`: the left one for a smaller
/// value, else the right one.
pub open spec fn toward<T: Field>(node: TableIndex<T>, value: T) -> usize {
    if value.spec_less(node.value) {
        node.left
    } else {
        node.right
    }
}

/// The identities of the nodes that hold `value` on the way down from the
/// node `id`, in the order of the descent.
pub open spec fn holders<T: Field>(nodes: Seq<TableIndex<T>>, value: T, id: usize) -> Seq<usize>
    decreases room_below(nodes.len(), id),
{
    if linked(nodes) && 0 < id <= nodes.len() {
        let node = nodes[id - 1];
        let rest = holders(nodes, value, toward(node, value));
        if node.value == value {
            seq![id] + rest
        } else {
            rest
        }
    } else {
        Seq::empty()
    }
}

/// What a walk over the nodes `ids` yields, in their order: the record of
/// every node that was not excluded. With an upper bound the walk ends for
/// good at the first node whose value is not below the bound.
pub open spec fn emitted<T: Field>(nodes: Seq<TableIndex<T>>, ids: Seq<usize>, upper: Option<T>) -> Seq<usize>
    decreases ids.len(),
{
    if ids.len() == 0 {
        Seq::empty()
    } else {
        let node = nodes[ids[0] - 1];
        if upper is Some && !node.value.spec_less(upper->Some_0) {
            Seq::empty()
        } else if node.table_id != 0 {
            seq![node.table_id] + emitted(nodes, ids.skip(1), upper)
        } else {
            emitted(nodes, ids.skip(1), upper)
        }
    }
}

/// The first of the nodes `ids` that refers to the record `target`; zero if
/// none does.
pub open spec fn first_with_target<T>(nodes: Seq<TableIndex<T>>, ids: Seq<usize>, target: usize) -> usize
    decreases ids.len(),
{
    if ids.len() == 0 {
        0
    } else if nodes[ids[0] - 1].table_id == target {
        ids[0]
    } else {
        first_with_target(nodes, ids.skip(1), target)
    }
}

/// The nodes of the subtree under the node `id`: those of the left subtree,
/// the node itself, those of the right subtree.
pub open spec fn inorder<T>(nodes: Seq<TableIndex<T>>, id: usize) -> Seq<usize>
    decreases room_below(nodes.len(), id),
{
    if linked(nodes) && 0 < id <= nodes.len() {
        inorder(nodes, nodes[id - 1].left) + seq![id] + inorder(nodes, nodes[id - 1].right)
    } else {
        Seq::empty()
    }
}

/// The nodes of the subtree under the node `id` that a walk from the value
/// `from` on visits: on the way down toward `from`, a node with a greater
/// value is kept with its right subtree, one with a smaller value is passed
/// with its left subtree, and at a node with the value itself the descent
/// ends, and the node is kept with its right subtree.
pub open spec fn from_bound<T: Field>(nodes: Seq<TableIndex<T>>, from: T, id: usize) -> Seq<usize>
    decreases room_below(nodes.len(), id),
{
    if linked(nodes) && 0 < id <= nodes.len() {
        let node = nodes[id - 1];
        if from.spec_less(node.value) {
            from_bound(nodes, from, node.left) + seq![id] + inorder(nodes, node.right)
        } else if node.value.spec_less(from) {
            from_bound(nodes, from, node.right)
        } else {
            seq![id] + inorder(nodes, node.right)
        }
    } else {
        Seq::empty()
    }
}

/// The pending nodes with which a walk from the value `from` on starts
/// under the node `id`: the nodes on the way down toward `from`, the first
/// one first. A node with a greater value is still to be yielded itself, a
/// node with a smaller value is only left to go, and a node with the value
/// itself is still to be yielded and ends the way down.
pub open spec fn path_frames<T: Field>(nodes: Seq<TableIndex<T>>, from: T, id: usize) -> Seq<
    (TableIndex<T>, Phase),
>
    decreases room_below(nodes.len(), id),
{
    if linked(nodes) && 0 < id <= nodes.len() {
        let node = nodes[id - 1];
        if from.spec_less(node.value) {
            seq![(node, Phase::EmitSelf)] + path_frames(nodes, from, node.left)
        } else if node.value.spec_less(from) {
            seq![(node, Phase::Pop)] + path_frames(nodes, from, node.right)
        } else {
            seq![(node, Phase::EmitSelf)]
        }
    } else {
        Seq::empty()
    }
}

/// The nodes that a pending node still stands for, given its phase.
pub open spec fn rest_of<T>(nodes: Seq<TableIndex<T>>, id: usize, phase: Phase) -> Seq<usize> {
    match phase {
        Phase::DescendLeft => inorder(nodes, id),
        Phase::EmitSelf => seq![id] + inorder(nodes, nodes[id - 1].right),
        Phase::DescendRight => inorder(nodes, nodes[id - 1].right),
        Phase::Pop => Seq::empty(),
    }
}

/// The nodes that the pending ones still stand for, the last frame first.
pub open spec fn pending<T>(nodes: Seq<TableIndex<T>>, frames: Seq<(TableIndex<T>, Phase)>) -> Seq<usize>
    decreases frames.len(),
{
    if frames.len() == 0 {
        Seq::empty()
    } else {
        rest_of(nodes, frames.last().0.id, frames.last().1) + pending(nodes, frames.drop_last())
    }
}

/// The number of steps that a walk spends on the subtree under the node `id`.
pub open spec fn steps_under<T>(nodes: Seq<TableIndex<T>>, id: usize) -> nat
    decreases room_below(nodes.len(), id),
{
    if linked(nodes) && 0 < id <= nodes.len() {
        4 + steps_under(nodes, nodes[id - 1].left) + steps_under(nodes, nodes[id - 1].right)
    } else {
        0
    }
}

/// The number of steps that a walk still spends on a pending node.
pub open spec fn steps_of<T>(nodes: Seq<TableIndex<T>>, id: usize, phase: Phase) -> nat {
    match phase {
        Phase::DescendLeft => 4 + steps_under(nodes, nodes[id - 1].left) + steps_under(
            nodes,
            nodes[id - 1].right,
        ),
        Phase::EmitSelf => 3 + steps_under(nodes, nodes[id - 1].right),
        Phase::DescendRight => 2 + steps_under(nodes, nodes[id - 1].right),
        Phase::Pop => 1,
    }
}

/// The number of steps that a walk still spends on the pending nodes.
pub open spec fn steps_left<T>(nodes: Seq<TableIndex<T>>, frames: Seq<(TableIndex<T>, Phase)>) -> nat
    decreases frames.len(),
{
    if frames.len() == 0 {
        0
    } else {
        steps_of(nodes, frames.last().0.id, frames.last().1) + steps_left(nodes, frames.drop_last())
    }
}

/// One more pending node adds what it stands for in front, and its steps.
pub proof fn lemma_push_frame<T>(
    nodes: Seq<TableIndex<T>>,
    frames: Seq<(TableIndex<T>, Phase)>,
    node: TableIndex<T>,
    phase: Phase,
)
    ensures
        pending(nodes, frames.push((node, phase))) == rest_of(nodes, node.id, phase) + pending(nodes, frames),
        steps_left(nodes, frames.push((node, phase))) == steps_of(nodes, node.id, phase) + steps_left(
            nodes,
            frames,
        ),
{
    let more = frames.push((node, phase));
    assert(more.drop_last() =~= frames);
    assert(more.last() == (node, phase));
}

/// The records that a search for `value` yields, in the order of the descent
/// from the root.
pub open spec fn records_for<T: Field>(nodes: Seq<TableIndex<T>>, value: T) -> Seq<usize> {
    emitted(nodes, holders(nodes, value, 1), None)
}

/// The last node on the way down from the node `id` toward `value`: the one
/// that has no child on that side.
pub open spec fn attach_point<T: Field>(nodes: Seq<TableIndex<T>>, value: T, id: usize) -> usize
    decreases room_below(nodes.len(), id),
{
    if linked(nodes) && 0 < id <= nodes.len() {
        let next = toward(nodes[id - 1], value);
        if next == 0 {
            id
        } else {
            attach_point(nodes, value, next)
        }
    } else {
        0
    }
}

/// `node` with the node `child` hung on the side on which `value` belongs.
pub open spec fn with_child<T: Field>(node: TableIndex<T>, value: T, child: usize) -> TableIndex<T> {
    if value.spec_less(node.value) {
        TableIndex { left: child, ..node }
    } else {
        TableIndex { right: child, ..node }
    }
}

/// The nodes of an index after `value` was added for the record `target`:
/// a new leaf at the end, which the last node on the way down from the root
/// toward the value takes as its child. The first node ever is the root.
pub open spec fn added<T: Field>(nodes: Seq<TableIndex<T>>, value: T, target: usize) -> Seq<TableIndex<T>> {
    let id = (nodes.len() + 1) as usize;
    let leaf = TableIndex { id, value, table_id: target, left: 0, right: 0 };
    if nodes.len() == 0 {
        nodes.push(leaf)
    } else {
        let parent = attach_point(nodes, value, 1);
        nodes.update(parent - 1, with_child(nodes[parent - 1], value, id)).push(leaf)
    }
}

/// The index that comes of adding the entries, each a value and the record
/// that it refers to, one after the other to an index without nodes.
pub open spec fn built<T: Field>(entries: Seq<(T, usize)>) -> Seq<TableIndex<T>>
    decreases entries.len(),
{
    if entries.len() == 0 {
        Seq::empty()
    } else {
        added(built(entries.drop_last()), entries.last().0, entries.last().1)
    }
}

/// The nodes of an index after the record `target` was excluded for `value`:
/// the first node on the way down that holds the pair refers to no record
/// any more. Without such a node nothing changes.
pub open spec fn excluded<T: Field>(nodes: Seq<TableIndex<T>>, value: T, target: usize) -> Seq<TableIndex<T>> {
    let id = first_with_target(nodes, holders(nodes, value, 1), target);
    if id == 0 {
        nodes
    } else {
        nodes.update(id - 1, TableIndex { table_id: 0, ..nodes[id - 1] })
    }
}

/// The blocks of an index table after `value` was added for the record
/// `target`: the block of the new leaf at the end, and the block of the node
/// that takes it as its child written anew.
pub open spec fn blocks_added<T: Field>(blocks: Seq<Seq<u8>>, value: T, target: usize) -> Seq<Seq<u8>> {
    let nodes = nodes_of::<T>(blocks);
    let id = (blocks.len() + 1) as usize;
    let leaf = TableIndex { id, value, table_id: target, left: 0, right: 0 };
    if blocks.len() == 0 {
        blocks.push(leaf.spec_as_bytes())
    } else {
        let parent = attach_point(nodes, value, 1);
        blocks.update(parent - 1, with_child(nodes[parent - 1], value, id).spec_as_bytes()).push(
            leaf.spec_as_bytes(),
        )
    }
}

/// The blocks of an index table after the record `target` was excluded for
/// `value`: the block of the node that held the pair is written anew.
pub open spec fn blocks_excluded<T: Field>(blocks: Seq<Seq<u8>>, value: T, target: usize) -> Seq<Seq<u8>> {
    let nodes = nodes_of::<T>(blocks);
    let id = first_with_target(nodes, holders(nodes, value, 1), target);
    if id == 0 {
        blocks
    } else {
        blocks.update(id - 1, (TableIndex { table_id: 0, ..nodes[id - 1] }).spec_as_bytes())
    }
}

/// The attach point is a node of the index.
pub proof fn lemma_attach_point_bounds<T: Field>(nodes: Seq<TableIndex<T>>, value: T, id: usize)
    requires
        linked(nodes),
        0 < id <= nodes.len(),
    ensures
        id <= attach_point(nodes, value, id) <= nodes.len(),
        toward(nodes[attach_point(nodes, value, id) - 1], value) == 0,
    decreases nodes.len() - id,
{
    let next = toward(nodes[id - 1], value);
    if next != 0 {
        lemma_attach_point_bounds(nodes, value, next);
    }
}

/// Adding a value keeps the identities and the children in order.
pub proof fn lemma_added_linked<T: Field>(nodes: Seq<TableIndex<T>>, value: T, target: usize)
    requires
        linked(nodes),
        nodes.len() < usize::MAX,
    ensures
        linked(added(nodes, value, target)),
        added(nodes, value, target).len() == nodes.len() + 1,
{
    let after = added(nodes, value, target);
    if nodes.len() > 0 {
        lemma_attach_point_bounds(nodes, value, 1);
    }
    assert forall|i: int| 0 <= i < after.len() implies {
        &&& (#[trigger] after[i]).id == i + 1
        &&& (after[i].left == 0 || i + 1 < after[i].left <= after.len())
        &&& (after[i].right == 0 || i + 1 < after[i].right <= after.len())
    } by {
        if i < nodes.len() {
            assert(nodes[i].id == i + 1);
        }
    }
}

/// An index that was built by adding has one node for each entry, with the
/// identities and the children in order.
pub proof fn lemma_built_linked<T: Field>(entries: Seq<(T, usize)>)
    requires
        entries.len() <= usize::MAX,
    ensures
        built(entries).len() == entries.len(),
        linked(built(entries)),
    decreases entries.len(),
{
    if entries.len() > 0 {
        lemma_built_linked(entries.drop_last());
        lemma_added_linked(built(entries.drop_last()), entries.last().0, entries.last().1);
    }
}

} // verus!
