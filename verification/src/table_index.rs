use vstd::prelude::*;

use crate::error::Error;
use crate::field::Field;
use crate::lookup::{law_add_then_search, law_exclude_then_search, lemma_excluded_shape, without_first};
use crate::order::{
    all_within, ascending, between, fits, is_search_tree, law_iter_ascending, law_iter_between,
    lemma_added_search_tree, lemma_excluded_search_tree, lemma_push_subtree, looks_left, within,
};
use crate::table::Table;
use crate::table_trait::{round_trips, TableTrait};
use crate::tree::{
    added, attach_point, blocks_added, blocks_excluded, emitted, excluded, first_with_target,
    from_bound, holders, inorder, lemma_added_linked, lemma_attach_point_bounds, lemma_push_frame,
    linked, nodes_of, path_frames, pending, Phase, records_for, room_below, steps_left, toward,
    with_child,
};

verus! {

/// TableIndex is a record that has TableTrait implemented, so it keeps its
/// own table and works as a table with fixed fields. The records are the
/// nodes of a binary search tree: `left` and `right` hold the identities of
/// the children, and zero stands for no child. `table_id` is the identity of
/// the indexed record; zero marks a node that was excluded.
#[derive(Debug, Copy, Clone)]
pub struct TableIndex<T> {
    pub id: usize,
    pub value: T,
    pub table_id: usize,
    pub left: usize,
    pub right: usize,
}

impl<T: Field> TableTrait for TableIndex<T> {
    open spec fn spec_id(&self) -> usize {
        self.id
    }

    open spec fn spec_with_id(self, id: usize) -> Self {
        TableIndex { id, ..self }
    }

    /// Four identities of eight bytes each, and the value.
    open spec fn spec_block_size() -> usize {
        (32 + T::spec_width()) as usize
    }

    open spec fn spec_storable() -> bool {
        32 + T::spec_width() <= usize::MAX
    }

    /// The identity, the value, the indexed record's identity, the left and
    /// the right child, one after the other.
    open spec fn spec_as_bytes(&self) -> Seq<u8> {
        self.id.spec_bytes() + self.value.spec_bytes() + self.table_id.spec_bytes()
            + self.left.spec_bytes() + self.right.spec_bytes()
    }

    open spec fn spec_from_bytes(block: Seq<u8>) -> Self {
        let w = T::spec_width() as int;
        TableIndex {
            id: usize::spec_from_bytes(block.subrange(0, 8)),
            value: T::spec_from_bytes(block.subrange(8, 8 + w)),
            table_id: usize::spec_from_bytes(block.subrange(8 + w, 16 + w)),
            left: usize::spec_from_bytes(block.subrange(16 + w, 24 + w)),
            right: usize::spec_from_bytes(block.subrange(24 + w, 32 + w)),
        }
    }

    fn id(&self) -> (id: usize) {
        self.id
    }

    fn set_id(&mut self, id: usize) {
        self.id = id;
    }

    fn block_size() -> (size: usize) {
        32 + T::width()
    }

    fn as_bytes(&self) -> (block: Vec<u8>) {
        proof {
            lemma_node_round_trip(*self);
        }
        let mut block = Vec::new();
        self.id.write(&mut block);
        self.value.write(&mut block);
        self.table_id.write(&mut block);
        self.left.write(&mut block);
        self.right.write(&mut block);
        assert(block@ =~= self.spec_as_bytes());
        block
    }

    fn from_bytes(block: &[u8]) -> (record: Self) {
        let w = T::width();
        TableIndex {
            id: usize::read(block, 0),
            value: T::read(block, 8),
            table_id: usize::read(block, 8 + w),
            left: usize::read(block, 16 + w),
            right: usize::read(block, 24 + w),
        }
    }
}

/// A node's block has the block size of its type, and reading the block
/// gives the node back.
pub proof fn lemma_node_round_trip<T: Field>(record: TableIndex<T>)
    ensures
        record.spec_as_bytes().len() == 32 + T::spec_width(),
        TableIndex::<T>::spec_from_bytes(record.spec_as_bytes()) == record,
{
    usize::lemma_round_trip(record.id);
    T::lemma_round_trip(record.value);
    usize::lemma_round_trip(record.table_id);
    usize::lemma_round_trip(record.left);
    usize::lemma_round_trip(record.right);
    let w = T::spec_width() as int;
    let block = record.spec_as_bytes();
    assert(block.subrange(0, 8) =~= record.id.spec_bytes());
    assert(block.subrange(8, 8 + w) =~= record.value.spec_bytes());
    assert(block.subrange(8 + w, 16 + w) =~= record.table_id.spec_bytes());
    assert(block.subrange(16 + w, 24 + w) =~= record.left.spec_bytes());
    assert(block.subrange(24 + w, 32 + w) =~= record.right.spec_bytes());
}

/// The nodes with a given value, one after the other as the descent from
/// the root meets them.
pub struct ValueIter<'a, T> {
    table: &'a Table,
    value: T,
    id: usize,
}

impl<'a, T: Field> ValueIter<'a, T> {
    pub closed spec fn spec_table(&self) -> &'a Table {
        self.table
    }

    pub closed spec fn spec_value(&self) -> T {
        self.value
    }

    /// The identities of the nodes that are still to come.
    pub closed spec fn remaining(&self) -> Seq<usize> {
        holders(nodes_of::<T>(self.table@), self.value, self.id)
    }

    pub closed spec fn wf(&self) -> bool {
        &&& TableIndex::<T>::is_index(self.table)
        &&& self.id <= self.table@.len()
    }

    /// The next node with the value, if there is one.
    pub fn next(&mut self) -> (r: Option<TableIndex<T>>)
        requires
            old(self).wf(),
        ensures
            final(self).wf(),
            final(self).spec_table() == old(self).spec_table(),
            final(self).spec_value() == old(self).spec_value(),
            old(self).remaining().len() == 0 ==> r is None && final(self).remaining().len() == 0,
            old(self).remaining().len() > 0 ==> {
                let id = old(self).remaining()[0];
                &&& 0 < id <= old(self).spec_table()@.len()
                &&& r == Some(nodes_of::<T>(old(self).spec_table()@)[id - 1])
                &&& final(self).remaining() == old(self).remaining().skip(1)
            },
    {
        let ghost nodes = nodes_of::<T>(self.table@);
        while self.id > 0
            invariant
                self.wf(),
                self.table == old(self).table,
                self.value == old(self).value,
                nodes == nodes_of::<T>(self.table@),
                self.remaining() == old(self).remaining(),
            decreases room_below(nodes.len(), self.id),
        {
            let rec = TableIndex::<T>::get(self.table, self.id).unwrap();
            assert(rec == nodes[self.id - 1]);
            let ghost before = self.id;
            if self.value.less(&rec.value) {
                self.id = rec.left;
                proof {
                    T::lemma_total_order(self.value, rec.value, rec.value);
                }
            } else {
                self.id = rec.right;
                if self.value.same(&rec.value) {
                    assert(old(self).remaining() =~= seq![before] + self.remaining());
                    assert(old(self).remaining().skip(1) =~= self.remaining());
                    return Some(rec);
                }
            }
        }
        None
    }
}

/// The records that an index holds for a value, one after the other as the
/// descent from the root meets their nodes.
pub struct SearchIter<'a, T> {
    nodes: ValueIter<'a, T>,
}

impl<'a, T: Field> SearchIter<'a, T> {
    pub closed spec fn spec_table(&self) -> &'a Table {
        self.nodes.spec_table()
    }

    /// The identities of the records that are still to come.
    pub closed spec fn remaining(&self) -> Seq<usize> {
        emitted(nodes_of::<T>(self.nodes.spec_table()@), self.nodes.remaining(), None)
    }

    pub closed spec fn wf(&self) -> bool {
        self.nodes.wf()
    }

    /// The next record with the value, if there is one.
    pub fn next(&mut self) -> (r: Option<usize>)
        requires
            old(self).wf(),
        ensures
            final(self).wf(),
            final(self).spec_table() == old(self).spec_table(),
            old(self).remaining().len() == 0 ==> r is None && final(self).remaining().len() == 0,
            old(self).remaining().len() > 0 ==> r == Some(old(self).remaining()[0])
                && final(self).remaining() == old(self).remaining().skip(1),
    {
        loop
            invariant
                self.wf(),
                self.spec_table() == old(self).spec_table(),
                self.remaining() == old(self).remaining(),
            decreases self.nodes.remaining().len(),
        {
            match self.nodes.next() {
                Some(rec) => {
                    if rec.table_id > 0 {
                        assert(old(self).remaining().skip(1) =~= self.remaining());
                        return Some(rec.table_id);
                    }
                },
                None => {
                    return None;
                },
            }
        }
    }
}

/// A walk over the nodes of an index in the order of their values, which
/// yields the records one at a time. It keeps the nodes that are pending,
/// each with its phase, and the upper bound if it has one.
pub struct IndexIter<'a, T> {
    table: &'a Table,
    stack: Vec<(TableIndex<T>, Phase)>,
    upper: Option<T>,
}

/// Every pending node is a node of the index, as it is stored.
pub open spec fn frames_stored<T>(nodes: Seq<TableIndex<T>>, frames: Seq<(TableIndex<T>, Phase)>) -> bool {
    forall|k: int|
        0 <= k < frames.len() ==> {
            &&& 0 < (#[trigger] frames[k]).0.id <= nodes.len()
            &&& frames[k].0 == nodes[frames[k].0.id - 1]
        }
}

impl<'a, T: Field> IndexIter<'a, T> {
    pub closed spec fn spec_table(&self) -> &'a Table {
        self.table
    }

    /// The bound below which the values of the walk stay, if there is one.
    pub closed spec fn spec_upper(&self) -> Option<T> {
        self.upper
    }

    /// The nodes that the walk has still to visit, as long as it meets no
    /// value at or above its upper bound.
    pub closed spec fn spec_pending(&self) -> Seq<usize> {
        pending(nodes_of::<T>(self.table@), self.stack@)
    }

    /// The identities of the records that are still to come.
    pub open spec fn remaining(&self) -> Seq<usize> {
        emitted(nodes_of::<T>(self.spec_table()@), self.spec_pending(), self.spec_upper())
    }

    pub closed spec fn wf(&self) -> bool {
        &&& TableIndex::<T>::is_index(self.table)
        &&& frames_stored(nodes_of::<T>(self.table@), self.stack@)
    }

    /// The next record of the walk, if there is one. Each pending node goes
    /// through its phases: its left subtree, the node itself, its right
    /// subtree, and then it leaves. A node that was excluded yields nothing,
    /// and a node at or above the upper bound ends the walk for good.
    pub fn next(&mut self) -> (r: Option<usize>)
        requires
            old(self).wf(),
        ensures
            final(self).wf(),
            final(self).spec_table() == old(self).spec_table(),
            final(self).spec_upper() == old(self).spec_upper(),
            old(self).remaining().len() == 0 ==> r is None && final(self).remaining().len() == 0,
            old(self).remaining().len() > 0 ==> r == Some(old(self).remaining()[0])
                && final(self).remaining() == old(self).remaining().skip(1),
    {
        let ghost nodes = nodes_of::<T>(self.table@);
        while self.stack.len() > 0
            invariant
                self.wf(),
                self.table == old(self).table,
                self.upper == old(self).upper,
                nodes == nodes_of::<T>(self.table@),
                self.remaining() == old(self).remaining(),
            decreases steps_left(nodes, self.stack@),
        {
            let ghost frames = self.stack@;
            let ghost base = frames.drop_last();
            let (node, phase) = self.stack.pop().unwrap();
            proof {
                assert(frames =~= base.push((node, phase)));
                lemma_push_frame(nodes, base, node, phase);
                assert(self.stack@ =~= base);
                assert(node == nodes[node.id - 1]);
            }
            match phase {
                Phase::DescendLeft => {
                    self.stack.push((node, Phase::EmitSelf));
                    proof {
                        lemma_push_frame(nodes, base, node, Phase::EmitSelf);
                    }
                    if node.left > 0 {
                        let rec = TableIndex::<T>::get(self.table, node.left).unwrap();
                        proof {
                            lemma_push_frame(nodes, self.stack@, rec, Phase::DescendLeft);
                            assert(rec == nodes[node.left - 1]);
                        }
                        self.stack.push((rec, Phase::DescendLeft));
                    }
                    proof {
                        assert(inorder(nodes, node.id) == inorder(nodes, node.left) + seq![node.id]
                            + inorder(nodes, node.right));
                        assert(inorder(nodes, 0) =~= Seq::<usize>::empty());
                    }
                    assert(self.spec_pending() =~= pending(nodes, frames));
                },
                Phase::EmitSelf => {
                    let reached = match &self.upper {
                        Some(to) => !node.value.less(to),
                        None => false,
                    };
                    assert(pending(nodes, frames)[0] == node.id);
                    if reached {
                        self.stack.clear();
                        return None;
                    }
                    self.stack.push((node, Phase::DescendRight));
                    proof {
                        lemma_push_frame(nodes, base, node, Phase::DescendRight);
                        assert(pending(nodes, frames).skip(1) =~= self.spec_pending());
                    }
                    if node.table_id > 0 {
                        return Some(node.table_id);
                    }
                },
                Phase::DescendRight => {
                    self.stack.push((node, Phase::Pop));
                    proof {
                        lemma_push_frame(nodes, base, node, Phase::Pop);
                    }
                    if node.right > 0 {
                        let rec = TableIndex::<T>::get(self.table, node.right).unwrap();
                        proof {
                            lemma_push_frame(nodes, self.stack@, rec, Phase::DescendLeft);
                            assert(rec == nodes[node.right - 1]);
                        }
                        self.stack.push((rec, Phase::DescendLeft));
                    }
                    assert(self.spec_pending() =~= pending(nodes, frames));
                },
                Phase::Pop => {
                    assert(self.spec_pending() =~= pending(nodes, frames));
                },
            }
        }
        None
    }
}

/// Reading the block of a node gives the node back, for every node.
pub proof fn law_node_round_trips<T: Field>()
    ensures
        round_trips::<TableIndex<T>>(),
{
    assert forall|record: TableIndex<T>| #[trigger]
        TableIndex::<T>::spec_from_bytes(record.spec_as_bytes()) == record by {
        lemma_node_round_trip(record);
    }
}

impl<T: Field> TableIndex<T> {
    /// The table holds the nodes of an index on values of type `T`: its
    /// blocks have the size of a node, every node carries the identity of
    /// its slot, and every child is a node that was stored after its parent.
    pub open spec fn is_index(table: &Table) -> bool {
        &&& table.wf()
        &&& table.spec_block_size() == Self::spec_block_size()
        &&& Self::spec_storable()
        &&& linked(nodes_of::<T>(table@))
    }

    /// Whether the table holds the nodes of an index on values of type `T`,
    /// found by reading every node. It is meant for a table that was opened
    /// from stored bytes, of which nothing else is known.
    pub fn holds_index(table: &Table) -> (ok: bool)
        requires
            table.wf(),
            Self::spec_storable(),
        ensures
            ok == Self::is_index(table),
    {
        if table.block_size() != Self::block_size() {
            return false;
        }
        let ghost nodes = nodes_of::<T>(table@);
        let count = table.size();
        let mut i: usize = 0;
        while i < count
            invariant
                table.wf(),
                Self::spec_storable(),
                table.spec_block_size() == Self::spec_block_size(),
                nodes == nodes_of::<T>(table@),
                count == nodes.len(),
                i <= count,
                forall|j: int|
                    0 <= j < i ==> {
                        &&& (#[trigger] nodes[j]).id == j + 1
                        &&& (nodes[j].left == 0 || j + 1 < nodes[j].left <= nodes.len())
                        &&& (nodes[j].right == 0 || j + 1 < nodes[j].right <= nodes.len())
                    },
            decreases count - i,
        {
            let node = Self::get(table, i + 1).unwrap();
            assert(node == nodes[i as int]);
            let left_fits = node.left == 0 || (i + 1 < node.left && node.left <= count);
            let right_fits = node.right == 0 || (i + 1 < node.right && node.right <= count);
            if node.id != i + 1 || !left_fits || !right_fits {
                return false;
            }
            i += 1;
        }
        true
    }

    /// Whether the table holds an index whose nodes form a search tree,
    /// found by going through the tree from the root with the bounds that
    /// each place sets. An index that was only ever added to and excluded
    /// from is one.
    pub fn holds_search_tree(table: &Table) -> (ok: bool)
        requires
            table.wf(),
            Self::spec_storable(),
        ensures
            ok == (Self::is_index(table) && is_search_tree(nodes_of::<T>(table@))),
    {
        if !Self::holds_index(table) {
            return false;
        }
        let ghost nodes = nodes_of::<T>(table@);
        let mut stack: Vec<(usize, Option<T>, Option<T>)> = Vec::new();
        if !table.empty() {
            proof {
                lemma_push_subtree(nodes, stack@, 1, None, None);
            }
            stack.push((1, None, None));
        }
        while stack.len() > 0
            invariant
                Self::is_index(table),
                nodes == nodes_of::<T>(table@),
                forall|k: int| 0 <= k < stack@.len() ==> 0 < (#[trigger] stack@[k]).0 <= nodes.len(),
                within(nodes, 1, None, None) == all_within(nodes, stack@),
            decreases looks_left(nodes, stack@),
        {
            let ghost frames = stack@;
            let ghost base = frames.drop_last();
            let (id, lo, hi) = stack.pop().unwrap();
            proof {
                assert(frames =~= base.push((id, lo, hi)));
                lemma_push_subtree(nodes, base, id, lo, hi);
                assert(stack@ =~= base);
                assert(0 < frames[frames.len() - 1].0 <= nodes.len());
            }
            let node = Self::get(table, id).unwrap();
            assert(node == nodes[id - 1]);
            let above = match &lo {
                Some(low) => !node.value.less(low),
                None => true,
            };
            let below = match &hi {
                Some(high) => node.value.less(high),
                None => true,
            };
            assert((above && below) == fits(node.value, lo, hi));
            assert(within(nodes, id, lo, hi) == (fits(node.value, lo, hi) && within(
                nodes,
                node.left,
                lo,
                Some(node.value),
            ) && within(nodes, node.right, Some(node.value), hi)));
            assert(within(nodes, 0, lo, Some(node.value)) && within(nodes, 0, Some(node.value), hi));
            if !above || !below {
                return false;
            }
            if node.left > 0 {
                proof {
                    lemma_push_subtree(nodes, stack@, node.left, lo, Some(node.value));
                }
                stack.push((node.left, lo, Some(node.value)));
            }
            if node.right > 0 {
                proof {
                    lemma_push_subtree(nodes, stack@, node.right, Some(node.value), hi);
                }
                stack.push((node.right, Some(node.value), hi));
            }
        }
        true
    }

    /// Adds an index value to the table: a new node for the value, which
    /// refers to the record `table_id`, is stored at the end of the table and
    /// becomes the child of the last node on the way down from the root
    /// toward the value.
    pub fn add(table: &mut Table, value: &T, table_id: usize) -> (r: Result<(), Error>)
        requires
            Self::is_index(old(table)),
            old(table)@.len() < usize::MAX,
        ensures
            r == Ok::<(), Error>(()),
            nodes_of::<T>(final(table)@) == added(nodes_of::<T>(old(table)@), *value, table_id),
            final(table)@.len() == old(table)@.len() + 1,
            final(table)@ == blocks_added(old(table)@, *value, table_id),
            Self::is_index(final(table)),
            is_search_tree(nodes_of::<T>(old(table)@)) ==> is_search_tree(nodes_of::<T>(final(table)@)),
            records_for(nodes_of::<T>(final(table)@), *value) == if table_id != 0 {
                records_for(nodes_of::<T>(old(table)@), *value).push(table_id)
            } else {
                records_for(nodes_of::<T>(old(table)@), *value)
            },
            forall|other: T|
                other != *value ==> #[trigger] records_for(nodes_of::<T>(final(table)@), other)
                    == records_for(nodes_of::<T>(old(table)@), other),
            final(table).spec_path() == old(table).spec_path(),
    {
        let ghost before = nodes_of::<T>(table@);
        let ghost stored = table@;
        let mut record = Self::new(value, table_id);
        let record_id = record.insert(table)?;
        proof {
            lemma_node_round_trip(record);
            assert(nodes_of::<T>(table@) =~= before.push(record));
            assert(nodes_of::<T>(table@).drop_last() =~= before);
            lemma_added_linked(before, *value, table_id);
            if is_search_tree(before) {
                lemma_added_search_tree(before, *value, table_id);
            }
            law_add_then_search(before, *value, table_id, *value);
            assert forall|other: T| other != *value implies #[trigger] records_for(
                added(before, *value, table_id),
                other,
            ) == records_for(before, other) by {
                law_add_then_search(before, *value, table_id, other);
            }
        }
        Self::_bind(table, value, record_id);
        proof {
            if stored.len() > 0 {
                lemma_attach_point_bounds(before, *value, 1);
            }
            assert(table@ =~= blocks_added(stored, *value, table_id));
        }
        Ok(())
    }

    /// Searches for a node by **value**. The **id** of the indexed record is
    /// returned: that of the first node with the value, on the way down from
    /// the root, that was not excluded.
    pub fn search_one(table: &Table, value: &T) -> (r: Result<usize, Error>)
        requires
            Self::is_index(table),
        ensures
            ({
                let all = records_for(nodes_of::<T>(table@), *value);
                &&& all.len() > 0 ==> r == Ok::<usize, Error>(all[0])
                &&& all.len() == 0 ==> r == Err::<usize, Error>(Error::NotFound)
            }),
    {
        let mut found = Self::search_many(table, value);
        match found.next() {
            Some(table_id) => Ok(table_id),
            None => Err(Error::NotFound),
        }
    }

    /// Searches for all nodes with given **value**.
    /// It returns a cursor that yields **id** of the indexed records.
    pub fn search_many<'a>(table: &'a Table, value: &T) -> (r: SearchIter<'a, T>)
        requires
            Self::is_index(table),
        ensures
            r.wf(),
            r.spec_table() == table,
            r.remaining() == records_for(nodes_of::<T>(table@), *value),
    {
        SearchIter { nodes: Self::_iter_by_value(table, value) }
    }

    /// Iterates all nodes in the order of its values: the walk yields the
    /// record of every node that was not excluded.
    pub fn iter<'a>(table: &'a Table) -> (r: IndexIter<'a, T>)
        requires
            Self::is_index(table),
        ensures
            r.wf(),
            r.spec_table() == table,
            r.spec_upper() == None::<T>,
            r.spec_pending() == inorder(nodes_of::<T>(table@), 1),
            is_search_tree(nodes_of::<T>(table@)) ==> ascending(nodes_of::<T>(table@), r.spec_pending()),
    {
        let ghost nodes = nodes_of::<T>(table@);
        proof {
            if is_search_tree(nodes) {
                law_iter_ascending(nodes);
            }
        }
        let mut stack = Vec::new();
        match Self::get_first(table) {
            Ok(root) => {
                proof {
                    lemma_push_frame(nodes, stack@, root, Phase::DescendLeft);
                    assert(root == nodes[0]);
                }
                stack.push((root, Phase::DescendLeft));
                assert(pending(nodes, stack@) =~= inorder(nodes, 1));
            },
            Err(_) => {},
        }
        IndexIter { table, stack, upper: None }
    }

    /// Iterates the nodes in the order of its values between the given values
    /// (**>= value_from** and **< value_to**). The walk starts on the way
    /// down from the root toward `value_from` and ends for good at the first
    /// node whose value is not below `value_to`.
    pub fn iter_between<'a>(table: &'a Table, value_from: &T, value_to: &T) -> (r: IndexIter<'a, T>)
        requires
            Self::is_index(table),
        ensures
            r.wf(),
            r.spec_table() == table,
            r.spec_upper() == Some(*value_to),
            r.spec_pending() == from_bound(nodes_of::<T>(table@), *value_from, 1),
            is_search_tree(nodes_of::<T>(table@)) ==> r.remaining() == emitted(
                nodes_of::<T>(table@),
                between(
                    nodes_of::<T>(table@),
                    inorder(nodes_of::<T>(table@), 1),
                    Some(*value_from),
                    Some(*value_to),
                ),
                None,
            ),
    {
        proof {
            if is_search_tree(nodes_of::<T>(table@)) {
                law_iter_between(nodes_of::<T>(table@), *value_from, *value_to);
            }
        }
        let stack = Self::_build_stack_from(table, value_from);
        IndexIter { table, stack, upper: Some(*value_to) }
    }

    /// Excludes the node by setting its **table_id** to **0**: the first
    /// node, on the way down from the root, that holds the value and refers
    /// to the record. The shape of the tree stays as it is.
    pub fn exclude(table: &mut Table, value: &T, table_id: usize) -> (r: Result<(), Error>)
        requires
            Self::is_index(old(table)),
        ensures
            ({
                let nodes = nodes_of::<T>(old(table)@);
                let id = first_with_target(nodes, holders(nodes, *value, 1), table_id);
                &&& id == 0 ==> r == Err::<(), Error>(Error::NotFound) && *final(table) == *old(table)
                &&& id != 0 ==> r == Ok::<(), Error>(()) && 0 < id <= nodes.len()
            }),
            final(table)@ == blocks_excluded::<T>(old(table)@, *value, table_id),
            nodes_of::<T>(final(table)@) == excluded(nodes_of::<T>(old(table)@), *value, table_id),
            Self::is_index(final(table)),
            is_search_tree(nodes_of::<T>(old(table)@)) ==> is_search_tree(nodes_of::<T>(final(table)@)),
            inorder(nodes_of::<T>(final(table)@), 1) == inorder(nodes_of::<T>(old(table)@), 1),
            records_for(nodes_of::<T>(final(table)@), *value) == if table_id != 0 {
                without_first(records_for(nodes_of::<T>(old(table)@), *value), table_id)
            } else {
                records_for(nodes_of::<T>(old(table)@), *value)
            },
            forall|other: T|
                other != *value ==> #[trigger] records_for(nodes_of::<T>(final(table)@), other)
                    == records_for(nodes_of::<T>(old(table)@), other),
            final(table).spec_path() == old(table).spec_path(),
    {
        let ghost nodes = nodes_of::<T>(table@);
        proof {
            lemma_excluded_search_tree(nodes, *value, table_id);
            lemma_excluded_shape(nodes, *value, table_id);
            if table_id != 0 {
                law_exclude_then_search(nodes, *value, table_id, *value);
                assert forall|other: T| other != *value implies #[trigger] records_for(
                    excluded(nodes, *value, table_id),
                    other,
                ) == records_for(nodes, other) by {
                    law_exclude_then_search(nodes, *value, table_id, other);
                }
            } else {
                assert(excluded(nodes, *value, table_id) =~= nodes);
            }
        }
        let rec_option = {
            let mut result = None;
            let mut candidates = Self::_iter_by_value(table, value);
            let ghost all = candidates.remaining();
            loop
                invariant_except_break
                    result is None,
                    first_with_target(nodes, all, table_id) == first_with_target(
                        nodes,
                        candidates.remaining(),
                        table_id,
                    ),
                invariant
                    candidates.wf(),
                    candidates.spec_table() == &*table,
                    nodes == nodes_of::<T>(table@),
                ensures
                    result is None ==> first_with_target(nodes, all, table_id) == 0,
                    result is Some ==> {
                        let id = first_with_target(nodes, all, table_id);
                        &&& 0 < id <= nodes.len()
                        &&& result == Some(nodes[id - 1])
                    },
                decreases candidates.remaining().len(),
            {
                match candidates.next() {
                    Some(rec) => {
                        if rec.table_id == table_id {
                            result = Some(rec);
                            break ;
                        }
                    },
                    None => {
                        break ;
                    },
                }
            }
            result
        };

        match rec_option {
            Some(mut rec) => {
                rec.table_id = 0;
                proof {
                    lemma_node_round_trip(rec);
                }
                rec.update(table)?;
                proof {
                    let id = rec.id;
                    assert(nodes_of::<T>(table@) =~= nodes.update(id - 1, rec));
                }
                Ok(())
            },
            None => Err(Error::NotFound),
        }
    }

    /// Hangs the node `record_id`, the last of the table, into the tree.
    fn _bind(table: &mut Table, value: &T, record_id: usize)
        requires
            old(table).wf(),
            old(table).spec_block_size() == Self::spec_block_size(),
            Self::spec_storable(),
            old(table)@.len() > 0,
            record_id == old(table)@.len(),
            linked(nodes_of::<T>(old(table)@).drop_last()),
            nodes_of::<T>(old(table)@).last() == (TableIndex {
                id: record_id,
                value: *value,
                table_id: nodes_of::<T>(old(table)@).last().table_id,
                left: 0,
                right: 0,
            }),
        ensures
            nodes_of::<T>(final(table)@) == added(
                nodes_of::<T>(old(table)@).drop_last(),
                *value,
                nodes_of::<T>(old(table)@).last().table_id,
            ),
            final(table)@.len() == old(table)@.len(),
            old(table)@.len() == 1 ==> final(table)@ == old(table)@,
            old(table)@.len() > 1 ==> ({
                let nodes = nodes_of::<T>(old(table)@).drop_last();
                let parent = attach_point(nodes, *value, 1);
                final(table)@ == old(table)@.update(
                    parent - 1,
                    with_child(nodes[parent - 1], *value, record_id).spec_as_bytes(),
                )
            }),
            final(table).wf(),
            final(table).spec_block_size() == old(table).spec_block_size(),
            final(table).spec_path() == old(table).spec_path(),
    {
        let ghost all = nodes_of::<T>(table@);
        let ghost before = all.drop_last();
        let ghost leaf = all.last();
        let ghost after = added(before, *value, leaf.table_id);
        assert(all =~= before.push(leaf));
        let mut id = match Self::get_first_id(table) {
            Ok(id) => id,
            Err(_) => 0,
        };

        if id != record_id {
            while id > 0
                invariant
                    table.wf(),
                    table.spec_block_size() == Self::spec_block_size(),
                    Self::spec_storable(),
                    table.spec_path() == old(table).spec_path(),
                    table@.len() == old(table)@.len(),
                    before.len() + 1 == all.len(),
                    before.len() > 0,
                    record_id == all.len(),
                    linked(before),
                    after == added(before, *value, leaf.table_id),
                    all == before.push(leaf),
                    leaf == (TableIndex {
                        id: record_id,
                        value: *value,
                        table_id: leaf.table_id,
                        left: 0,
                        right: 0,
                    }),
                    id <= before.len(),
                    id > 0 ==> nodes_of::<T>(table@) == all,
                    id > 0 ==> table@ == old(table)@,
                    id == 0 ==> table@ == old(table)@.update(
                        attach_point(before, *value, 1) - 1,
                        with_child(
                            before[attach_point(before, *value, 1) - 1],
                            *value,
                            record_id,
                        ).spec_as_bytes(),
                    ),
                    id > 0 ==> attach_point(before, *value, id) == attach_point(before, *value, 1),
                    id == 0 ==> nodes_of::<T>(table@) == after,
                decreases room_below(before.len(), id),
            {
                let ghost at = id;
                let mut rec = Self::get(table, id).unwrap();
                assert(rec == all[at - 1]);
                assert(rec == before[at - 1]);

                if value.less(&rec.value) {
                    id = rec.left;
                    if id == 0 {
                        rec.left = record_id;
                    }
                } else {
                    id = rec.right;
                    if id == 0 {
                        rec.right = record_id;
                    }
                }

                if id == 0 {
                    proof {
                        lemma_node_round_trip(rec);
                        assert(rec == with_child(before[at - 1], *value, record_id));
                    }
                    let ghost stale = table@;
                    rec.update(table).unwrap();
                    proof {
                        assert(attach_point(before, *value, at) == at);
                        assert(table@ == stale.update(at - 1, rec.spec_as_bytes()));
                        assert(nodes_of::<T>(table@) =~= all.update(at - 1, rec));
                        assert(all.update(at - 1, rec) =~= before.update(at - 1, rec).push(leaf));
                    }
                    assert(nodes_of::<T>(table@) =~= after);
                }
            }
        } else {
            assert(nodes_of::<T>(table@) =~= after);
        }
    }

    /// The pending nodes of a walk that starts at `value`: the nodes on the
    /// way down from the root toward the value, each in the phase in which
    /// the walk finds it.
    fn _build_stack_from(table: &Table, value: &T) -> (stack: Vec<(Self, Phase)>)
        requires
            Self::is_index(table),
        ensures
            stack@ == path_frames(nodes_of::<T>(table@), *value, 1),
            frames_stored(nodes_of::<T>(table@), stack@),
            pending(nodes_of::<T>(table@), stack@) == from_bound(nodes_of::<T>(table@), *value, 1),
    {
        let ghost nodes = nodes_of::<T>(table@);
        let mut stack: Vec<(Self, Phase)> = Vec::new();

        let mut id = match Self::get_first_id(table) {
            Ok(id) => id,
            Err(_) => 0,
        };

        while id > 0
            invariant
                Self::is_index(table),
                nodes == nodes_of::<T>(table@),
                id <= nodes.len(),
                frames_stored(nodes, stack@),
                stack@ + path_frames(nodes, *value, id) == path_frames(nodes, *value, 1),
                from_bound(nodes, *value, id) + pending(nodes, stack@) == from_bound(nodes, *value, 1),
            decreases room_below(nodes.len(), id),
        {
            let rec = Self::get(table, id).unwrap();
            assert(rec == nodes[id - 1]);
            let ghost frames = stack@;
            let ghost at = id;

            if value.less(&rec.value) {
                proof {
                    lemma_push_frame(nodes, frames, rec, Phase::EmitSelf);
                }
                stack.push((rec, Phase::EmitSelf));
                id = rec.left;
            } else if rec.value.less(value) {
                proof {
                    lemma_push_frame(nodes, frames, rec, Phase::Pop);
                }
                stack.push((rec, Phase::Pop));
                id = rec.right;
            } else {
                proof {
                    lemma_push_frame(nodes, frames, rec, Phase::EmitSelf);
                }
                stack.push((rec, Phase::EmitSelf));
                id = 0;
            }
            assert(from_bound(nodes, *value, at) + pending(nodes, frames) =~= from_bound(nodes, *value, id)
                + pending(nodes, stack@));
            assert(frames + path_frames(nodes, *value, at) =~= stack@ + path_frames(nodes, *value, id));
        }
        assert(from_bound(nodes, *value, 0) + pending(nodes, stack@) =~= pending(nodes, stack@));
        assert(stack@ + path_frames(nodes, *value, 0) =~= stack@);
        stack
    }

    fn _iter_by_value<'a>(table: &'a Table, value: &T) -> (r: ValueIter<'a, T>)
        requires
            Self::is_index(table),
        ensures
            r.wf(),
            r.spec_table() == table,
            r.spec_value() == *value,
            r.remaining() == holders(nodes_of::<T>(table@), *value, 1),
    {
        let id = match Self::get_first_id(table) {
            Ok(id) => id,
            Err(_) => 0,
        };
        ValueIter { table, value: *value, id }
    }

    /// A node for `value` that refers to the record `table_id`, not yet stored
    /// and without children.
    pub fn new(value: &T, table_id: usize) -> (node: Self)
        ensures
            node == (TableIndex { id: 0, value: *value, table_id, left: 0, right: 0 }),
    {
        Self { id: 0, value: *value, table_id: table_id, left: 0, right: 0 }
    }
}

} // verus!
