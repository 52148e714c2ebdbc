use vstd::prelude::*;
use vstd::slice::{slice_subrange, slice_to_vec};

use crate::error::Error;
use crate::field::Field;
use crate::table_trait::TableTrait;

verus! {

/// A table is an array of byte blocks of one fixed size, each addressed by its
/// zero-based slot. It keeps the path under which it is stored, the block size
/// and the blocks themselves.
#[derive(Debug)]
pub struct Table {
    path: String,
    block_size: usize,
    blocks: Vec<Vec<u8>>,
}

impl View for Table {
    type V = Seq<Seq<u8>>;

    /// The blocks of the table, by slot.
    closed spec fn view(&self) -> Seq<Seq<u8>> {
        Seq::new(self.blocks@.len(), |i: int| self.blocks@[i]@)
    }
}

/// The blocks that the bytes of a stored table fall into: as many blocks of
/// `size` bytes as the bytes have in full.
pub open spec fn chunks(data: Seq<u8>, size: int) -> Seq<Seq<u8>> {
    Seq::new((data.len() as int / size) as nat, |i: int| data.subrange(i * size, i * size + size))
}

/// The bytes of the blocks, one block after the other.
pub open spec fn joined(blocks: Seq<Seq<u8>>) -> Seq<u8>
    decreases blocks.len(),
{
    if blocks.len() == 0 {
        Seq::empty()
    } else {
        joined(blocks.drop_last()) + blocks.last()
    }
}

/// The bytes of blocks of one size fall into these blocks again.
pub proof fn law_chunks_of_joined(blocks: Seq<Seq<u8>>, size: int)
    requires
        size > 0,
        forall|i: int| 0 <= i < blocks.len() ==> (#[trigger] blocks[i]).len() == size,
    ensures
        joined(blocks).len() == blocks.len() * size,
        chunks(joined(blocks), size) == blocks,
    decreases blocks.len(),
{
    let count = blocks.len() as int;
    if count == 0 {
        assert(0 == 0 * size) by (nonlinear_arith);
        assert(0int / size == 0) by (nonlinear_arith)
            requires
                size > 0,
        ;
        assert(chunks(joined(blocks), size) =~= blocks);
    } else {
        let fewer = blocks.drop_last();
        law_chunks_of_joined(fewer, size);
        let data = joined(blocks);
        assert(data.len() == count * size) by (nonlinear_arith)
            requires
                data.len() == (count - 1) * size + size,
        ;
        assert(data.len() as int / size == count) by (nonlinear_arith)
            requires
                data.len() == count * size,
                size > 0,
        ;
        assert forall|i: int| 0 <= i < count implies #[trigger] chunks(data, size)[i] == blocks[i] by {
            assert(0 <= i * size && i * size + size <= count * size) by (nonlinear_arith)
                requires
                    0 <= i < count,
                    size > 0,
            ;
            if i < count - 1 {
                assert(i * size + size <= (count - 1) * size) by (nonlinear_arith)
                    requires
                        0 <= i < count - 1,
                        size > 0,
                ;
                assert(chunks(joined(fewer), size)[i] == fewer[i]);
                assert(data.subrange(i * size, i * size + size) =~= joined(fewer).subrange(
                    i * size,
                    i * size + size,
                ));
            } else {
                assert(data.subrange(i * size, i * size + size) =~= blocks.last());
            }
        }
        assert(chunks(data, size) =~= blocks);
    }
}

/// The keys that `key` reads from the blocks, by slot.
pub open spec fn keys_of<T>(blocks: Seq<Seq<u8>>, key: spec_fn(Seq<u8>) -> T) -> Seq<T> {
    Seq::new(blocks.len(), |i: int| key(blocks[i]))
}

/// `key` says what `get_value` returns on every block.
pub open spec fn reads_key<T, F: Fn(&[u8]) -> T>(get_value: F, key: spec_fn(Seq<u8>) -> T) -> bool {
    forall|b: &[u8], v: T| #[trigger] call_ensures(get_value, (b,), v) ==> v == key(b@)
}

/// The keys never decrease from one slot to the next.
pub open spec fn ascending<T: Field>(keys: Seq<T>) -> bool {
    forall|i: int, j: int| 0 <= i <= j < keys.len() ==> !(#[trigger] keys[j]).spec_less(#[trigger] keys[i])
}

/// The first position whose key is not below `target`, found by looking at
/// the keys one by one from the front; the length if there is none.
pub open spec fn lower_bound<T: Field>(keys: Seq<T>, target: T) -> nat
    decreases keys.len(),
{
    if keys.len() == 0 || !keys[0].spec_less(target) {
        0
    } else {
        1 + lower_bound(keys.skip(1), target)
    }
}

/// `at` is a place where the keys change from below `target` to not below
/// it: the key before `at`, if there is one, is below `target`, and the key
/// at it, if there is one, is not.
pub open spec fn is_boundary<T: Field>(keys: Seq<T>, target: T, at: int) -> bool {
    &&& 0 <= at <= keys.len()
    &&& (at > 0 ==> keys[at - 1].spec_less(target))
    &&& (at < keys.len() ==> !keys[at].spec_less(target))
}

/// A position `at` with every key before it below `target`, and the key at it,
/// if there is one, not below `target`, is the lower bound.
pub proof fn lemma_lower_bound_is<T: Field>(keys: Seq<T>, target: T, at: int)
    requires
        0 <= at <= keys.len(),
        forall|i: int| 0 <= i < at ==> (#[trigger] keys[i]).spec_less(target),
        at < keys.len() ==> !keys[at].spec_less(target),
    ensures
        lower_bound(keys, target) == at,
    decreases keys.len(),
{
    if at > 0 {
        assert(keys[0].spec_less(target));
        let rest = keys.skip(1);
        assert forall|i: int| 0 <= i < at - 1 implies (#[trigger] rest[i]).spec_less(target) by {
            assert(rest[i] == keys[i + 1]);
        }
        lemma_lower_bound_is(rest, target, at - 1);
    }
}

/// The blocks of a run of slots of a table, one at a time.
pub struct BlockIter<'a> {
    table: &'a Table,
    idx: usize,
    idx_to: usize,
}

impl<'a> BlockIter<'a> {
    pub closed spec fn spec_table(&self) -> &'a Table {
        self.table
    }

    /// The slot of the next block.
    pub closed spec fn spec_idx(&self) -> usize {
        self.idx
    }

    /// The slot at which the run ends.
    pub closed spec fn spec_idx_to(&self) -> usize {
        self.idx_to
    }

    /// The run, if it is not over, lies within the table.
    pub open spec fn wf(&self) -> bool {
        self.spec_idx() >= self.spec_idx_to() || self.spec_idx_to() <= self.spec_table()@.len()
    }

    /// The blocks that are still to come.
    pub open spec fn remaining(&self) -> Seq<Seq<u8>> {
        if self.spec_idx() < self.spec_idx_to() {
            self.spec_table()@.subrange(self.spec_idx() as int, self.spec_idx_to() as int)
        } else {
            Seq::empty()
        }
    }

    /// The next block of the run, read from the table, if there is one.
    pub fn next(&mut self) -> (r: Option<Vec<u8>>)
        requires
            old(self).wf(),
        ensures
            final(self).wf(),
            final(self).spec_table() == old(self).spec_table(),
            final(self).spec_idx_to() == old(self).spec_idx_to(),
            old(self).remaining().len() == 0 ==> r is None && *final(self) == *old(self),
            old(self).remaining().len() > 0 ==> {
                &&& r is Some
                &&& r->Some_0@ == old(self).remaining()[0]
                &&& final(self).spec_idx() == old(self).spec_idx() + 1
                &&& final(self).remaining() == old(self).remaining().skip(1)
            },
    {
        if self.idx < self.idx_to {
            let block = self.table.get(self.idx).unwrap();
            self.idx += 1;
            assert(self.remaining() =~= old(self).remaining().skip(1));
            Some(block)
        } else {
            None
        }
    }
}

impl Table {
    /// The path under which the table is stored.
    pub closed spec fn spec_path(&self) -> Seq<char> {
        self.path@
    }

    /// The size of every block, in bytes.
    pub closed spec fn spec_block_size(&self) -> usize {
        self.block_size
    }

    /// Blocks have a positive size, and every block has it.
    pub open spec fn wf(&self) -> bool {
        &&& self.spec_block_size() > 0
        &&& forall|i: int| 0 <= i < self@.len() ==> (#[trigger] self@[i]).len() == self.spec_block_size()
    }

    /// Creates a table without records for records of type `T`.
    pub fn new<T: TableTrait>(path: &str) -> (table: Table)
        requires
            T::spec_storable(),
        ensures
            table.wf(),
            table@ == Seq::<Seq<u8>>::empty(),
            table.spec_block_size() == T::spec_block_size(),
            table.spec_path() == path@,
    {
        let table = Table { path: path.to_owned(), block_size: T::block_size(), blocks: Vec::new() };
        assert(table@ =~= Seq::<Seq<u8>>::empty());
        table
    }

    /// Opens a table for records of type `T` whose stored bytes are `data`.
    /// Bytes after the last full block are left out.
    pub fn open<T: TableTrait>(path: &str, data: &[u8]) -> (table: Table)
        requires
            T::spec_storable(),
        ensures
            table.wf(),
            table@ == chunks(data@, T::spec_block_size() as int),
            table.spec_block_size() == T::spec_block_size(),
            table.spec_path() == path@,
    {
        let block_size = T::block_size();
        let length = data.len();
        let mut blocks: Vec<Vec<u8>> = Vec::new();
        let mut start: usize = 0;
        assert(0 == 0 * block_size) by (nonlinear_arith);
        while length - start >= block_size
            invariant
                block_size > 0,
                forall|j: int| 0 <= j < blocks@.len() ==> (#[trigger] blocks@[j])@.len() == block_size,
                length == data@.len(),
                start <= length,
                start == blocks@.len() * block_size,
                forall|j: int|
                    0 <= j < blocks@.len() ==> (#[trigger] blocks@[j])@ == data@.subrange(
                        j * block_size,
                        j * block_size + block_size,
                    ),
            decreases length - start,
        {
            let ghost k = blocks@.len() as int;
            let block = slice_to_vec(slice_subrange(data, start, start + block_size));
            blocks.push(block);
            start += block_size;
            assert(start == (k + 1) * block_size) by (nonlinear_arith)
                requires
                    start == k * block_size + block_size,
            ;
        }
        proof {
            let k = blocks@.len() as int;
            let size = block_size as int;
            assert(length as int / size == k) by (nonlinear_arith)
                requires
                    k * size <= length < k * size + size,
                    size > 0,
            ;
        }
        let table = Table { path: path.to_owned(), block_size, blocks };
        assert(table@ =~= chunks(data@, T::spec_block_size() as int));
        table
    }

    /// The bytes of the table as they are stored: its blocks, one after the
    /// other.
    pub fn contents(&self) -> (data: Vec<u8>)
        ensures
            data@ == joined(self@),
    {
        let mut data: Vec<u8> = Vec::new();
        let mut i: usize = 0;
        while i < self.blocks.len()
            invariant
                i <= self.blocks@.len(),
                data@ == joined(self@.take(i as int)),
            decreases self.blocks@.len() - i,
        {
            let mut block = slice_to_vec(self.blocks[i].as_slice());
            data.append(&mut block);
            proof {
                let more = self@.take(i + 1);
                assert(more.drop_last() =~= self@.take(i as int));
                assert(more.last() == self@[i as int]);
            }
            i += 1;
        }
        assert(self@.take(i as int) =~= self@);
        data
    }

    pub fn path(&self) -> (path: &str)
        ensures
            path@ == self.spec_path(),
    {
        self.path.as_str()
    }

    pub fn block_size(&self) -> (size: usize)
        ensures
            size == self.spec_block_size(),
    {
        self.block_size
    }

    /// The number of records inserted.
    pub fn size(&self) -> (count: usize)
        ensures
            count == self@.len(),
    {
        self.blocks.len()
    }

    /// Table is empty.
    pub fn empty(&self) -> (none: bool)
        ensures
            none == (self@.len() == 0),
    {
        self.size() == 0
    }

    /// Gets the bytes of a record by its slot.
    pub fn get(&self, idx: usize) -> (r: Result<Vec<u8>, Error>)
        ensures
            idx < self@.len() ==> r is Ok && r->Ok_0@ == self@[idx as int],
            idx >= self@.len() ==> r == Err::<Vec<u8>, Error>(Error::NotFound),
    {
        if idx < self.blocks.len() {
            Ok(slice_to_vec(self.blocks[idx].as_slice()))
        } else {
            Err(Error::NotFound)
        }
    }

    /// Inserts a block at the end of the table and returns its slot.
    pub fn append(&mut self, block: &[u8]) -> (r: Result<usize, Error>)
        requires
            old(self).wf(),
            block@.len() == old(self).spec_block_size(),
        ensures
            r == Ok::<usize, Error>(old(self)@.len() as usize),
            final(self)@ == old(self)@.push(block@),
            final(self).spec_block_size() == old(self).spec_block_size(),
            final(self).spec_path() == old(self).spec_path(),
            final(self).wf(),
    {
        let idx = self.size();
        self.blocks.push(slice_to_vec(block));
        assert(self@ =~= old(self)@.push(block@));
        Ok(idx)
    }

    /// Overwrites the block at the slot `idx`.
    pub fn update(&mut self, block: &[u8], idx: usize) -> (r: Result<(), Error>)
        requires
            old(self).wf(),
            block@.len() == old(self).spec_block_size(),
        ensures
            idx < old(self)@.len() ==> r == Ok::<(), Error>(()) && final(self)@ == old(self)@.update(
                idx as int,
                block@,
            ),
            idx >= old(self)@.len() ==> r == Err::<(), Error>(Error::NotFound) && *final(self) == *old(self),
            final(self).spec_block_size() == old(self).spec_block_size(),
            final(self).spec_path() == old(self).spec_path(),
            final(self).wf(),
    {
        if idx < self.blocks.len() {
            self.blocks[idx] = slice_to_vec(block);
            assert(self@ =~= old(self)@.update(idx as int, block@));
            Ok(())
        } else {
            Err(Error::NotFound)
        }
    }

    /// Iterates all records as data blocks.
    pub fn iter(&self) -> (r: BlockIter<'_>)
        ensures
            r.wf(),
            r.spec_table() == self,
            r.spec_idx() == 0,
            r.spec_idx_to() == self@.len(),
            r.remaining() == self@,
    {
        let r = BlockIter { table: self, idx: 0, idx_to: self.size() };
        assert(r.remaining() =~= self@);
        r
    }

    /// Iterates records as data blocks between given indices
    /// (**>= idx_from** and **< idx_to**).
    pub fn iter_between(&self, idx_from: usize, idx_to: usize) -> (r: Result<BlockIter<'_>, Error>)
        requires
            idx_from >= idx_to || idx_to <= self@.len(),
        ensures
            r is Ok,
            r->Ok_0.wf(),
            r->Ok_0.spec_table() == self,
            r->Ok_0.spec_idx() == idx_from,
            r->Ok_0.spec_idx_to() == idx_to,
    {
        Ok(BlockIter { table: self, idx: idx_from, idx_to })
    }

    /// Finds the slot of the first block whose value is not below the given
    /// **value**, by bisection; the number of blocks if there is none. The
    /// function **get_value** extracts the value to compare from a block, and
    /// the blocks are taken to be stored in the order of these values. Where
    /// they are not, the slot is still one at which the values change from
    /// below **value** to not below it.
    pub fn find_sorted<T: Field, F: Fn(&[u8]) -> T>(&self, value: T, get_value: &F) -> (idx: usize)
        requires
            self.wf(),
            forall|b: &[u8]| b@.len() == self.spec_block_size() ==> call_requires(*get_value, (b,)),
        ensures
            idx <= self@.len(),
            forall|key: spec_fn(Seq<u8>) -> T| #[trigger]
                reads_key(*get_value, key) ==> {
                    &&& is_boundary(keys_of(self@, key), value, idx as int)
                    &&& ascending(keys_of(self@, key)) ==> idx == lower_bound(keys_of(self@, key), value)
                },
    {
        let count: usize = self.size();
        let mut idx: usize = 0;
        let mut size: usize = count;

        while size > 0
            invariant
                self.wf(),
                count == self@.len(),
                forall|b: &[u8]| b@.len() == self.spec_block_size() ==> call_requires(*get_value, (b,)),
                idx + size <= self@.len(),
                forall|key: spec_fn(Seq<u8>) -> T| #[trigger]
                    reads_key(*get_value, key) ==> {
                        let keys = keys_of(self@, key);
                        &&& (idx > 0 ==> keys[idx - 1].spec_less(value))
                        &&& (idx + size < keys.len() ==> !keys[idx + size].spec_less(value))
                        &&& ascending(keys) ==> {
                            &&& forall|i: int| 0 <= i < idx ==> (#[trigger] keys[i]).spec_less(value)
                        }
                    },
            decreases size,
        {
            let at = idx + size / 2;
            let block = self.get(at).unwrap();
            let found = get_value(block.as_slice());
            let ghost before = idx;

            if found.less(&value) {
                idx += size / 2 + 1;
                size = size / 2 + size % 2 - 1;
            } else {
                size = size / 2;
            }
            assert forall|key: spec_fn(Seq<u8>) -> T| #[trigger]
                reads_key(*get_value, key) implies {
                let keys = keys_of(self@, key);
                &&& (idx > 0 ==> keys[idx - 1].spec_less(value))
                &&& (idx + size < keys.len() ==> !keys[idx + size].spec_less(value))
                &&& ascending(keys) ==> {
                    &&& forall|i: int| 0 <= i < idx ==> (#[trigger] keys[i]).spec_less(value)
                }
            } by {
                let keys = keys_of(self@, key);
                assert(found == key(block@));
                assert(keys[at as int] == found);
                if ascending(keys) && found.spec_less(value) {
                    assert forall|i: int| 0 <= i < idx implies (#[trigger] keys[i]).spec_less(value) by {
                        if i >= before {
                            assert(!keys[at as int].spec_less(keys[i]));
                            T::lemma_total_order(keys[i], found, value);
                        }
                    }
                }
            }
        }
        proof {
            assert forall|key: spec_fn(Seq<u8>) -> T| #[trigger]
                reads_key(*get_value, key) implies {
                &&& is_boundary(keys_of(self@, key), value, idx as int)
                &&& ascending(keys_of(self@, key)) ==> idx == lower_bound(keys_of(self@, key), value)
            } by {
                let keys = keys_of(self@, key);
                if ascending(keys) {
                    lemma_lower_bound_is(keys, value, idx as int);
                }
            }
        }
        idx
    }
}

} // verus!
