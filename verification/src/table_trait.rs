use vstd::prelude::*;

use std::marker::PhantomData;

use crate::error::Error;
use crate::field::Field;
use crate::table::{ascending, is_boundary, lower_bound, BlockIter, Table};

verus! {

/// The slot of the record with identity `id` in a table of `count` records:
/// identities start at one, and zero stands for no record.
pub open spec fn slot_of(count: nat, id: usize) -> Result<usize, Error> {
    if 0 < id <= count {
        Ok((id - 1) as usize)
    } else {
        Err(Error::NotFound)
    }
}

/// The records of a run of slots of a table, one at a time.
pub struct RecordIter<'a, R> {
    blocks: BlockIter<'a>,
    marker: PhantomData<R>,
}

impl<'a, R> RecordIter<'a, R> {
    pub closed spec fn spec_table(&self) -> &'a Table {
        self.blocks.spec_table()
    }

    /// The slot of the next record.
    pub closed spec fn spec_idx(&self) -> usize {
        self.blocks.spec_idx()
    }

    /// The slot at which the run ends.
    pub closed spec fn spec_idx_to(&self) -> usize {
        self.blocks.spec_idx_to()
    }
}

impl<'a, R: TableTrait> RecordIter<'a, R> {
    /// The run, if it is not over, lies within the table, and the blocks of
    /// the table have the size of the records.
    pub open spec fn wf(&self) -> bool {
        &&& self.spec_idx() >= self.spec_idx_to() || self.spec_idx_to() <= self.spec_table()@.len()
        &&& self.spec_table().wf()
        &&& self.spec_table().spec_block_size() == R::spec_block_size()
        &&& R::spec_storable()
    }

    /// The records that are still to come.
    pub open spec fn remaining(&self) -> Seq<R> {
        if self.spec_idx() < self.spec_idx_to() {
            records_of::<R>(self.spec_table()@).subrange(self.spec_idx() as int, self.spec_idx_to() as int)
        } else {
            Seq::empty()
        }
    }

    /// The next record of the run, read from the table, if there is one.
    pub fn next(&mut self) -> (r: Option<R>)
        requires
            old(self).wf(),
        ensures
            final(self).wf(),
            final(self).spec_table() == old(self).spec_table(),
            final(self).spec_idx_to() == old(self).spec_idx_to(),
            old(self).remaining().len() == 0 ==> r is None && final(self).remaining().len() == 0,
            old(self).remaining().len() > 0 ==> {
                &&& r == Some(old(self).remaining()[0])
                &&& final(self).spec_idx() == old(self).spec_idx() + 1
                &&& final(self).remaining() == old(self).remaining().skip(1)
            },
    {
        match self.blocks.next() {
            Some(block) => {
                assert(self.remaining() =~= old(self).remaining().skip(1));
                Some(R::from_bytes(block.as_slice()))
            },
            None => None,
        }
    }
}

/// `key` says what `get_sorted_value` returns on every record.
pub open spec fn reads_record_key<R, T, F: Fn(&R) -> T>(get_sorted_value: F, key: spec_fn(R) -> T) -> bool {
    forall|record: &R, v: T| #[trigger] call_ensures(get_sorted_value, (record,), v) ==> v == key(*record)
}

/// The records that the blocks stand for, by slot.
pub open spec fn records_of<R: TableTrait>(blocks: Seq<Seq<u8>>) -> Seq<R> {
    Seq::new(blocks.len(), |i: int| R::spec_from_bytes(blocks[i]))
}

/// Reading the block of a record gives the record back, for every record
/// of the type.
pub open spec fn round_trips<R: TableTrait>() -> bool {
    forall|record: R| #[trigger] R::spec_from_bytes(record.spec_as_bytes()) == record
}

/// A record that was inserted can be read back at once under its new identity,
/// which is one more than the number of records before the insertion, and it
/// is the inserted record with that identity set.
pub proof fn law_insert_then_get<R: TableTrait>(blocks: Seq<Seq<u8>>, record: R)
    requires
        blocks.len() < usize::MAX,
        round_trips::<R>(),
    ensures
        ({
            let id = (blocks.len() + 1) as usize;
            let stored = record.spec_with_id(id);
            let after = blocks.push(stored.spec_as_bytes());
            &&& slot_of(after.len(), id) == Ok::<usize, Error>((id - 1) as usize)
            &&& R::spec_from_bytes(after[id - 1]) == stored
        }),
{
}

/// What a record type has to offer to be stored in a table: an identity that
/// can be read and set, and a way to and from a block of fixed size.
/// The methods to insert, update, extract and iterate records are built on it.
///
/// The executable methods are held to the functions `spec_id`, `spec_with_id`,
/// `spec_block_size`, `spec_as_bytes` and `spec_from_bytes`, which say in
/// contracts what a record is. A type that is verified defines them. A type
/// that is not may leave them as they stand here, and then nothing is known
/// of its records but what the methods return when they run.
pub trait TableTrait: Sized + Copy {
    /// The identity that the record carries; zero while it is not stored.
    open spec fn spec_id(&self) -> usize {
        arbitrary()
    }

    /// The record with its identity replaced by `id`.
    open spec fn spec_with_id(self, id: usize) -> Self {
        arbitrary()
    }

    /// The size of the record's block, in bytes.
    open spec fn spec_block_size() -> usize {
        arbitrary()
    }

    /// Whether records of the type can be stored at all: whether a `usize`
    /// can hold the size of their block.
    open spec fn spec_storable() -> bool {
        true
    }

    /// The block that stands for the record.
    open spec fn spec_as_bytes(&self) -> Seq<u8> {
        arbitrary()
    }

    /// The record that a block stands for.
    open spec fn spec_from_bytes(block: Seq<u8>) -> Self {
        arbitrary()
    }

    /// Gets a unique id of the record.
    fn id(&self) -> (id: usize)
        ensures
            id == self.spec_id(),
    ;

    /// Sets id to the record.
    fn set_id(&mut self, id: usize)
        ensures
            *final(self) == old(self).spec_with_id(id),
            final(self).spec_id() == id,
    ;

    /// Returns size of the record in bytes.
    fn block_size() -> (size: usize)
        requires
            Self::spec_storable(),
        ensures
            size == Self::spec_block_size(),
            size > 0,
    ;

    /// Represents the record as a block of bytes, from which `from_bytes`
    /// gives the record back.
    fn as_bytes(&self) -> (block: Vec<u8>)
        requires
            Self::spec_storable(),
        ensures
            block@ == self.spec_as_bytes(),
            block@.len() == Self::spec_block_size(),
            Self::spec_from_bytes(block@) == *self,
    ;

    /// Constructs the record from a block of bytes.
    fn from_bytes(block: &[u8]) -> (record: Self)
        requires
            Self::spec_storable(),
            block@.len() == Self::spec_block_size(),
        ensures
            record == Self::spec_from_bytes(block@),
    ;

    /// Gets first (the earliest) record from the table.
    fn get_first(table: &Table) -> (r: Result<Self, Error>)
        requires
            table.wf(),
            table.spec_block_size() == Self::spec_block_size(),
            Self::spec_storable(),
        ensures
            table@.len() > 0 ==> r == Ok::<Self, Error>(Self::spec_from_bytes(table@[0])),
            table@.len() == 0 ==> r == Err::<Self, Error>(Error::NotFound),
    {
        Self::get(table, 1)
    }

    /// Gets id of the first record, which is 1. An empty table has none.
    fn get_first_id(table: &Table) -> (r: Result<usize, Error>)
        ensures
            table@.len() == 0 ==> r == Err::<usize, Error>(Error::NotFound),
            table@.len() > 0 ==> r == Ok::<usize, Error>(1),
    {
        if table.empty() {
            Err(Error::NotFound)
        } else {
            Ok(1)
        }
    }

    /// Gets index of the block in the table by given id.
    fn get_index_by_id(table: &Table, id: usize) -> (r: Result<usize, Error>)
        ensures
            r == slot_of(table@.len(), id),
    {
        if (id > 0) && (id <= table.size()) {
            Ok(id - 1)
        } else {
            Err(Error::NotFound)
        }
    }

    /// Extracts the record from the table by id.
    fn get(table: &Table, id: usize) -> (r: Result<Self, Error>)
        requires
            table.wf(),
            table.spec_block_size() == Self::spec_block_size(),
            Self::spec_storable(),
        ensures
            slot_of(table@.len(), id) is Ok ==> r == Ok::<Self, Error>(Self::spec_from_bytes(table@[id - 1])),
            slot_of(table@.len(), id) is Err ==> r == Err::<Self, Error>(Error::NotFound),
    {
        let idx = Self::get_index_by_id(table, id)?;
        let block = table.get(idx)?;
        let obj = Self::from_bytes(block.as_slice());

        Ok(obj)
    }

    /// Inserts the record to the table. A record that carries an identity
    /// already is refused, and nothing changes. Otherwise the record gets the
    /// next identity, and its block is added at the end of the table.
    fn insert(&mut self, table: &mut Table) -> (r: Result<usize, Error>)
        requires
            old(table).wf(),
            old(table).spec_block_size() == Self::spec_block_size(),
            Self::spec_storable(),
            old(table)@.len() < usize::MAX,
        ensures
            old(self).spec_id() != 0 ==> {
                &&& r == Err::<usize, Error>(Error::InvalidArgument)
                &&& *final(self) == *old(self)
                &&& *final(table) == *old(table)
            },
            old(self).spec_id() == 0 ==> {
                &&& r == Ok::<usize, Error>((old(table)@.len() + 1) as usize)
                &&& *final(self) == old(self).spec_with_id((old(table)@.len() + 1) as usize)
                &&& final(self).spec_id() == old(table)@.len() + 1
                &&& final(table)@ == old(table)@.push(final(self).spec_as_bytes())
                &&& Self::spec_from_bytes(final(table)@[old(table)@.len() as int]) == *final(self)
            },
            final(table).wf(),
            final(table).spec_block_size() == old(table).spec_block_size(),
            final(table).spec_path() == old(table).spec_path(),
    {
        if self.id() != 0 {
            return Err(Error::InvalidArgument);
        }
        let first = self.as_bytes();
        let idx = table.append(first.as_slice())?;
        self.set_id(idx + 1);
        let second = self.as_bytes();
        table.update(second.as_slice(), idx)?;
        assert(table@ =~= old(table)@.push(self.spec_as_bytes()));
        Ok(self.id())
    }

    /// Updates the record in the table: the block at the slot of the record's
    /// identity is overwritten.
    fn update(&self, table: &mut Table) -> (r: Result<(), Error>)
        requires
            old(table).wf(),
            old(table).spec_block_size() == Self::spec_block_size(),
            Self::spec_storable(),
        ensures
            0 < self.spec_id() <= old(table)@.len() ==> {
                &&& r == Ok::<(), Error>(())
                &&& final(table)@ == old(table)@.update(self.spec_id() - 1, self.spec_as_bytes())
            },
            !(0 < self.spec_id() <= old(table)@.len()) ==> {
                &&& r == Err::<(), Error>(Error::NotFound)
                &&& *final(table) == *old(table)
            },
            final(table).wf(),
            final(table).spec_block_size() == old(table).spec_block_size(),
            final(table).spec_path() == old(table).spec_path(),
    {
        let idx = Self::get_index_by_id(table, self.id())?;
        let block = self.as_bytes();
        table.update(block.as_slice(), idx)
    }

    /// Iterates all records from the table.
    fn all<'a>(table: &'a Table) -> (r: RecordIter<'a, Self>)
        requires
            table.wf(),
            table.spec_block_size() == Self::spec_block_size(),
            Self::spec_storable(),
        ensures
            r.spec_table() == table,
            r.spec_idx() == 0,
            r.spec_idx_to() == table@.len(),
    {
        RecordIter { blocks: table.iter(), marker: PhantomData }
    }

    /// Iterates the records from the table between two values
    /// that can be extracted from a record by the function
    /// **get_sorted_value**. The values must be sorted: the run goes from
    /// the first record whose value is not below **sorted_value_from** to the
    /// first whose value is not below **sorted_value_to**. Where the values
    /// are not sorted, the two ends are still slots at which the values change
    /// from below the given value to not below it.
    fn iter_between<'a, T: Field, F: Fn(&Self) -> T>(
        table: &'a Table,
        sorted_value_from: T,
        sorted_value_to: T,
        get_sorted_value: &F,
    ) -> (r: RecordIter<'a, Self>)
        requires
            table.wf(),
            table.spec_block_size() == Self::spec_block_size(),
            Self::spec_storable(),
            forall|record: &Self| call_requires(*get_sorted_value, (record,)),
        ensures
            r.spec_table() == table,
            r.spec_idx() <= table@.len(),
            r.spec_idx_to() <= table@.len(),
            forall|key: spec_fn(Self) -> T| #[trigger]
                reads_record_key(*get_sorted_value, key) ==> {
                    let keys = Seq::new(table@.len(), |i: int| key(Self::spec_from_bytes(table@[i])));
                    &&& is_boundary(keys, sorted_value_from, r.spec_idx() as int)
                    &&& is_boundary(keys, sorted_value_to, r.spec_idx_to() as int)
                    &&& ascending(keys) ==> {
                        &&& r.spec_idx() == lower_bound(keys, sorted_value_from)
                        &&& r.spec_idx_to() == lower_bound(keys, sorted_value_to)
                    }
                },
    {
        let extract = |block: &[u8]| -> (v: T)
            requires
                Self::spec_storable(),
                block@.len() == Self::spec_block_size(),
            ensures
                forall|key: spec_fn(Self) -> T| #[trigger]
                    reads_record_key(*get_sorted_value, key) ==> v == key(Self::spec_from_bytes(block@)),
            {
                let record = Self::from_bytes(block);
                get_sorted_value(&record)
            };
        let idx_from = table.find_sorted(sorted_value_from, &extract);
        let idx_to = table.find_sorted(sorted_value_to, &extract);
        proof {
            assert forall|key: spec_fn(Self) -> T| #[trigger]
                reads_record_key(*get_sorted_value, key) implies {
                let keys = Seq::new(table@.len(), |i: int| key(Self::spec_from_bytes(table@[i])));
                &&& is_boundary(keys, sorted_value_from, idx_from as int)
                &&& is_boundary(keys, sorted_value_to, idx_to as int)
                &&& ascending(keys) ==> {
                    &&& idx_from == lower_bound(keys, sorted_value_from)
                    &&& idx_to == lower_bound(keys, sorted_value_to)
                }
            } by {
                let keys = Seq::new(table@.len(), |i: int| key(Self::spec_from_bytes(table@[i])));
                let block_key = |block: Seq<u8>| key(Self::spec_from_bytes(block));
                assert(crate::table::reads_key(extract, block_key));
                assert(crate::table::keys_of(table@, block_key) =~= keys);
            }
        }
        RecordIter { blocks: table.iter_between(idx_from, idx_to).unwrap(), marker: PhantomData }
    }
}

} // verus!
