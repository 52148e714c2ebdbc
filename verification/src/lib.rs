//! A small embedded storage engine: tables of fixed-size records, a codec
//! contract for typed records, and a persistent search-tree index whose nodes
//! are themselves records of a table.
//!
//! A [`Table`] is an array of byte blocks of one size. A record type that
//! implements [`TableTrait`] can be inserted into a table, read back by its
//! identity and updated in place. A [`TableIndex`] is such a record: the
//! node of a binary search tree that is kept in a table of its own and maps
//! the values of a [`Field`] to identities of records.
//!
//! The modules `tree`, `lookup`, `order` and `sorting` hold the model of the
//! index and what is proved of it: what a search yields after values were
//! added and records excluded, in which order a walk visits the nodes, and
//! that this order does not depend on the order of adding.

pub mod bytes;
pub mod error;
pub mod field;
pub mod lookup;
pub mod order;
pub mod sorting;
pub mod table;
pub mod table_index;
pub mod table_trait;
pub mod tree;
pub mod varchar;

pub use bytes::Bytes;
pub use error::Error;
pub use field::Field;
pub use table::{BlockIter, Table};
pub use table_index::{IndexIter, SearchIter, TableIndex, ValueIter};
pub use table_trait::{RecordIter, TableTrait};
pub use tree::Phase;
pub use varchar::Varchar;
