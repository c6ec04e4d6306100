//! An in-memory associative container: a separately chained hash table with
//! a rotating-XOR hash, capacity-doubling resize at a 3/4 load factor, and
//! full-table enumeration.  Keys may repeat in a chain: a lookup returns the
//! value of the last matching entry in scan order, a delete removes every
//! matching entry in one call.

pub mod data;
pub mod hash;
pub mod table;

pub use table::HashTable;
pub use table::TableError;
