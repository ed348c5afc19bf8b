//! Archiving a `hashbrown` hash table.

use vstd::multiset::Multiset;
use vstd::prelude::*;

use crate::serialize::HashTableResolver;
use crate::table::ArchivedHashTable;

verus! {

/// The numerator of the load factor of a table that is archived from a
/// [`HashTable`].
pub const LOAD_NUMERATOR: usize = 7;

/// The denominator of that load factor.
pub const LOAD_DENOMINATOR: usize = 8;

/// A `hashbrown::HashTable` of 64-bit integers that are their own hashes.
#[verifier::external_body]
pub struct HashTable {
    table: hashbrown::HashTable<u64>,
}

/// The elements of a table.
pub uninterp spec fn hash_table_items(table: HashTable) -> Multiset<u64>;

/// `hashbrown::HashTable::new`: the table that it makes has no elements.
#[verifier::external_body]
fn hash_table_new() -> (table: HashTable)
    ensures
        hash_table_items(table) == Multiset::<u64>::empty(),
{
    HashTable { table: hashbrown::HashTable::new() }
}

/// `hashbrown::HashTable::insert_unique`: it adds one element under `hash`, whether or
/// not an equal one is there.
///
/// It panics where the table would grow beyond what can be allocated; tables that
/// are far smaller are left.
#[verifier::external_body]
fn hash_table_insert(table: &mut HashTable, hash: u64, value: u64)
    requires
        hash_table_items(*old(table)).len() < isize::MAX / 64,
    ensures
        hash_table_items(*final(table)) == hash_table_items(*old(table)).insert(value),
{
    table.table.insert_unique(hash, value, |value| hash_of(value));
}

/// `hashbrown::HashTable::len`: the number of elements of the table.
#[verifier::external_body]
fn hash_table_len(table: &HashTable) -> (len: usize)
    ensures
        len == hash_table_items(*table).len(),
{
    table.table.len()
}

/// The hash of an element: the element itself.
pub fn hash_of(value: &u64) -> (hash: u64)
    ensures
        hash == *value,
{
    *value
}

impl HashTable {
    /// A table with no elements.
    pub fn new() -> (table: HashTable)
        ensures
            hash_table_items(table) == Multiset::<u64>::empty(),
    {
        hash_table_new()
    }

    /// Adds `value`. Returns whether there was room for it.
    pub fn insert(&mut self, value: u64) -> (inserted: bool)
        ensures
            inserted <==> hash_table_items(*old(self)).len() < isize::MAX / 64,
            hash_table_items(*final(self)) == if inserted {
                hash_table_items(*old(self)).insert(value)
            } else {
                hash_table_items(*old(self))
            },
    {
        if hash_table_len(self) < isize::MAX as usize / 64 {
            hash_table_insert(self, hash_of(&value), value);
            true
        } else {
            false
        }
    }

    /// Resolves the archived form of the table at position `out`.
    pub fn resolve(&self, resolver: HashTableResolver, out: usize) -> (table: ArchivedHashTable<
        u64,
    >)
        requires
            hash_table_items(*self).len() * LOAD_DENOMINATOR <= usize::MAX,
            hash_table_items(*self).len() != 0 ==> i32::MIN <= resolver.pos - out <= i32::MAX,
        ensures
            ({
                let len = hash_table_items(*self).len() as int;
                &&& table.ptr.pos == out
                &&& if len == 0 {
                    table.ptr.offset == 1
                } else {
                    table.ptr.target() == resolver.pos
                }
                &&& len != 0 ==> out + table.ptr.offset == resolver.pos
                &&& table.len.native == len as u32
                &&& table.cap.native == crate::sizes::spec_capacity_from_len(
                    len,
                    (LOAD_NUMERATOR as int, LOAD_DENOMINATOR as int),
                ) as u32
                &&& len == 0 ==> table.cap.native == 0
                &&& len != 0 ==> exists|capacity: usize|
                    {
                        &&& table.cap.native == #[trigger] (capacity as u32)
                        &&& capacity >= len + 1
                        &&& 8 * len < (capacity + 1) * 7
                        &&& capacity == len + 1 || capacity * 7 <= 8 * len
                    }
            }),
    {
        ArchivedHashTable::resolve_from_len(
            hash_table_len(self),
            (LOAD_NUMERATOR, LOAD_DENOMINATOR),
            resolver,
            out,
        )
    }

    /// Resolves the archived form of the table at position `out`, where its size
    /// and the distance to its memory can be archived.
    pub fn checked_resolve(&self, resolver: HashTableResolver, out: usize) -> (table: Option<
        ArchivedHashTable<u64>,
    >)
        ensures
            ({
                let len = hash_table_items(*self).len() as int;
                &&& table is Some <==> {
                    &&& len * LOAD_DENOMINATOR <= usize::MAX
                    &&& len != 0 ==> i32::MIN <= resolver.pos - out <= i32::MAX
                }
                &&& table matches Some(table) ==> {
                    &&& table.ptr.pos == out
                    &&& if len == 0 {
                        table.ptr.offset == 1
                    } else {
                        table.ptr.target() == resolver.pos
                    }
                    &&& len != 0 ==> out + table.ptr.offset == resolver.pos
                    &&& table.len.native == len as u32
                    &&& table.cap.native == crate::sizes::spec_capacity_from_len(
                        len,
                        (LOAD_NUMERATOR as int, LOAD_DENOMINATOR as int),
                    ) as u32
                    &&& len == 0 ==> table.cap.native == 0
                    &&& len != 0 ==> exists|capacity: usize|
                        {
                            &&& table.cap.native == #[trigger] (capacity as u32)
                            &&& capacity >= len + 1
                            &&& 8 * len < (capacity + 1) * 7
                            &&& capacity == len + 1 || capacity * 7 <= 8 * len
                        }
                }
            }),
    {
        let len = hash_table_len(self);
        let distance: i128 = resolver.pos as i128 - out as i128;
        if len > usize::MAX / LOAD_DENOMINATOR {
            return None;
        }
        if len != 0 && (distance < i32::MIN as i128 || distance > i32::MAX as i128) {
            return None;
        }
        Some(self.resolve(resolver, out))
    }
}

} // verus!
