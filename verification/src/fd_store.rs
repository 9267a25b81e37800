//! The two concurrent maps behind the descriptor tables, and what is taken on
//! trust about them.
//!
//! Both are `dashmap::DashMap`s. Verus does not look inside one, so each map
//! gets a name for its contents and every method used gets a wrapper whose
//! contract says, over that name, what the method's source shows. A wrapper
//! that changes a map takes it by `&mut`: a `DashMap` can be changed through
//! a shared reference, and the contracts are only sound while nothing else
//! can do that, which holds because the maps never leave the private fields
//! of [`crate::fdtable::FdTables`].
use crate::fd_model::FDTableEntry;
use dashmap::DashMap;
use std::collections::hash_map::RandomState;
use vstd::prelude::*;

verus! {

/// `dashmap::DashMap`, as an opaque type.
#[verifier::external_type_specification]
#[verifier::external_body]
#[verifier::reject_recursive_types(K)]
#[verifier::reject_recursive_types(V)]
#[verifier::reject_recursive_types(S)]
pub struct ExDashMap<K, V, S>(DashMap<K, V, S>);

/// The slots of one cage.
pub type FdArray = [Option<FDTableEntry>; 1024];

/// Cage id to the slots of that cage.
pub type FdMap = DashMap<u64, FdArray, RandomState>;

/// Real descriptor to the number of references held on it.
pub type CountMap = DashMap<i32, u64, RandomState>;

/// The key-value pairs that an [`FdMap`] holds, each array as the sequence of
/// its slots.
pub uninterp spec fn fd_arrays(tables: FdMap) -> Map<u64, Seq<Option<FDTableEntry>>>;

/// The key-value pairs that a [`CountMap`] holds.
pub uninterp spec fn fd_counts(counts: CountMap) -> Map<i32, u64>;

/// `DashMap::new`: the map it makes holds nothing.
#[verifier::external_body]
pub(crate) fn tables_new() -> (tables: FdMap)
    ensures
        fd_arrays(tables).dom() == Set::<u64>::empty(),
{
    DashMap::new()
}

/// `DashMap::contains_key`: whether the map holds the key.
#[verifier::external_body]
pub(crate) fn tables_contains(tables: &FdMap, cageid: u64) -> (found: bool)
    ensures
        found == fd_arrays(*tables).contains_key(cageid),
{
    tables.contains_key(&cageid)
}

/// `DashMap::get`, then one slot of the array found. The key must be present:
/// `get` returns `None` otherwise and the wrapper would panic.
#[verifier::external_body]
pub(crate) fn tables_slot(tables: &FdMap, cageid: u64, index: usize) -> (slot: Option<FDTableEntry>)
    requires
        fd_arrays(*tables).contains_key(cageid),
        index < 1024,
    ensures
        slot == fd_arrays(*tables)[cageid][index as int],
{
    tables.get(&cageid).unwrap()[index]
}

/// `DashMap::get_mut`, then a write to one slot of the array found: that slot
/// changes and nothing else does. The key must be present.
#[verifier::external_body]
pub(crate) fn tables_set_slot(
    tables: &mut FdMap,
    cageid: u64,
    index: usize,
    slot: Option<FDTableEntry>,
)
    requires
        fd_arrays(*old(tables)).contains_key(cageid),
        index < 1024,
    ensures
        fd_arrays(*final(tables)) == fd_arrays(*old(tables)).insert(
            cageid,
            fd_arrays(*old(tables))[cageid].update(index as int, slot),
        ),
{
    tables.get_mut(&cageid).unwrap()[index] = slot;
}

/// `DashMap::insert`: the key maps to the value given, whether or not it was
/// present before, and no other key changes.
#[verifier::external_body]
pub(crate) fn tables_insert(tables: &mut FdMap, cageid: u64, array: FdArray)
    ensures
        fd_arrays(*final(tables)) == fd_arrays(*old(tables)).insert(cageid, array@),
{
    tables.insert(cageid, array);
}

/// `DashMap::remove`: the key is gone and no other key changes.
#[verifier::external_body]
pub(crate) fn tables_remove(tables: &mut FdMap, cageid: u64)
    ensures
        fd_arrays(*final(tables)) == fd_arrays(*old(tables)).remove(cageid),
{
    tables.remove(&cageid);
}

/// `DashMap::new`: the map it makes holds nothing.
#[verifier::external_body]
pub(crate) fn counts_new() -> (counts: CountMap)
    ensures
        fd_counts(counts).dom() == Set::<i32>::empty(),
{
    DashMap::new()
}

/// `DashMap::get`: the value under the key, copied out, or `None` where the
/// key is absent.
#[verifier::external_body]
pub(crate) fn counts_get(counts: &CountMap, realfd: i32) -> (count: Option<u64>)
    ensures
        count == (if fd_counts(*counts).contains_key(realfd) {
            Some(fd_counts(*counts)[realfd])
        } else {
            None
        }),
{
    match counts.get(&realfd) {
        Some(count) => Some(*count),
        None => None,
    }
}

/// `DashMap::insert`: the key maps to the value given, whether or not it was
/// present before, and no other key changes.
#[verifier::external_body]
pub(crate) fn counts_insert(counts: &mut CountMap, realfd: i32, count: u64)
    ensures
        fd_counts(*final(counts)) == fd_counts(*old(counts)).insert(realfd, count),
{
    counts.insert(realfd, count);
}

/// `DashMap::remove`: the key is gone and no other key changes.
#[verifier::external_body]
pub(crate) fn counts_remove(counts: &mut CountMap, realfd: i32)
    ensures
        fd_counts(*final(counts)) == fd_counts(*old(counts)).remove(realfd),
{
    counts.remove(&realfd);
}

} // verus!
