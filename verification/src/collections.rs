//! The hash maps and sets of `rustc_hash` that the planner and the contour
//! tracer use. `FxHashMap` and `FxHashSet` are `std`'s `HashMap` and `HashSet`
//! with the deterministic `FxBuildHasher`; Verus sees their contents through
//! `std`'s views (`Map` and `Set`). Each function here is trusted: it makes one
//! call and its contract states what `std`'s documentation says of that call,
//! for the concrete key types used here, whose `Hash` and `Eq` are `std`'s own.

use vstd::prelude::*;
use rustc_hash::{FxHashMap, FxHashSet};

verus! {

/// `rustc_hash::FxBuildHasher`, the hasher of the maps and sets below; opaque.
#[verifier::external_type_specification]
#[verifier::external_body]
pub struct ExFxBuildHasher(rustc_hash::FxBuildHasher);

/// A contour end point key: grid position (in hundredths of a cell) and slot.
pub type EndKey = (i64, i64, u8);

/// A contour end point: grid position in hundredths of a cell.
pub type EndPoint = (i64, i64);

/// `FxHashMap::default()`: an empty map.
#[verifier::external_body]
pub(crate) fn index_map_new<V>() -> (r: FxHashMap<usize, V>)
    ensures
        r@.dom() == Set::<usize>::empty(),
{
    FxHashMap::default()
}

/// `HashMap::insert`: afterwards the key maps to the value; the other entries are kept.
#[verifier::external_body]
pub(crate) fn index_map_insert<V>(m: &mut FxHashMap<usize, V>, k: usize, v: V)
    ensures
        final(m)@ == old(m)@.insert(k, v),
{
    m.insert(k, v);
}

/// `HashMap::remove`: the entry of the key leaves the map and its value is returned.
#[verifier::external_body]
pub(crate) fn index_map_remove<V>(m: &mut FxHashMap<usize, V>, k: usize) -> (r: Option<V>)
    ensures
        final(m)@ == old(m)@.remove(k),
        r == (if old(m)@.contains_key(k) {
            Some(old(m)@[k])
        } else {
            None
        }),
{
    m.remove(&k)
}

/// `m.keys().next().copied()`: some key of the map, `None` when it is empty.
/// Which key comes first depends on the table's layout and is not stated.
#[verifier::external_body]
pub(crate) fn index_map_first_key<V>(m: &FxHashMap<usize, V>) -> (r: Option<usize>)
    ensures
        r is None <==> m@.dom() =~= Set::<usize>::empty(),
        r matches Some(k) ==> m@.contains_key(k),
{
    m.keys().next().copied()
}

/// `FxHashSet::default()`: an empty set.
#[verifier::external_body]
pub(crate) fn index_set_new() -> (r: FxHashSet<usize>)
    ensures
        r@ == Set::<usize>::empty(),
{
    FxHashSet::default()
}

/// `HashSet::insert`: afterwards the set holds the value.
#[verifier::external_body]
pub(crate) fn index_set_insert(s: &mut FxHashSet<usize>, v: usize)
    ensures
        final(s)@ == old(s)@.insert(v),
{
    s.insert(v);
}

/// Collects the set's elements into a vector, in the set's iteration order,
/// which is not stated: each element once.
#[verifier::external_body]
pub(crate) fn index_set_into_vec(s: FxHashSet<usize>) -> (r: Vec<usize>)
    ensures
        r@.to_set() == s@,
        r@.no_duplicates(),
{
    s.into_iter().collect()
}

/// `FxHashMap::default()`: an empty map.
#[verifier::external_body]
pub(crate) fn end_map_new() -> (r: FxHashMap<EndKey, EndPoint>)
    ensures
        r@.dom() == Set::<EndKey>::empty(),
{
    FxHashMap::default()
}

/// `HashMap::contains_key`.
#[verifier::external_body]
pub(crate) fn end_map_contains(m: &FxHashMap<EndKey, EndPoint>, k: EndKey) -> (r: bool)
    ensures
        r == m@.contains_key(k),
{
    m.contains_key(&k)
}

/// `HashMap::get`, copying the value out.
#[verifier::external_body]
pub(crate) fn end_map_get(m: &FxHashMap<EndKey, EndPoint>, k: EndKey) -> (r: Option<EndPoint>)
    ensures
        r == (if m@.contains_key(k) {
            Some(m@[k])
        } else {
            None
        }),
{
    m.get(&k).copied()
}

/// `HashMap::insert`: afterwards the key maps to the value; the other entries are kept.
#[verifier::external_body]
pub(crate) fn end_map_insert(m: &mut FxHashMap<EndKey, EndPoint>, k: EndKey, v: EndPoint)
    ensures
        final(m)@ == old(m)@.insert(k, v),
{
    m.insert(k, v);
}

/// `HashMap::remove`: the key's entry leaves the map.
#[verifier::external_body]
pub(crate) fn end_map_remove(m: &mut FxHashMap<EndKey, EndPoint>, k: EndKey)
    ensures
        final(m)@ == old(m)@.remove(k),
{
    m.remove(&k);
}

/// `FxHashMap::default()`: an empty map.
#[verifier::external_body]
pub(crate) fn point_map_new() -> (r: FxHashMap<EndPoint, usize>)
    ensures
        r@.dom() == Set::<EndPoint>::empty(),
{
    FxHashMap::default()
}

/// `HashMap::get`, copying the value out.
#[verifier::external_body]
pub(crate) fn point_map_get(m: &FxHashMap<EndPoint, usize>, k: EndPoint) -> (r: Option<usize>)
    ensures
        r == (if m@.contains_key(k) {
            Some(m@[k])
        } else {
            None
        }),
{
    m.get(&k).copied()
}

/// `HashMap::insert`: afterwards the key maps to the value; the other entries are kept.
#[verifier::external_body]
pub(crate) fn point_map_insert(m: &mut FxHashMap<EndPoint, usize>, k: EndPoint, v: usize)
    ensures
        final(m)@ == old(m)@.insert(k, v),
{
    m.insert(k, v);
}

} // verus!
