//! Hash maps and hash sets keyed by integers, hashed by `fxhash`.
//!
//! Nothing in this file is proved: each function states what the call it
//! makes does to the contents of the collection.

use fxhash::{FxHashMap, FxHashSet};
use vstd::prelude::*;

verus! {

/// The hasher of `fxhash`. Nothing is said of the values it computes.
#[verifier::external_type_specification]
#[verifier::external_body]
pub struct ExFxHasher(fxhash::FxHasher);

/// The builder of hashers that `FxHashMap` and `FxHashSet` are made with.
#[verifier::external_type_specification]
#[verifier::external_body]
#[verifier::reject_recursive_types(H)]
pub struct ExBuildHasherDefault<H>(std::hash::BuildHasherDefault<H>);

/// `FxHashMap::default`: a map without entries.
#[verifier::external_body]
pub(crate) fn map_new<V>() -> (made: FxHashMap<usize, V>)
    ensures
        made@.dom() == Set::<usize>::empty(),
{
    FxHashMap::default()
}

/// `HashMap::get` on an `FxHashMap`: the value stored under `key`, if there
/// is one.
#[verifier::external_body]
pub(crate) fn map_get<'a, V>(m: &'a FxHashMap<usize, V>, key: usize) -> (r: Option<&'a V>)
    ensures
        r is Some == m@.contains_key(key),
        r is Some ==> *r->0 == m@[key],
{
    m.get(&key)
}

/// `HashMap::insert` on an `FxHashMap`: afterwards `value` is stored under
/// `key`, and the other entries are as before.
#[verifier::external_body]
pub(crate) fn map_insert<V>(m: &mut FxHashMap<usize, V>, key: usize, value: V)
    ensures
        final(m)@ == old(m)@.insert(key, value),
{
    m.insert(key, value);
}

/// `FxHashSet::default`: a set without members.
#[verifier::external_body]
pub(crate) fn set_new() -> (made: FxHashSet<usize>)
    ensures
        made@ == Set::<usize>::empty(),
{
    FxHashSet::default()
}

/// `HashSet::insert` on an `FxHashSet`: afterwards `value` is a member, and
/// the result says whether it was not one before.
#[verifier::external_body]
pub(crate) fn set_insert(s: &mut FxHashSet<usize>, value: usize) -> (fresh: bool)
    ensures
        final(s)@ == old(s)@.insert(value),
        fresh == !old(s)@.contains(value),
{
    s.insert(value)
}

/// `HashSet::remove` on an `FxHashSet`: afterwards `value` is no member, and
/// the result says whether it was one before.
#[verifier::external_body]
pub(crate) fn set_remove(s: &mut FxHashSet<usize>, value: usize) -> (present: bool)
    ensures
        final(s)@ == old(s)@.remove(value),
        present == old(s)@.contains(value),
{
    s.remove(&value)
}

} // verus!
