use vstd::prelude::*;
use rustc_hash::{FxHashMap, FxHashSet};

verus! {

/// rustc_hash's hasher builder, carried opaquely in the maps below.
#[verifier::external_type_specification]
#[verifier::external_body]
pub struct ExFxBuildHasher(rustc_hash::FxBuildHasher);

/// Relies on rustc_hash's `FxHashMap` (std's `HashMap` with the deterministic `FxBuildHasher`):
/// `insert` maps the key to the value and keeps every other entry.
#[verifier::external_body]
pub(crate) fn fx_insert<V>(m: &mut FxHashMap<u32, V>, k: u32, v: V)
    ensures
        final(m)@ == old(m)@.insert(k, v),
{
    m.insert(k, v);
}

/// Relies on rustc_hash's `FxHashMap`: `get` finds the value stored under the key, if any.
#[verifier::external_body]
pub(crate) fn fx_get<'a, V>(m: &'a FxHashMap<u32, V>, k: u32) -> (r: Option<&'a V>)
    ensures
        match r {
            Some(v) => m@.contains_key(k) && *v == m@[k],
            None => !m@.contains_key(k),
        },
{
    m.get(&k)
}

/// Relies on rustc_hash's `FxHashMap`: `remove` takes out the entry of the key and returns its
/// value, if there was one.
#[verifier::external_body]
pub(crate) fn fx_remove<V>(m: &mut FxHashMap<u32, V>, k: u32) -> (r: Option<V>)
    ensures
        final(m)@ == old(m)@.remove(k),
        match r {
            Some(v) => old(m)@.contains_key(k) && v == old(m)@[k],
            None => !old(m)@.contains_key(k),
        },
{
    m.remove(&k)
}

/// Relies on rustc_hash's `FxHashSet` (std's `HashSet` with `FxBuildHasher`): `insert` adds the
/// value and tells whether it was new.
#[verifier::external_body]
pub(crate) fn fx_set_insert(s: &mut FxHashSet<u32>, k: u32) -> (r: bool)
    ensures
        final(s)@ == old(s)@.insert(k),
        r == !old(s)@.contains(k),
{
    s.insert(k)
}

} // verus!
