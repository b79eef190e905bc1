//! The memo tables of the formatter: `rustc_hash::FxHashMap`s keyed by a
//! pair of integers (a shared slice's slot and length; a node's span).

use vstd::prelude::*;

use rustc_hash::FxHashMap;

verus! {

/// The key of a memo table: a pair of integers.
pub type SliceKey = (usize, usize);

#[verifier::external_type_specification]
#[verifier::external_body]
pub struct ExFxBuildHasher(rustc_hash::FxBuildHasher);

/// An empty memo table.
pub(crate) fn memo_new<V>() -> (r: FxHashMap<SliceKey, V>)
    ensures
        r@ =~= Map::empty(),
{
    FxHashMap::default()
}

/// `HashMap::get` on an `FxHashMap` keyed by pairs of integers.
///
/// Trusted: the lookup returns the value last inserted under an equal key,
/// or `None` when there is none. `FxBuildHasher` builds hashers that are
/// deterministic (no per-process seed), and a pair of `usize` is equal
/// exactly when its fields are, so the map behaves as a mathematical map.
#[verifier::external_body]
pub(crate) fn memo_get<'a, V>(m: &'a FxHashMap<SliceKey, V>, key: SliceKey) -> (r: Option<&'a V>)
    ensures
        m@.contains_key(key) ==> r == Some(&m@[key]),
        !m@.contains_key(key) ==> r is None,
{
    m.get(&key)
}

/// `HashMap::insert` on an `FxHashMap` keyed by pairs of integers.
///
/// Trusted: afterwards the map holds `value` under `key` and is otherwise
/// unchanged (same reasoning as [`memo_get`]).
#[verifier::external_body]
pub(crate) fn memo_insert<V>(m: &mut FxHashMap<SliceKey, V>, key: SliceKey, value: V)
    ensures
        final(m)@ == old(m)@.insert(key, value),
{
    m.insert(key, value);
}

} // verus!
