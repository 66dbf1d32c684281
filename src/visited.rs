use vstd::prelude::*;
use dashmap::DashMap;

verus! {

#[verifier::external_type_specification]
#[verifier::external_body]
#[verifier::reject_recursive_types(K)]
#[verifier::reject_recursive_types(V)]
#[verifier::reject_recursive_types(S)]
pub struct ExDashMap<K, V, S>(DashMap<K, V, S>);

/// What a visited store holds: node identity keys to node indices.
pub uninterp spec fn stored_entries(m: DashMap<u128, usize>) -> Map<u128, usize>;

pub open spec fn no_entries() -> Map<u128, usize> {
    Map::empty()
}

/// Relies on `DashMap::new`: a new map holds no entry.
#[verifier::external_body]
pub(crate) fn store_new() -> (r: DashMap<u128, usize>)
    ensures
        stored_entries(r) == no_entries(),
{
    DashMap::new()
}

/// Relies on `DashMap::insert`: afterwards `key` maps to `value`, and every
/// other entry is as it was.
#[verifier::external_body]
pub(crate) fn store_insert(m: &mut DashMap<u128, usize>, key: u128, value: usize)
    ensures
        stored_entries(*final(m)) == stored_entries(*old(m)).insert(key, value),
{
    m.insert(key, value);
}

/// Relies on `DashMap::get`: the value stored under `key`, if any.
#[verifier::external_body]
pub(crate) fn store_get(m: &DashMap<u128, usize>, key: u128) -> (r: Option<usize>)
    ensures
        stored_entries(*m).contains_key(key) ==> r == Some(stored_entries(*m)[key]),
        !stored_entries(*m).contains_key(key) ==> r is None,
{
    m.get(&key).map(|entry| *entry)
}

/// Relies on `DashMap::clear`: afterwards the map holds no entry.
#[verifier::external_body]
pub(crate) fn store_clear(m: &mut DashMap<u128, usize>)
    ensures
        stored_entries(*final(m)) == no_entries(),
{
    m.clear();
}

} // verus!
