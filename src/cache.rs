use vstd::prelude::*;

use dashmap::DashMap;

verus! {

#[verifier::external_type_specification]
#[verifier::external_body]
#[verifier::reject_recursive_types(K)]
#[verifier::reject_recursive_types(V)]
#[verifier::reject_recursive_types(S)]
pub struct ExDashMap<K, V, S>(dashmap::DashMap<K, V, S>);

/// Jar cache: `(last block of the aligned range, segment id)` to the
/// position of the jar in its segment.
pub type CacheKey = (u64, u8);

pub type JarCache = DashMap<CacheKey, usize>;

/// The entries of a jar cache: `(last block of the aligned range, segment
/// id)` to the position of the jar in its segment.
pub uninterp spec fn jar_cache_of(m: JarCache) -> Map<CacheKey, usize>;

/// Relies on `DashMap::new`: a map with no entries.
#[verifier::external_body]
pub(crate) fn new_jar_cache() -> (r: JarCache)
    ensures
        forall|k: CacheKey| !jar_cache_of(r).contains_key(k),
{
    DashMap::new()
}

/// Relies on `DashMap::get`: the value stored under `key`, if any.
#[verifier::external_body]
pub(crate) fn cached_jar(m: &JarCache, key: CacheKey) -> (r: Option<usize>)
    ensures
        r == (if jar_cache_of(*m).contains_key(key) {
            Some(jar_cache_of(*m)[key])
        } else {
            None::<usize>
        }),
{
    match m.get(&key) {
        Some(entry) => Some(*entry),
        None => None,
    }
}

/// Relies on `DashMap::insert`: stores `value` under `key`, replacing any
/// earlier value.
#[verifier::external_body]
pub(crate) fn cache_jar(m: &mut JarCache, key: CacheKey, value: usize)
    ensures
        jar_cache_of(*final(m)) == jar_cache_of(*old(m)).insert(key, value),
{
    m.insert(key, value);
}

} // verus!
