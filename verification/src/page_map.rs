use ahash::AHasher;
use std::collections::HashMap;
use std::hash::BuildHasherDefault;
use vstd::prelude::*;

verus! {

/// The hasher of the `ahash` crate, carried through as an opaque type.
#[verifier::external_type_specification]
#[verifier::external_body]
pub struct ExAHasher(AHasher);

/// The standard builder of default-constructed hashers, carried through as an
/// opaque type.
#[verifier::external_type_specification]
#[verifier::external_body]
#[verifier::reject_recursive_types(H)]
pub struct ExBuildHasherDefault<H>(BuildHasherDefault<H>);

/// A hash map whose keys are hashed with `ahash`.
pub type AHashMap<K, V> = HashMap<K, V, BuildHasherDefault<AHasher>>;

/// `HashMap::get` on a map hashed with `ahash`: the page stored under `page_id`,
/// or `None` when the map holds no such key. Hashers built by
/// `BuildHasherDefault<AHasher>` all share the keys that `AHasher::default` fixes
/// once per process, so a key is always found again where it was put.
#[verifier::external_body]
pub(crate) fn page_map_get(map: &AHashMap<u64, Vec<u8>>, page_id: u64) -> (found: Option<&Vec<u8>>)
    ensures
        match found {
            Some(page) => map@.contains_key(page_id) && *page == map@[page_id],
            None => !map@.contains_key(page_id),
        },
{
    map.get(&page_id)
}

/// `HashMap::insert` on a map hashed with `ahash`: afterwards `page_id` maps to
/// `page`, replacing what it mapped to before, and every other key is untouched.
#[verifier::external_body]
pub(crate) fn page_map_insert(map: &mut AHashMap<u64, Vec<u8>>, page_id: u64, page: Vec<u8>)
    ensures
        final(map)@ == old(map)@.insert(page_id, page),
{
    map.insert(page_id, page);
}

/// `HashMap::remove` on a map hashed with `ahash`: afterwards the map holds no
/// key `page_id`, and every other key is untouched.
#[verifier::external_body]
pub(crate) fn page_map_remove(map: &mut AHashMap<u64, Vec<u8>>, page_id: u64)
    ensures
        final(map)@ == old(map)@.remove(page_id),
{
    map.remove(&page_id);
}

} // verus!
