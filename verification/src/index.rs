//! Numbers kept under names.

use vstd::prelude::*;
use ahash::AHashMap;
use ahash::RandomState;

verus! {

/// The outside hash map in which names are looked up.
#[verifier::external_type_specification]
#[verifier::external_body]
#[verifier::reject_recursive_types(K)]
#[verifier::reject_recursive_types(V)]
#[verifier::reject_recursive_types(S)]
pub struct ExAHashMap<K, V, S>(AHashMap<K, V, S>);

/// The hasher state of the outside hash map.
#[verifier::external_type_specification]
#[verifier::external_body]
pub struct ExRandomState(RandomState);

/// The entries of a map from names to numbers, each name taken as its characters.
pub uninterp spec fn index_entries(m: AHashMap<String, usize, RandomState>) -> Map<Seq<char>, usize>;

/// `AHashMap::new`: the map without entries.
#[verifier::external_body]
pub(crate) fn index_new() -> (index: AHashMap<String, usize, RandomState>)
    ensures
        index_entries(index).dom() == Set::<Seq<char>>::empty(),
{
    AHashMap::new()
}

/// `AHashMap::get`: the number kept under `name`, if there is one.
#[verifier::external_body]
pub(crate) fn index_get(m: &AHashMap<String, usize, RandomState>, name: &String) -> (r: Option<usize>)
    ensures
        r == (if index_entries(*m).contains_key(name@) {
            Some(index_entries(*m)[name@])
        } else {
            None
        }),
{
    m.get(name).copied()
}

/// `AHashMap::insert`: keeps `value` under `name`, in place of what was kept there before.
#[verifier::external_body]
pub(crate) fn index_insert(m: &mut AHashMap<String, usize, RandomState>, name: String, value: usize)
    ensures
        index_entries(*final(m)) == index_entries(*old(m)).insert(name@, value),
{
    m.insert(name, value);
}

} // verus!
