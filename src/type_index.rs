use vstd::prelude::*;

use ahash::AHashMap;

verus! {

#[verifier::external_type_specification]
#[verifier::external_body]
#[verifier::reject_recursive_types(K)]
#[verifier::reject_recursive_types(V)]
#[verifier::reject_recursive_types(S)]
pub struct ExAHashMap<K, V, S>(AHashMap<K, V, S>);

#[verifier::external_type_specification]
#[verifier::external_body]
pub struct ExRandomState(ahash::RandomState);

/// The id lists that a type index holds, keyed by event type.
pub uninterp spec fn type_lists(m: AHashMap<String, Vec<usize>>) -> Map<Seq<char>, Seq<usize>>;

/// Relies on `AHashMap::new`: a new map is empty.
#[verifier::external_body]
pub(crate) fn new_type_index() -> (r: AHashMap<String, Vec<usize>>)
    ensures
        type_lists(r).dom() == Set::<Seq<char>>::empty(),
{
    AHashMap::new()
}

/// Relies on `AHashMap::get`: the list stored under the key, if there is one.
#[verifier::external_body]
pub(crate) fn lookup_type<'a>(m: &'a AHashMap<String, Vec<usize>>, key: &str) -> (r: Option<
    &'a Vec<usize>,
>)
    ensures
        match r {
            Some(v) => type_lists(*m).contains_key(key@) && v@ == type_lists(*m)[key@],
            None => !type_lists(*m).contains_key(key@),
        },
{
    m.get(key)
}

/// Relies on `AHashMap::remove`: takes the list stored under the key out of the map.
#[verifier::external_body]
pub(crate) fn take_type(m: &mut AHashMap<String, Vec<usize>>, key: &String) -> (r: Option<Vec<usize>>)
    ensures
        type_lists(*final(m)) == type_lists(*old(m)).remove(key@),
        match r {
            Some(v) => type_lists(*old(m)).contains_key(key@) && v@ == type_lists(*old(m))[key@],
            None => !type_lists(*old(m)).contains_key(key@),
        },
{
    m.remove(key)
}

/// Relies on `AHashMap::insert`: stores the list under the key, replacing any other.
#[verifier::external_body]
pub(crate) fn put_type(m: &mut AHashMap<String, Vec<usize>>, key: String, ids: Vec<usize>)
    ensures
        type_lists(*final(m)) == type_lists(*old(m)).insert(key@, ids@),
{
    m.insert(key, ids);
}

} // verus!
