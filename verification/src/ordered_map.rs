//! The insertion-ordered map that holds the query parameters, and what is
//! taken on trust about it. Nothing here is proved: each contract restates
//! what the map's own documentation says of the method that the body calls.

use crate::multimap::{append_spec, extend_spec, has_key, insert_spec, remove_spec, values_of};
use indexmap::IndexMap;
use vstd::prelude::*;

verus! {

#[verifier::external_type_specification]
#[verifier::external_body]
#[verifier::reject_recursive_types(K)]
#[verifier::reject_recursive_types(V)]
#[verifier::reject_recursive_types(S)]
pub struct ExIndexMap<K, V, S>(IndexMap<K, V, S>);

/// The entries of the map in their order: each key with its values.
pub uninterp spec fn map_entries(m: IndexMap<String, Vec<String>>) -> Seq<(Seq<char>, Seq<Seq<char>>)>;

/// `IndexMap::new` creates a map without entries.
#[verifier::external_body]
pub(crate) fn map_new() -> (m: IndexMap<String, Vec<String>>)
    ensures
        map_entries(m) == Seq::<(Seq<char>, Seq<Seq<char>>)>::empty(),
{
    IndexMap::new()
}

/// `Clone::clone` of a map gives a map with the same entries in the same order.
#[verifier::external_body]
pub(crate) fn map_clone(m: &IndexMap<String, Vec<String>>) -> (copy: IndexMap<String, Vec<String>>)
    ensures
        map_entries(copy) == map_entries(*m),
{
    m.clone()
}

/// `IndexMap::len` returns the number of key-value pairs in the map.
#[verifier::external_body]
pub(crate) fn map_len(m: &IndexMap<String, Vec<String>>) -> (n: usize)
    ensures
        n == map_entries(*m).len(),
{
    m.len()
}

/// `IndexMap::get_index` returns the key-value pair at a position of the
/// order, and nothing for a position that is not below the length.
#[verifier::external_body]
pub(crate) fn map_get_index(m: &IndexMap<String, Vec<String>>, index: usize) -> (r: Option<(&String, &Vec<String>)>)
    ensures
        r is Some == (index < map_entries(*m).len()),
        r matches Some(pair) ==> pair.0@ == map_entries(*m)[index as int].0,
        r matches Some(pair) ==> pair.1.deep_view() == map_entries(*m)[index as int].1,
{
    m.get_index(index)
}

/// `IndexMap::get` returns the value stored for a key, and nothing where the
/// key is not in the map.
#[verifier::external_body]
pub(crate) fn map_get<'a>(m: &'a IndexMap<String, Vec<String>>, key: &str) -> (r: Option<&'a Vec<String>>)
    ensures
        r is Some == has_key(map_entries(*m), key@),
        r matches Some(values) ==> values.deep_view() == values_of(map_entries(*m), key@),
{
    m.get(key)
}

/// `IndexMap::contains_key` tells whether a key is in the map.
#[verifier::external_body]
pub(crate) fn map_contains_key(m: &IndexMap<String, Vec<String>>, key: &str) -> (r: bool)
    ensures
        r == has_key(map_entries(*m), key@),
{
    m.contains_key(key)
}

/// `IndexMap::insert` replaces the value of a key that is in the map, which
/// keeps its place in the order, and puts a new key last.
#[verifier::external_body]
pub(crate) fn map_insert(m: &mut IndexMap<String, Vec<String>>, key: String, values: Vec<String>)
    ensures
        map_entries(*final(m)) == insert_spec(map_entries(*old(m)), key@, values.deep_view()),
{
    m.insert(key, values);
}

/// `IndexMap::entry` with `Entry::or_default` reaches the value of a key,
/// after putting the key last with an empty value where it is new; the value
/// given is pushed behind what is there.
#[verifier::external_body]
pub(crate) fn map_append(m: &mut IndexMap<String, Vec<String>>, key: String, value: String)
    ensures
        map_entries(*final(m)) == append_spec(map_entries(*old(m)), key@, value@),
{
    m.entry(key).or_default().push(value);
}

/// `IndexMap::shift_remove` takes the pair of a key out of the map and moves
/// the pairs behind it up, so that they keep their order; a key that is not
/// in the map changes nothing.
#[verifier::external_body]
pub(crate) fn map_shift_remove(m: &mut IndexMap<String, Vec<String>>, key: &str)
    ensures
        map_entries(*final(m)) == remove_spec(map_entries(*old(m)), key@),
{
    m.shift_remove(key);
}

/// `Extend::extend` of a map does what `IndexMap::insert` does for each pair
/// that it is given, in their order.
#[verifier::external_body]
pub(crate) fn map_extend(m: &mut IndexMap<String, Vec<String>>, other: IndexMap<String, Vec<String>>)
    ensures
        map_entries(*final(m)) == extend_spec(map_entries(*old(m)), map_entries(other)),
{
    m.extend(other);
}

} // verus!
