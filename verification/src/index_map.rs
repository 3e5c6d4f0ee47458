//! Trusted surface over indexmap's insertion-ordered map, which backs the
//! in-memory store. Its contents are named by `index_map_entries`: the
//! entries in insertion order, oldest first, with unique keys.

use crate::assoc::{assoc_get, assoc_update};
use vstd::prelude::*;

verus! {

#[verifier::external_type_specification]
#[verifier::external_body]
#[verifier::reject_recursive_types(K)]
#[verifier::reject_recursive_types(V)]
#[verifier::reject_recursive_types(S)]
pub struct ExIndexMap<K, V, S>(indexmap::IndexMap<K, V, S>);

/// What an indexmap of byte keys and byte values holds: its entries in
/// order, keyed uniquely.
pub uninterp spec fn index_map_entries(m: indexmap::IndexMap<Vec<u8>, Vec<u8>>) -> Seq<
    (Seq<u8>, Seq<u8>),
>;

/// Relies on IndexMap::new: the new map is empty.
#[verifier::external_body]
pub fn index_map_new() -> (r: indexmap::IndexMap<Vec<u8>, Vec<u8>>)
    ensures
        index_map_entries(r) == Seq::<(Seq<u8>, Seq<u8>)>::empty(),
{
    indexmap::IndexMap::new()
}

/// Relies on IndexMap::insert: an existing key keeps its place in the order
/// and its value is replaced, returning the old value; a new key is appended
/// last.
#[verifier::external_body]
pub fn index_map_insert(
    m: &mut indexmap::IndexMap<Vec<u8>, Vec<u8>>,
    k: Vec<u8>,
    v: Vec<u8>,
) -> (r: Option<Vec<u8>>)
    ensures
        index_map_entries(*final(m)) == assoc_update(index_map_entries(*old(m)), k@, v@),
        match r {
            Some(prev) => assoc_get(index_map_entries(*old(m)), k@) == Some(prev@),
            None => assoc_get(index_map_entries(*old(m)), k@) is None,
        },
{
    m.insert(k, v)
}

/// Relies on IndexMap::get: returns the value stored under the key.
#[verifier::external_body]
pub fn index_map_get<'a>(
    m: &'a indexmap::IndexMap<Vec<u8>, Vec<u8>>,
    k: &Vec<u8>,
) -> (r: Option<&'a Vec<u8>>)
    ensures
        match r {
            Some(v) => assoc_get(index_map_entries(*m), k@) == Some(v@),
            None => assoc_get(index_map_entries(*m), k@) is None,
        },
{
    m.get(k)
}

/// Relies on IndexMap::len: the number of entries.
#[verifier::external_body]
pub fn index_map_len(m: &indexmap::IndexMap<Vec<u8>, Vec<u8>>) -> (r: usize)
    ensures
        r == index_map_entries(*m).len(),
{
    m.len()
}

/// Relies on IndexMap::iter: yields the entries in order.
#[verifier::external_body]
pub fn index_map_entries_vec(m: &indexmap::IndexMap<Vec<u8>, Vec<u8>>) -> (r: Vec<
    (Vec<u8>, Vec<u8>),
>)
    ensures
        r@.len() == index_map_entries(*m).len(),
        forall|i: int|
            0 <= i < r@.len() ==> #[trigger] r@[i].0@ == index_map_entries(*m)[i].0 && r@[i].1@
                == index_map_entries(*m)[i].1,
{
    m.iter().map(|(k, v)| (k.clone(), v.clone())).collect()
}

} // verus!
