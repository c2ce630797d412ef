//! The pending-reference table of the symbol resolver: an insertion-ordered
//! map from label name to an optional resolved action index, kept in the
//! order the names were first seen. The order gives each name its insertion
//! index, which the resolver embeds (complemented) as a placeholder.
use vstd::prelude::*;

verus! {

#[verifier::external_type_specification]
#[verifier::external_body]
#[verifier::reject_recursive_types(K)]
#[verifier::reject_recursive_types(V)]
#[verifier::reject_recursive_types(S)]
pub struct ExIndexMap<K, V, S>(indexmap::IndexMap<K, V, S>);

/// What a pending-reference table holds: its entries as a sequence of
/// (name, optional resolved index) pairs, in insertion order.
pub uninterp spec fn pend_entries(m: indexmap::IndexMap<Vec<u8>, Option<u32>>) -> Seq<(Seq<u8>, Option<u32>)>;

/// Relies on indexmap's `IndexMap::new`: the new map is empty.
#[verifier::external_body]
pub fn pend_new() -> (m: indexmap::IndexMap<Vec<u8>, Option<u32>>)
    ensures
        pend_entries(m) == Seq::<(Seq<u8>, Option<u32>)>::empty(),
{
    indexmap::IndexMap::new()
}

/// Relies on indexmap's `IndexMap::len`: the number of entries.
#[verifier::external_body]
pub fn pend_len(m: &indexmap::IndexMap<Vec<u8>, Option<u32>>) -> (n: usize)
    ensures
        n == pend_entries(*m).len(),
{
    m.len()
}

/// Relies on indexmap's `IndexMap::get_index_of`: the position of the key in
/// the map's order, `None` when the key is absent.
#[verifier::external_body]
pub fn pend_index_of(m: &indexmap::IndexMap<Vec<u8>, Option<u32>>, k: &Vec<u8>) -> (r: Option<
    usize,
>)
    ensures
        match r {
            Some(i) => i < pend_entries(*m).len() && pend_entries(*m)[i as int].0 == k@,
            None => forall|i: int|
                0 <= i < pend_entries(*m).len() ==> pend_entries(*m)[i].0 != k@,
        },
{
    m.get_index_of(k)
}

/// Relies on indexmap's `IndexMap::insert`: a present key keeps its place and
/// has its value replaced; an absent key is appended at the end.
#[verifier::external_body]
pub fn pend_insert(
    m: &mut indexmap::IndexMap<Vec<u8>, Option<u32>>,
    k: Vec<u8>,
    v: Option<u32>,
) -> (r: Option<Option<u32>>)
    ensures
        match r {
            Some(prev) => exists|i: int|
                {
                    &&& 0 <= i < pend_entries(*old(m)).len()
                    &&& pend_entries(*old(m))[i].0 == k@
                    &&& prev == pend_entries(*old(m))[i].1
                    &&& pend_entries(*final(m)) == pend_entries(*old(m)).update(i, (k@, v))
                },
            None => {
                &&& forall|i: int|
                    0 <= i < pend_entries(*old(m)).len() ==> pend_entries(*old(m))[i].0 != k@
                &&& pend_entries(*final(m)) == pend_entries(*old(m)).push((k@, v))
            },
        },
{
    m.insert(k, v)
}

/// Relies on indexmap's `IndexMap::get_index`: the entry at a position of the
/// map's order, `None` past the end.
#[verifier::external_body]
pub fn pend_get_index(m: &indexmap::IndexMap<Vec<u8>, Option<u32>>, i: usize) -> (r: Option<
    (&Vec<u8>, &Option<u32>),
>)
    ensures
        match r {
            Some(e) => i < pend_entries(*m).len() && pend_entries(*m)[i as int]
                == (e.0@, *e.1),
            None => i >= pend_entries(*m).len(),
        },
{
    m.get_index(i)
}

} // verus!
