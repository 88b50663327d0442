//! The record of which mod supplies a file: an `OrderedHashMap` from the
//! mod's folder (or archive) to the file's path inside it, in insertion order.
use vstd::prelude::*;
use ordered_hash_map::OrderedHashMap;

verus! {

#[verifier::external_type_specification]
#[verifier::external_body]
pub struct ExDefaultHashBuilder(ordered_hash_map::ordered_map::DefaultHashBuilder);

#[verifier::external_type_specification]
#[verifier::external_body]
#[verifier::reject_recursive_types(K)]
#[verifier::reject_recursive_types(V)]
#[verifier::reject_recursive_types(S)]
pub struct ExOrderedHashMap<K, V, S>(ordered_hash_map::OrderedHashMap<K, V, S>);

/// The entries of an origin map, as (origin, source path) pairs in the
/// order in which the map iterates them (least recently inserted first).
pub uninterp spec fn origin_entries(m: OrderedHashMap<String, String>) -> Seq<(Seq<char>, Seq<char>)>;

/// Inserting into an ordered hash map: an entry with the same key leaves
/// its place, and the new pair goes to the back.
pub open spec fn ohm_insert_spec(e: Seq<(Seq<char>, Seq<char>)>, k: Seq<char>, v: Seq<char>) -> Seq<
    (Seq<char>, Seq<char>),
> {
    e.filter(|p: (Seq<char>, Seq<char>)| p.0 != k).push((k, v))
}

/// Extending an ordered hash map: the pairs of `other` inserted one by one,
/// in its order.
pub open spec fn ohm_extend_spec(e: Seq<(Seq<char>, Seq<char>)>, other: Seq<(Seq<char>, Seq<char>)>) -> Seq<
    (Seq<char>, Seq<char>),
>
    decreases other.len(),
{
    if other.len() == 0 {
        e
    } else {
        ohm_extend_spec(ohm_insert_spec(e, other[0].0, other[0].1), other.drop_first())
    }
}

/// `OrderedHashMap::new`: the map holds no entry.
#[verifier::external_body]
pub(crate) fn ohm_new() -> (m: OrderedHashMap<String, String>)
    ensures
        origin_entries(m) == Seq::<(Seq<char>, Seq<char>)>::empty(),
{
    OrderedHashMap::new()
}

/// `OrderedHashMap::insert`: an entry with an equal key is taken out and
/// the new pair is attached at the back (the crate's `insert` detaches the
/// old node and attaches it at the tail with the new value).
#[verifier::external_body]
pub(crate) fn ohm_insert(m: &mut OrderedHashMap<String, String>, k: String, v: String)
    ensures
        origin_entries(*final(m)) == ohm_insert_spec(origin_entries(*old(m)), k@, v@),
{
    m.insert(k, v);
}

/// `Extend<(K, V)>` for `OrderedHashMap`: the crate's impl inserts the
/// pairs of `other`, taken in `other`'s order, one by one.
#[verifier::external_body]
pub(crate) fn ohm_extend(m: &mut OrderedHashMap<String, String>, other: OrderedHashMap<String, String>)
    ensures
        origin_entries(*final(m)) == ohm_extend_spec(origin_entries(*old(m)), origin_entries(other)),
{
    m.extend(other);
}

/// `OrderedHashMap::len`: the number of entries.
#[verifier::external_body]
pub(crate) fn ohm_len(m: &OrderedHashMap<String, String>) -> (r: usize)
    ensures
        r == origin_entries(*m).len(),
{
    m.len()
}

/// `OrderedHashMap::back`: the value of the most recently inserted entry.
#[verifier::external_body]
pub(crate) fn ohm_back(m: &OrderedHashMap<String, String>) -> (r: Option<String>)
    ensures
        match r {
            Some(v) => origin_entries(*m).len() > 0 && v@ == origin_entries(*m).last().1,
            None => origin_entries(*m).len() == 0,
        },
{
    m.back().cloned()
}

/// `Clone` for `OrderedHashMap`: the crate's impl extends an empty map with
/// clones of the entries, in order.
#[verifier::external_body]
pub(crate) fn ohm_clone(m: &OrderedHashMap<String, String>) -> (r: OrderedHashMap<String, String>)
    ensures
        origin_entries(r) == origin_entries(*m),
{
    m.clone()
}

} // verus!
