//! The hash collections of the host engine, as the dirty-tracking cache
//! uses them: a set of node handles, a table of measured sizes, and the
//! index from depth to nodes. What they hold is named here; every function
//! below makes one call into the engine's collection and is believed, not
//! proved.

use vstd::prelude::*;
use bevy::platform::collections::{HashMap, HashSet};
use bevy::platform::hash::FixedHasher;

verus! {

/// `bevy::platform::hash::FixedHasher`, the hasher the engine's collections
/// use unless told otherwise. Nothing is claimed of it.
#[verifier::external_type_specification]
#[verifier::external_body]
pub struct ExFixedHasher(FixedHasher);

/// `bevy::platform::collections::HashSet`. What a set holds is named by
/// `set_handles`; nothing else is claimed of it.
#[verifier::external_type_specification]
#[verifier::external_body]
#[verifier::reject_recursive_types(T)]
#[verifier::reject_recursive_types(S)]
pub struct ExHashSet<T, S>(HashSet<T, S>);

/// `bevy::platform::collections::HashMap`. What a map holds is named by
/// `table_sizes` and `index_buckets`; nothing else is claimed of it.
#[verifier::external_type_specification]
#[verifier::external_body]
#[verifier::reject_recursive_types(K)]
#[verifier::reject_recursive_types(V)]
#[verifier::reject_recursive_types(S)]
pub struct ExHashMap<K, V, S>(HashMap<K, V, S>);

/// The handles that a set holds.
pub uninterp spec fn set_handles(s: HashSet<usize>) -> Set<usize>;

/// The sizes that a table holds, by handle, as `(width, height)`.
pub uninterp spec fn table_sizes(m: HashMap<usize, (i64, i64)>) -> Map<usize, (i64, i64)>;

/// The lists that an index holds, by depth.
pub uninterp spec fn index_buckets(m: HashMap<usize, Vec<usize>>) -> Map<usize, Seq<usize>>;

/// A table without sizes.
pub open spec fn no_sizes() -> Map<usize, (i64, i64)> {
    Map::empty()
}

/// An index without lists.
pub open spec fn no_buckets() -> Map<usize, Seq<usize>> {
    Map::empty()
}

/// `HashSet::new`: a set that holds nothing.
#[verifier::external_body]
pub(crate) fn handle_set_new() -> (s: HashSet<usize>)
    ensures
        set_handles(s) == Set::<usize>::empty(),
{
    HashSet::new()
}

/// `HashSet::insert`: the set holds the handle afterwards, and the call
/// reports whether it was absent before.
#[verifier::external_body]
pub(crate) fn handle_set_insert(s: &mut HashSet<usize>, handle: usize) -> (fresh: bool)
    ensures
        set_handles(*final(s)) == set_handles(*old(s)).insert(handle),
        fresh == !set_handles(*old(s)).contains(handle),
{
    s.insert(handle)
}

/// `HashSet::contains`: whether the set holds the handle.
#[verifier::external_body]
pub(crate) fn handle_set_contains(s: &HashSet<usize>, handle: usize) -> (found: bool)
    ensures
        found == set_handles(*s).contains(handle),
{
    s.contains(&handle)
}

/// `HashSet::remove`: the set does not hold the handle afterwards, and the
/// call reports whether it was present before.
#[verifier::external_body]
pub(crate) fn handle_set_remove(s: &mut HashSet<usize>, handle: usize) -> (found: bool)
    ensures
        set_handles(*final(s)) == set_handles(*old(s)).remove(handle),
        found == set_handles(*old(s)).contains(handle),
{
    s.remove(&handle)
}

/// `HashSet::clear`: the set holds nothing afterwards.
#[verifier::external_body]
pub(crate) fn handle_set_clear(s: &mut HashSet<usize>)
    ensures
        set_handles(*final(s)) == Set::<usize>::empty(),
{
    s.clear()
}

/// `HashSet::len`: the number of handles the set holds.
#[verifier::external_body]
pub(crate) fn handle_set_len(s: &HashSet<usize>) -> (n: usize)
    ensures
        n == set_handles(*s).len(),
{
    s.len()
}

/// `HashMap::new`: a table that holds nothing.
#[verifier::external_body]
pub(crate) fn size_table_new() -> (m: HashMap<usize, (i64, i64)>)
    ensures
        table_sizes(m) == no_sizes(),
{
    HashMap::new()
}

/// `HashMap::insert`: the table holds the size under the handle afterwards,
/// in place of any it held there before; the rest stays.
#[verifier::external_body]
pub(crate) fn size_table_insert(m: &mut HashMap<usize, (i64, i64)>, handle: usize, size: (i64, i64))
    ensures
        table_sizes(*final(m)) == table_sizes(*old(m)).insert(handle, size),
{
    m.insert(handle, size);
}

/// `HashMap::get`: the size held under the handle, if any.
#[verifier::external_body]
pub(crate) fn size_table_get(m: &HashMap<usize, (i64, i64)>, handle: usize) -> (found: Option<
    (i64, i64),
>)
    ensures
        found == (if table_sizes(*m).contains_key(handle) {
            Some(table_sizes(*m)[handle])
        } else {
            None
        }),
{
    m.get(&handle).copied()
}

/// `HashMap::new`: an index that holds nothing.
#[verifier::external_body]
pub(crate) fn depth_index_new() -> (m: HashMap<usize, Vec<usize>>)
    ensures
        index_buckets(m) == no_buckets(),
{
    HashMap::new()
}

/// `HashMap::clear`: the index holds nothing afterwards.
#[verifier::external_body]
pub(crate) fn depth_index_clear(m: &mut HashMap<usize, Vec<usize>>)
    ensures
        index_buckets(*final(m)) == no_buckets(),
{
    m.clear()
}

/// `HashMap::is_empty`: whether the index holds no list at all.
#[verifier::external_body]
pub(crate) fn depth_index_is_empty(m: &HashMap<usize, Vec<usize>>) -> (empty: bool)
    ensures
        empty == (index_buckets(*m) == no_buckets()),
{
    m.is_empty()
}

/// `HashMap::get`: the list held under the depth, if any.
#[verifier::external_body]
pub(crate) fn depth_index_get(m: &HashMap<usize, Vec<usize>>, depth: usize) -> (found: Option<
    &Vec<usize>,
>)
    ensures
        found is Some == index_buckets(*m).contains_key(depth),
        found is Some ==> found->0@ == index_buckets(*m)[depth],
{
    m.get(&depth)
}

/// `HashMap::remove`: takes the list held under the depth out of the index
/// and hands it over, if there is one; the rest stays.
#[verifier::external_body]
pub(crate) fn depth_index_remove(m: &mut HashMap<usize, Vec<usize>>, depth: usize) -> (found: Option<
    Vec<usize>,
>)
    ensures
        index_buckets(*final(m)) == index_buckets(*old(m)).remove(depth),
        found is Some == index_buckets(*old(m)).contains_key(depth),
        found is Some ==> found->0@ == index_buckets(*old(m))[depth],
{
    m.remove(&depth)
}

/// `HashMap::insert`: the index holds the list under the depth afterwards,
/// in place of any it held there before; the rest stays.
#[verifier::external_body]
pub(crate) fn depth_index_insert(m: &mut HashMap<usize, Vec<usize>>, depth: usize, bucket: Vec<usize>)
    ensures
        index_buckets(*final(m)) == index_buckets(*old(m)).insert(depth, bucket@),
{
    m.insert(depth, bucket);
}

} // verus!
