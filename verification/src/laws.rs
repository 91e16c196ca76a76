//! Laws of the store, stated over the map that each collection denotes.
//! The store operations' contracts say exactly which map a call leaves
//! behind (`insert` for add and update, `remove` for delete, the map itself
//! for get and list), so each law here speaks for any sequence of calls.

use vstd::prelude::*;

use crate::store::Keyed;
use crate::store::distinct_keys;
use crate::store::lemma_map_of_index;
use crate::store::lemma_map_of_len;
use crate::store::map_of;

verus! {

/// An upserted record is what `get` then returns: after inserting `v`
/// under `id`, the collection maps `id` to `v`.
pub proof fn lemma_get_after_upsert<V>(m: Map<u32, V>, id: u32, v: V)
    ensures
        m.insert(id, v).contains_key(id),
        m.insert(id, v)[id] == v,
{
}

/// And it stays that record until the next mutation of its own id: an
/// upsert or a delete of any other id leaves it untouched.
pub proof fn lemma_get_stable_under_other_ids<V>(m: Map<u32, V>, id: u32, other: u32, w: V)
    requires
        id != other,
        m.contains_key(id),
    ensures
        m.insert(other, w).contains_key(id) && m.insert(other, w)[id] == m[id],
        m.remove(other).contains_key(id) && m.remove(other)[id] == m[id],
{
}

/// After a delete the id is absent, whether or not it was ever present:
/// deleting never fails and never leaves the record behind.
pub proof fn lemma_absent_after_delete<V>(m: Map<u32, V>, id: u32)
    ensures
        !m.remove(id).contains_key(id),
{
}

/// Updating a record whose id was never present creates it, exactly as an
/// add does: both operations' contracts state the same `insert`, and `get`
/// afterward returns the record; every other id is untouched.
pub proof fn lemma_update_absent_is_add<V>(m: Map<u32, V>, id: u32, v: V)
    requires
        !m.contains_key(id),
    ensures
        m.insert(id, v).contains_key(id),
        m.insert(id, v)[id] == v,
        forall|k: u32| k != id ==> #[trigger] m.insert(id, v).contains_key(k) == m.contains_key(k),
        forall|k: u32|
            k != id && m.contains_key(k) ==> #[trigger] m.insert(id, v)[k] == m[k],
{
}

/// `map_of` folds a sequence of records into a collection by upserting
/// them in order onto the empty store. With pairwise distinct ids the
/// result holds exactly as many records as were written, and each id maps
/// to the record written under it — so a listing after N such upserts
/// returns exactly N records, each matching its last written value.
pub proof fn lemma_list_after_distinct_upserts<R: Keyed>(rs: Seq<R>)
    requires
        distinct_keys(rs),
    ensures
        map_of(rs).len() == rs.len(),
        forall|i: int|
            0 <= i < rs.len() ==> map_of(rs).contains_key(#[trigger] rs[i].key()) && map_of(
                rs,
            )[rs[i].key()] == rs[i],
{
    lemma_map_of_len(rs);
    assert forall|i: int| 0 <= i < rs.len() implies map_of(rs).contains_key(
        #[trigger] rs[i].key(),
    ) && map_of(rs)[rs[i].key()] == rs[i] by {
        lemma_map_of_index(rs, i);
    }
}

} // verus!
