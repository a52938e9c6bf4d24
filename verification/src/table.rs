//! The pool table: pools keyed by their id, held in a `dashmap::DashMap`.

use dashmap::DashMap;
use vstd::prelude::*;
use crate::pool::{MemoryPool, PoolView};
use crate::encoding::string_views;

verus! {

#[verifier::external_type_specification]
#[verifier::external_body]
#[verifier::reject_recursive_types(K)]
#[verifier::reject_recursive_types(V)]
#[verifier::reject_recursive_types(S)]
pub struct ExDashMap<K, V, S>(DashMap<K, V, S>);

/// Pools keyed by their id.
pub type PoolTable = DashMap<String, MemoryPool>;

/// What a pool table holds: for each key, the state of the pool under it.
pub uninterp spec fn table_contents(t: DashMap<String, MemoryPool>) -> Map<Seq<char>, PoolView>;

/// The contents of a table without pools.
pub open spec fn no_pools() -> Map<Seq<char>, PoolView> {
    Map::empty()
}

/// `DashMap::new`. Claimed of it: the new table holds nothing.
#[verifier::external_body]
pub(crate) fn table_new() -> (fresh: PoolTable)
    ensures
        table_contents(fresh) == no_pools(),
{
    DashMap::new()
}

/// `DashMap::insert`. Claimed of it: afterwards the table maps the key to
/// the pool, and every other key as before (an earlier entry under the same
/// key is replaced and dropped).
#[verifier::external_body]
pub(crate) fn table_insert(t: &mut PoolTable, key: String, pool: MemoryPool)
    ensures
        table_contents(*final(t)) == table_contents(*old(t)).insert(key@, pool@),
{
    t.insert(key, pool);
}

/// `DashMap::remove`. Claimed of it: where the key is present, its entry
/// leaves the table and is handed out, with a key equal to the one asked
/// for; otherwise nothing is handed out and the table is unchanged.
#[verifier::external_body]
pub(crate) fn table_remove(t: &mut PoolTable, key: &str) -> (r: Option<
    (String, MemoryPool),
>)
    ensures
        match r {
            Some((k, p)) => {
                &&& table_contents(*old(t)).contains_key(key@)
                &&& k@ == key@
                &&& p@ == table_contents(*old(t))[key@]
                &&& table_contents(*final(t)) == table_contents(*old(t)).remove(key@)
            },
            None => {
                &&& !table_contents(*old(t)).contains_key(key@)
                &&& table_contents(*final(t)) == table_contents(*old(t))
            },
        },
{
    t.remove(key)
}

/// `DashMap::contains_key`. Claimed of it: whether the key is present.
#[verifier::external_body]
pub(crate) fn table_contains(t: &PoolTable, key: &str) -> (r: bool)
    ensures
        r == table_contents(*t).contains_key(key@),
{
    t.contains_key(key)
}

/// `DashMap::iter`, keeping each entry's key. Claimed of it: the walk
/// visits every entry of the table once, so the keys handed out are exactly
/// the table's keys, each once; their order is what the walk gives and is
/// not stated.
#[verifier::external_body]
pub(crate) fn table_keys(t: &PoolTable) -> (keys: Vec<String>)
    ensures
        string_views(keys@).no_duplicates(),
        forall|k: Seq<char>|
            table_contents(*t).contains_key(k) <==> #[trigger] string_views(keys@).contains(k),
{
    t.iter().map(|entry| entry.key().clone()).collect()
}

/// `DashMap::len`. Claimed of it: the number of keys in the table.
#[verifier::external_body]
pub(crate) fn table_len(t: &PoolTable) -> (n: usize)
    ensures
        n == table_contents(*t).len(),
{
    t.len()
}

} // verus!
