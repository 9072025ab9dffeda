//! The engine's tables. Each is a `dashmap::DashMap`; what a table holds is
//! named by a map from keys to plain values, and every operation that the
//! engine uses is stated over that map. A table is only ever changed through
//! an exclusive reference.
use crate::types::{Dependency, Task, TaskModel};
use dashmap::DashMap;
use std::collections::HashSet;
use vstd::prelude::*;

verus! {

/// A sharded hash map.
#[verifier::external_type_specification]
#[verifier::external_body]
#[verifier::reject_recursive_types(K)]
#[verifier::reject_recursive_types(V)]
#[verifier::reject_recursive_types(S)]
pub struct ExDashMap<K, V, S>(dashmap::DashMap<K, V, S>);

/// The tasks that a task table holds, by id.
pub uninterp spec fn task_table(m: DashMap<u128, Task>) -> Map<u128, TaskModel>;

/// The edges that an edge table holds, by the ids of their two ends.
pub uninterp spec fn edge_table(m: DashMap<(u128, u128), Dependency>) -> Map<(u128, u128), Dependency>;

/// The sets of ids that an index holds, by id.
pub uninterp spec fn index_table(m: DashMap<u128, HashSet<u128>>) -> Map<u128, Set<u128>>;

/// `DashMap::new`: a table without entries.
#[verifier::external_body]
pub(crate) fn tasks_new() -> (m: DashMap<u128, Task>)
    ensures
        task_table(m) == (Map::<u128, TaskModel>::empty()),
{
    DashMap::new()
}

/// `DashMap::get`, handing out a copy of the entry: the task under `id`, if
/// the table has one.
#[verifier::external_body]
pub(crate) fn tasks_get(m: &DashMap<u128, Task>, id: u128) -> (r: Option<Task>)
    ensures
        match r {
            Some(t) => task_table(*m).contains_key(id) && t@ == task_table(*m)[id],
            None => !task_table(*m).contains_key(id),
        },
{
    m.get(&id).map(|t| t.value().clone())
}

/// `DashMap::insert`: puts the task under `id`, in place of the one that was
/// there; says whether there was one.
#[verifier::external_body]
pub(crate) fn tasks_insert(m: &mut DashMap<u128, Task>, id: u128, task: Task) -> (replaced: bool)
    ensures
        task_table(*final(m)) == task_table(*old(m)).insert(id, task@),
        replaced == task_table(*old(m)).contains_key(id),
{
    m.insert(id, task).is_some()
}

/// `DashMap::new`: a table without entries.
#[verifier::external_body]
pub(crate) fn edges_new() -> (m: DashMap<(u128, u128), Dependency>)
    ensures
        edge_table(m) == (Map::<(u128, u128), Dependency>::empty()),
{
    DashMap::new()
}

/// `DashMap::get`, handing out a copy of the entry: the edge under `key`, if
/// the table has one.
#[verifier::external_body]
pub(crate) fn edges_get(m: &DashMap<(u128, u128), Dependency>, key: (u128, u128)) -> (r: Option<Dependency>)
    ensures
        match r {
            Some(e) => edge_table(*m).contains_key(key) && e == edge_table(*m)[key],
            None => !edge_table(*m).contains_key(key),
        },
{
    m.get(&key).map(|e| e.value().clone())
}

/// `DashMap::insert`: puts the edge under `key`, in place of the one that was
/// there.
#[verifier::external_body]
pub(crate) fn edges_insert(m: &mut DashMap<(u128, u128), Dependency>, key: (u128, u128), edge: Dependency)
    ensures
        edge_table(*final(m)) == edge_table(*old(m)).insert(key, edge),
{
    let _ = m.insert(key, edge);
}

/// `DashMap::remove`: takes the edge under `key` out of the table.
#[verifier::external_body]
pub(crate) fn edges_remove(m: &mut DashMap<(u128, u128), Dependency>, key: (u128, u128))
    ensures
        edge_table(*final(m)) == edge_table(*old(m)).remove(key),
{
    let _ = m.remove(&key);
}

/// `DashMap::iter`, handing out copies: each entry of the table once, in an
/// order that is left open.
#[verifier::external_body]
pub(crate) fn edges_entries(m: &DashMap<(u128, u128), Dependency>) -> (r: Vec<((u128, u128), Dependency)>)
    ensures
        forall|i: int, j: int| 0 <= i < j < r@.len() ==> (#[trigger] r@[i]).0 != (#[trigger] r@[j]).0,
        forall|i: int| 0 <= i < r@.len() ==> edge_table(*m).contains_pair((#[trigger] r@[i]).0, r@[i].1),
        forall|k: (u128, u128)| #[trigger]
            edge_table(*m).contains_key(k) ==> exists|i: int| 0 <= i < r@.len() && (#[trigger] r@[i]).0 == k,
{
    m.iter().map(|e| (*e.key(), e.value().clone())).collect()
}

/// `DashMap::new`: an index without entries.
#[verifier::external_body]
pub(crate) fn index_new() -> (m: DashMap<u128, HashSet<u128>>)
    ensures
        index_table(m) == (Map::<u128, Set<u128>>::empty()),
{
    DashMap::new()
}

/// `DashMap::get`, handing out a copy of the entry: the set under `id`, if the
/// index has one.
#[verifier::external_body]
pub(crate) fn index_get(m: &DashMap<u128, HashSet<u128>>, id: u128) -> (r: Option<HashSet<u128>>)
    ensures
        match r {
            Some(s) => index_table(*m).contains_key(id) && s@ == index_table(*m)[id],
            None => !index_table(*m).contains_key(id),
        },
{
    m.get(&id).map(|s| s.value().clone())
}

/// `DashMap::insert`: puts the set under `id`, in place of the one that was
/// there.
#[verifier::external_body]
pub(crate) fn index_insert(m: &mut DashMap<u128, HashSet<u128>>, id: u128, set: HashSet<u128>)
    ensures
        index_table(*final(m)) == index_table(*old(m)).insert(id, set@),
{
    let _ = m.insert(id, set);
}

/// `DashMap::remove`: takes the set under `id` out of the index and hands it
/// over, if there is one.
#[verifier::external_body]
pub(crate) fn index_remove(m: &mut DashMap<u128, HashSet<u128>>, id: u128) -> (r: Option<HashSet<u128>>)
    ensures
        index_table(*final(m)) == index_table(*old(m)).remove(id),
        match r {
            Some(s) => index_table(*old(m)).contains_key(id) && s@ == index_table(*old(m))[id],
            None => !index_table(*old(m)).contains_key(id),
        },
{
    m.remove(&id).map(|entry| entry.1)
}

} // verus!
