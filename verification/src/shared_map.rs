//! The maps of a store, which are `dashmap::DashMap`s.
use std::sync::Arc;
use vstd::prelude::*;

use crate::context::RlmContext;
use crate::matching;

verus! {

#[verifier::external_type_specification]
#[verifier::external_body]
#[verifier::reject_recursive_types(K)]
#[verifier::reject_recursive_types(V)]
#[verifier::reject_recursive_types(S)]
pub struct ExDashMap<K, V, S>(dashmap::DashMap<K, V, S>);

/// The contexts by name.
pub type ContextMap = dashmap::DashMap<String, Arc<RlmContext>>;

/// The values by key.
pub type MemoryMap = dashmap::DashMap<String, Arc<serde_json::Value>>;

/// The contexts that a map holds, by name.
pub uninterp spec fn contexts_in(m: ContextMap) -> Map<Seq<char>, RlmContext>;

/// The values that a map holds, by key.
pub uninterp spec fn values_in(m: MemoryMap) -> Map<Seq<char>, serde_json::Value>;

/// Whether a list holds each member of a set once.
pub open spec fn lists(keys: Seq<Seq<char>>, set: Set<Seq<char>>) -> bool {
    &&& keys.no_duplicates()
    &&& forall|key: Seq<char>| keys.contains(key) <==> set.contains(key)
}

// ---------------------------------------------------------------------------
// Contexts
// ---------------------------------------------------------------------------

/// Calls `DashMap::new`, which makes a map that holds nothing.
#[verifier::external_body]
pub(crate) fn new_contexts() -> (r: ContextMap)
    ensures
        (contexts_in(r) == Map::<Seq<char>, RlmContext>::empty()),
{
    dashmap::DashMap::new()
}

/// Calls `DashMap::insert`, which sets the value of the key and leaves the others.
#[verifier::external_body]
pub(crate) fn insert_context(m: &mut ContextMap, name: String, context: Arc<RlmContext>)
    ensures
        contexts_in(*final(m)) == contexts_in(*old(m)).insert(name@, *context),
{
    m.insert(name, context);
}

/// Calls `DashMap::get`, which finds the value of the key if the map has it.
#[verifier::external_body]
pub(crate) fn get_context(m: &ContextMap, name: &str) -> (r: Option<Arc<RlmContext>>)
    ensures
        match r {
            Some(context) => contexts_in(*m).dom().contains(name@) && contexts_in(*m)[name@]
                == *context,
            None => !contexts_in(*m).dom().contains(name@),
        },
{
    m.get(name).map(|entry| entry.value().clone())
}

/// Calls `DashMap::iter` and collects the keys. Each key of the map comes once; in which
/// order is open.
#[verifier::external_body]
pub(crate) fn context_names(m: &ContextMap) -> (r: Vec<String>)
    ensures
        lists(matching::string_views(r@), contexts_in(*m).dom()),
{
    m.iter().map(|entry| entry.key().clone()).collect()
}

// ---------------------------------------------------------------------------
// Memory
// ---------------------------------------------------------------------------

/// Calls `DashMap::new`, which makes a map that holds nothing.
#[verifier::external_body]
pub(crate) fn new_memory() -> (r: MemoryMap)
    ensures
        (values_in(r) == Map::<Seq<char>, serde_json::Value>::empty()),
{
    dashmap::DashMap::new()
}

/// Calls `DashMap::insert`, which sets the value of the key and leaves the others.
#[verifier::external_body]
pub(crate) fn insert_value(m: &mut MemoryMap, key: String, value: Arc<serde_json::Value>)
    ensures
        values_in(*final(m)) == values_in(*old(m)).insert(key@, *value),
{
    m.insert(key, value);
}

/// Calls `DashMap::get`, which finds the value of the key if the map has it.
#[verifier::external_body]
pub(crate) fn get_value(m: &MemoryMap, key: &str) -> (r: Option<Arc<serde_json::Value>>)
    ensures
        match r {
            Some(value) => values_in(*m).dom().contains(key@) && values_in(*m)[key@] == *value,
            None => !values_in(*m).dom().contains(key@),
        },
{
    m.get(key).map(|entry| entry.value().clone())
}

/// Calls `DashMap::iter` and collects the keys. Each key of the map comes once; in which
/// order is open.
#[verifier::external_body]
pub(crate) fn memory_keys(m: &MemoryMap) -> (r: Vec<String>)
    ensures
        lists(matching::string_views(r@), values_in(*m).dom()),
{
    m.iter().map(|entry| entry.key().clone()).collect()
}

} // verus!
