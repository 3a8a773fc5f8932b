use vstd::prelude::*;
use bevy::platform::collections::HashMap;
use bevy::platform::hash::FixedHasher;

verus! {

/// Key of a node: its coordinates on its level, then the level.
pub type NodeKey = (u8, u8, u8, u8);

#[verifier::external_type_specification]
#[verifier::external_body]
#[verifier::reject_recursive_types(K)]
#[verifier::reject_recursive_types(V)]
#[verifier::reject_recursive_types(S)]
pub struct ExHashMap<K, V, S>(HashMap<K, V, S>);

#[verifier::external_type_specification]
#[verifier::external_body]
pub struct ExFixedHasher(FixedHasher);

/// The entries of a map from node keys to node values.
pub uninterp spec fn node_values(m: HashMap<NodeKey, u8>) -> Map<NodeKey, u8>;

/// The map without entries.
pub open spec fn empty_node_values() -> Map<NodeKey, u8> {
    Map::empty()
}

/// `HashMap::new`: an empty map.
#[verifier::external_body]
pub(crate) fn node_values_new() -> (r: HashMap<NodeKey, u8>)
    ensures
        node_values(r) == empty_node_values(),
{
    HashMap::new()
}

/// `HashMap::get`: the value under `k`, if there is one.
#[verifier::external_body]
pub(crate) fn node_values_get<'a>(m: &'a HashMap<NodeKey, u8>, k: NodeKey) -> (r: Option<&'a u8>)
    ensures
        node_values(*m).dom().contains(k) ==> r == Some(&node_values(*m)[k]),
        !node_values(*m).dom().contains(k) ==> r is None,
{
    m.get(&k)
}

/// `HashMap::insert`: puts `v` under `k`, replacing any earlier value.
#[verifier::external_body]
pub(crate) fn node_values_insert(m: &mut HashMap<NodeKey, u8>, k: NodeKey, v: u8)
    ensures
        node_values(*final(m)) == node_values(*old(m)).insert(k, v),
{
    m.insert(k, v);
}

/// `HashMap::remove`: takes the value under `k` out, if there is one.
#[verifier::external_body]
pub(crate) fn node_values_remove(m: &mut HashMap<NodeKey, u8>, k: NodeKey) -> (r: Option<u8>)
    ensures
        node_values(*final(m)) == node_values(*old(m)).remove(k),
        node_values(*old(m)).dom().contains(k) ==> r == Some(node_values(*old(m))[k]),
        !node_values(*old(m)).dom().contains(k) ==> r is None,
{
    m.remove(&k)
}

/// `HashMap::clone`: a map with the same entries.
#[verifier::external_body]
pub(crate) fn node_values_clone(m: &HashMap<NodeKey, u8>) -> (r: HashMap<NodeKey, u8>)
    ensures
        node_values(r) == node_values(*m),
{
    m.clone()
}

} // verus!
