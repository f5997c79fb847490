//! Trusted interface to indexmap's `IndexMap`, the insertion-ordered map that
//! backs a bucket's active and replacement sets. The map's contents are named
//! by `imap_entries`, a sequence of key-value pairs in insertion order; each
//! wrapper states over that name what the indexmap source shows.

use indexmap::IndexMap;
use std::collections::hash_map::RandomState;
use vstd::prelude::*;

use crate::node::{Node, NodeId};

verus! {

#[verifier::external_type_specification]
#[verifier::external_body]
#[verifier::reject_recursive_types(K)]
#[verifier::reject_recursive_types(V)]
#[verifier::reject_recursive_types(S)]
pub struct ExIndexMap<K, V, S>(IndexMap<K, V, S>);

/// An insertion-ordered map from peer identifiers to peers.
pub type PeerMap = IndexMap<NodeId, Node, RandomState>;

/// The contents of a peer map: its key-value pairs in order, first-inserted
/// first. Insertion order is the map's documented iteration order.
pub uninterp spec fn imap_entries(m: PeerMap) -> Seq<(NodeId, Node)>;

/// Whether some entry of `s` has key view `id`.
pub open spec fn has_key(s: Seq<(NodeId, Node)>, id: Seq<u8>) -> bool {
    exists|i: int| 0 <= i < s.len() && s[i].0@ == id
}

/// The index of the entry of `s` whose key view is `id`. A map's keys are
/// unique, so when `has_key` holds there is exactly one such index.
pub open spec fn key_index(s: Seq<(NodeId, Node)>, id: Seq<u8>) -> int {
    choose|i: int| 0 <= i < s.len() && s[i].0@ == id
}

/// `s` without its entry for key view `id`, if any; later entries shift down.
pub open spec fn drop_key(s: Seq<(NodeId, Node)>, id: Seq<u8>) -> Seq<(NodeId, Node)> {
    if has_key(s, id) {
        s.remove(key_index(s, id))
    } else {
        s
    }
}

/// No two entries of `s` share a key view.
pub open spec fn distinct_keys(s: Seq<(NodeId, Node)>) -> bool {
    forall|i: int, j: int| 0 <= i < j < s.len() ==> s[i].0@ != s[j].0@
}

/// Each entry of `s` is keyed by the identifier of the peer it stores.
pub open spec fn keys_match(s: Seq<(NodeId, Node)>) -> bool {
    forall|i: int| 0 <= i < s.len() ==> s[i].0 == s[i].1.id
}

/// No key view occurs in both `a` and `b`.
pub open spec fn disjoint_keys(a: Seq<(NodeId, Node)>, b: Seq<(NodeId, Node)>) -> bool {
    forall|i: int, j: int| 0 <= i < a.len() && 0 <= j < b.len() ==> a[i].0@ != b[j].0@
}

/// Relies on IndexMap::new: a fresh map is empty.
#[verifier::external_body]
pub fn imap_new() -> (m: PeerMap)
    ensures
        imap_entries(m) == Seq::<(NodeId, Node)>::empty(),
{
    IndexMap::new()
}

/// Relies on IndexMap::len: the number of entries.
#[verifier::external_body]
pub fn imap_len(m: &PeerMap) -> (n: usize)
    ensures
        n == imap_entries(*m).len(),
{
    m.len()
}

/// Relies on IndexMap::contains_key, with the derived bytewise equality of
/// `NodeId` keys.
#[verifier::external_body]
pub fn imap_contains(m: &PeerMap, id: &NodeId) -> (r: bool)
    ensures
        r == has_key(imap_entries(*m), id@),
{
    m.contains_key(id)
}

/// Relies on IndexMap::get: the value stored under the key, if any.
#[verifier::external_body]
pub fn imap_get(m: &PeerMap, id: &NodeId) -> (r: Option<Node>)
    ensures
        r is Some <==> has_key(imap_entries(*m), id@),
        has_key(imap_entries(*m), id@) ==> r == Some(
            imap_entries(*m)[key_index(imap_entries(*m), id@)].1,
        ),
{
    m.get(id).copied()
}

/// Relies on IndexMap::insert for a key not yet present: the new pair is
/// appended, last in order, and nothing else moves.
#[verifier::external_body]
pub fn imap_insert_new(m: &mut PeerMap, id: NodeId, node: Node)
    requires
        !has_key(imap_entries(*old(m)), id@),
    ensures
        imap_entries(*final(m)) == imap_entries(*old(m)).push((id, node)),
{
    m.insert(id, node);
}

/// Relies on IndexMap::shift_remove: the entry with the key, if present, is
/// removed and the entries after it shift down, preserving their order.
#[verifier::external_body]
pub fn imap_shift_remove(m: &mut PeerMap, id: &NodeId) -> (r: Option<Node>)
    ensures
        r is Some <==> has_key(imap_entries(*old(m)), id@),
        !has_key(imap_entries(*old(m)), id@) ==> imap_entries(*final(m)) == imap_entries(*old(m)),
        has_key(imap_entries(*old(m)), id@) ==> r == Some(
            imap_entries(*old(m))[key_index(imap_entries(*old(m)), id@)].1,
        ) && imap_entries(*final(m)) == drop_key(imap_entries(*old(m)), id@),
{
    m.shift_remove(id)
}

/// Relies on IndexMap::shift_remove_index at index 0: the oldest entry, if
/// any, is removed and the rest shift down, preserving their order.
#[verifier::external_body]
pub fn imap_shift_remove_first(m: &mut PeerMap) -> (r: Option<(NodeId, Node)>)
    ensures
        r is Some <==> imap_entries(*old(m)).len() > 0,
        imap_entries(*old(m)).len() == 0 ==> imap_entries(*final(m)) == imap_entries(*old(m)),
        r matches Some(p) ==> p == imap_entries(*old(m))[0] && imap_entries(*final(m)) == imap_entries(
            *old(m),
        ).subrange(1, imap_entries(*old(m)).len() as int),
{
    m.shift_remove_index(0)
}

/// Relies on IndexMap::values: the values in insertion order.
#[verifier::external_body]
pub fn imap_values(m: &PeerMap) -> (v: Vec<Node>)
    ensures
        v@ == imap_entries(*m).map_values(|p: (NodeId, Node)| p.1),
{
    m.values().copied().collect()
}

/// Relies on IndexMap::values: the first (oldest) value, if any.
#[verifier::external_body]
pub fn imap_first(m: &PeerMap) -> (r: Option<Node>)
    ensures
        imap_entries(*m).len() == 0 ==> r is None,
        imap_entries(*m).len() > 0 ==> r == Some(imap_entries(*m)[0].1),
{
    m.values().next().copied()
}

} // verus!
