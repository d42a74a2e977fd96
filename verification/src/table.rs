//! The tables of a node: its peers and what it stores, each kept in the order
//! in which the entries were first inserted.
//!
//! Both tables are maps of the `indexmap` crate. What they hold is known to
//! the rest of the library only through [`peer_entries`] and
//! [`stored_entries`], and through what the functions here state of them.

use crate::guid::GUID;
use crate::node::Node;
use indexmap::IndexMap;
use vstd::prelude::*;

verus! {

/// `indexmap::IndexMap`, a hash map that keeps its entries in insertion
/// order. Nothing of its inside is known here.
#[verifier::external_type_specification]
#[verifier::external_body]
#[verifier::reject_recursive_types(K)]
#[verifier::reject_recursive_types(V)]
#[verifier::reject_recursive_types(S)]
pub struct ExIndexMap<K, V, S>(IndexMap<K, V, S>);

/// The entries that a store of data holds: the keys of the map with their
/// values, in the order of the map.
pub uninterp spec fn stored_entries(store: IndexMap<GUID, u8>) -> Seq<(GUID, u8)>;

/// The entries that a table of peers holds: the keys of the map with their
/// values, in the order of the map.
pub uninterp spec fn peer_entries(table: PeerTable) -> Seq<(GUID, Node)>;

/// The place of the first entry under `key`, or the number of entries if
/// there is none.
pub open spec fn key_index<V>(entries: Seq<(GUID, V)>, key: GUID) -> int
    decreases entries.len(),
{
    if entries.len() == 0 {
        0
    } else if entries[0].0 == key {
        0
    } else {
        1 + key_index(entries.drop_first(), key)
    }
}

/// The entries after `value` is inserted under `key`: where the key was
/// present its entry keeps its place and takes the new value, and where it was
/// not the new entry comes last.
pub open spec fn entries_insert<V>(entries: Seq<(GUID, V)>, key: GUID, value: V) -> Seq<
    (GUID, V),
> {
    let index = key_index(entries, key);
    if index < entries.len() {
        entries.update(index, (key, value))
    } else {
        entries.push((key, value))
    }
}

/// No two entries have the same key.
pub open spec fn keys_distinct<V>(entries: Seq<(GUID, V)>) -> bool {
    forall|i: int, j: int|
        0 <= i < j < entries.len() ==> (#[trigger] entries[i]).0 != (#[trigger] entries[j]).0
}

/// [`key_index`] is the place of an entry under the key, or the number of
/// entries where no entry has the key.
pub proof fn lemma_key_index<V>(entries: Seq<(GUID, V)>, key: GUID)
    ensures
        0 <= key_index(entries, key) <= entries.len(),
        key_index(entries, key) < entries.len() ==> entries[key_index(entries, key)].0 == key,
        forall|i: int| 0 <= i < key_index(entries, key) ==> (#[trigger] entries[i]).0 != key,
    decreases entries.len(),
{
    if entries.len() > 0 && entries[0].0 != key {
        let rest = entries.drop_first();
        lemma_key_index(rest, key);
        assert forall|i: int| 0 <= i < key_index(entries, key) implies (#[trigger] entries[i]).0
            != key by {
            if i > 0 {
                assert(rest[i - 1] == entries[i]);
            }
        }
    }
}

/// Inserting keeps the keys distinct, and leaves the new value under its key.
pub proof fn lemma_insert_keeps_distinct<V>(entries: Seq<(GUID, V)>, key: GUID, value: V)
    requires
        keys_distinct(entries),
    ensures
        keys_distinct(entries_insert(entries, key, value)),
        entries_insert(entries, key, value)[key_index(entries, key)] == (key, value),
{
    lemma_key_index(entries, key);
    let index = key_index(entries, key);
    let after = entries_insert(entries, key, value);
    assert forall|i: int, j: int| 0 <= i < j < after.len() implies (#[trigger] after[i]).0 != (
    #[trigger] after[j]).0 by {
        if index < entries.len() {
            assert(after[i].0 == entries[i].0);
            assert(after[j].0 == entries[j].0);
        } else if j < entries.len() {
            assert(after[i] == entries[i]);
            assert(after[j] == entries[j]);
        } else {
            assert(after[i] == entries[i]);
        }
    }
}

/// A store of data that holds nothing.
///
/// Trusted: this is `IndexMap::default`, which returns an empty map.
#[verifier::external_body]
pub(crate) fn empty_store() -> (store: IndexMap<GUID, u8>)
    ensures
        stored_entries(store) == Seq::<(GUID, u8)>::empty(),
{
    IndexMap::default()
}

/// A store with the same entries in the same order.
///
/// Trusted: this is `IndexMap::clone`, which copies the entries of the map as
/// they stand. Nothing that is said of a store here tells the copy from the
/// store.
#[verifier::external_body]
pub(crate) fn duplicate_store(store: &IndexMap<GUID, u8>) -> (copy: IndexMap<GUID, u8>)
    ensures
        copy == *store,
{
    store.clone()
}

/// The peers that a node knows, each under its identifier.
///
/// Trusted: the table holds an `indexmap::IndexMap` from identifiers to
/// nodes. A node holds such a table of nodes in turn, which is why the map
/// stands in a type of its own.
#[verifier::external_body]
pub struct PeerTable {
    map: IndexMap<GUID, Node>,
}

impl PeerTable {
    /// A table that holds no peer.
    ///
    /// Trusted: this is `IndexMap::default`, which returns an empty map.
    #[verifier::external_body]
    pub(crate) fn new() -> (table: PeerTable)
        ensures
            peer_entries(table) == Seq::<(GUID, Node)>::empty(),
    {
        PeerTable { map: IndexMap::default() }
    }

    /// A table with the same entries in the same order.
    ///
    /// Trusted: this is `IndexMap::clone`, which copies the entries of the
    /// map as they stand. Nothing that is said of a table here tells the copy
    /// from the table.
    #[verifier::external_body]
    pub(crate) fn duplicate(&self) -> (copy: PeerTable)
        ensures
            copy == *self,
    {
        PeerTable { map: self.map.clone() }
    }

    /// Puts `node` into the table under `key`.
    ///
    /// Trusted: this is `IndexMap::insert`. Where an equal key is in the map,
    /// the entry keeps its key and its place and takes the new value; where
    /// none is, the new entry comes last. Keys are equal when they are the
    /// same identifier.
    #[verifier::external_body]
    pub(crate) fn insert(&mut self, key: GUID, node: Node)
        ensures
            peer_entries(*final(self)) == entries_insert(peer_entries(*old(self)), key, node),
    {
        self.map.insert(key, node);
    }

    /// The nodes in the table, in its order.
    ///
    /// Trusted: this is `IndexMap::values`, which walks the values of the map
    /// in the order of its entries.
    #[verifier::external_body]
    pub(crate) fn values(&self) -> (nodes: Vec<&Node>)
        ensures
            nodes@.len() == peer_entries(*self).len(),
            forall|i: int| 0 <= i < nodes@.len() ==> *nodes@[i] == peer_entries(*self)[i].1,
    {
        self.map.values().collect()
    }
}

} // verus!
