//! The nodes of the overlay.

use crate::guid::GUID;
use crate::hash::{derive_guid, derived_number};
use crate::table::{
    duplicate_store, empty_store, entries_insert, key_index, keys_distinct,
    lemma_insert_keeps_distinct, lemma_key_index, peer_entries, stored_entries, PeerTable,
};
use indexmap::IndexMap;
use vstd::prelude::*;

verus! {

/// A unit of stored data.
pub type DATA = u8;

/// The number of bytes in the salt of an identifier.
pub const SALT_BYTES: usize = 20;

/// How far a request through the overlay has come.
pub enum ConnectionStep {
    /// The request is answered with `data`.
    Done { data: Vec<DATA> },
    /// The request failed at the node `id`.
    Failed { id: GUID },
    /// The request goes on to the node `id`.
    Seeking { id: GUID },
}

/// A bucket of up to `K` peers at one distance.
pub struct KBucket<const K: usize> {}

/// A node: its identifier, the peers it knows and the data it stores.
pub struct Node {
    guid: GUID,
    peers: PeerTable,
    storage: IndexMap<GUID, DATA>,
}

/// The table that holds each of `peers` under its identifier, put in one after
/// the other.
pub open spec fn collected_peers(peers: Seq<Node>) -> Seq<(GUID, Node)>
    decreases peers.len(),
{
    if peers.len() == 0 {
        Seq::empty()
    } else {
        entries_insert(collected_peers(peers.drop_last()), peers.last().id(), peers.last())
    }
}

/// Every entry stands under the identifier of its node.
pub open spec fn keyed_by_id(entries: Seq<(GUID, Node)>) -> bool {
    forall|i: int| 0 <= i < entries.len() ==> (#[trigger] entries[i]).0 == entries[i].1.id()
}

/// A table collected from peers has no identifier twice, and holds each node
/// under its own identifier.
pub proof fn lemma_collected_peers(peers: Seq<Node>)
    ensures
        keys_distinct(collected_peers(peers)),
        keyed_by_id(collected_peers(peers)),
    decreases peers.len(),
{
    if peers.len() > 0 {
        let before = collected_peers(peers.drop_last());
        let last = peers.last();
        lemma_collected_peers(peers.drop_last());
        lemma_insert_keeps_distinct(before, last.id(), last);
        lemma_key_index(before, last.id());
        let after = collected_peers(peers);
        assert forall|i: int| 0 <= i < after.len() implies (#[trigger] after[i]).0
            == after[i].1.id() by {
            if i != key_index(before, last.id()) {
                assert(after[i] == before[i]);
            }
        }
    }
}

/// Fresh random bytes for a salt.
///
/// Trusted: this is `rand::random`, which draws from the generator of the
/// thread. Nothing is known of the bytes.
#[verifier::external_body]
fn random_salt() -> [u8; SALT_BYTES] {
    rand::random()
}

impl Node {
    /// The identifier of the node.
    pub closed spec fn id(&self) -> GUID {
        self.guid
    }

    /// The peers that the node knows, each under its identifier, in the order
    /// in which they were first put in.
    pub closed spec fn known_peers(&self) -> Seq<(GUID, Node)> {
        peer_entries(self.peers)
    }

    /// The data that the node stores, each unit under its identifier.
    pub closed spec fn stored(&self) -> Seq<(GUID, DATA)> {
        stored_entries(self.storage)
    }

    /// What holds of every node: it knows no identifier twice, and knows
    /// each peer under the identifier of that peer.
    pub open spec fn wf(&self) -> bool {
        &&& keys_distinct(self.known_peers())
        &&& keyed_by_id(self.known_peers())
    }

    /// A node with the identifier `guid` that knows `peers` and stores
    /// nothing.
    fn assemble(guid: GUID, peers: &[Node]) -> (node: Node)
        ensures
            node.wf(),
            node.id() == guid,
            node.known_peers() == collected_peers(peers@),
            node.stored() == Seq::<(GUID, DATA)>::empty(),
    {
        let mut table = PeerTable::new();
        let mut i: usize = 0;
        while i < peers.len()
            invariant
                i <= peers@.len(),
                peer_entries(table) == collected_peers(peers@.subrange(0, i as int)),
            decreases peers@.len() - i,
        {
            let peer = &peers[i];
            proof {
                assert(peers@.subrange(0, i + 1).drop_last() =~= peers@.subrange(0, i as int));
            }
            table.insert(peer.guid, peer.clone());
            i += 1;
        }
        proof {
            assert(peers@.subrange(0, peers@.len() as int) =~= peers@);
            lemma_collected_peers(peers@);
        }
        Node { guid, peers: table, storage: empty_store() }
    }

    /// A node named `name` that knows no peer and stores nothing. Its
    /// identifier is derived from the name and a fresh random salt.
    pub fn new(name: &str) -> (node: Node)
        ensures
            node.wf(),
            exists|salt: Seq<u8>|
                salt.len() == SALT_BYTES && node.id()@ == #[trigger] derived_number(salt, name),
            node.known_peers() == Seq::<(GUID, Node)>::empty(),
            node.stored() == Seq::<(GUID, DATA)>::empty(),
    {
        let salt = random_salt();
        let guid = derive_guid(salt.as_slice(), name);
        let none: [Node; 0] = [];
        let node = Node::assemble(guid, none.as_slice());
        assert(guid@ == derived_number(salt@, name));
        node
    }

    /// A node named `name` that knows `peers` and stores nothing. Its
    /// identifier is derived from the name and a fresh random salt. Of peers
    /// with one identifier the table keeps the last, at the place of the
    /// first.
    pub fn new_with_peers(name: &str, peers: &[Node]) -> (node: Node)
        ensures
            node.wf(),
            exists|salt: Seq<u8>|
                salt.len() == SALT_BYTES && node.id()@ == #[trigger] derived_number(salt, name),
            node.known_peers() == collected_peers(peers@),
            node.stored() == Seq::<(GUID, DATA)>::empty(),
    {
        let salt = random_salt();
        let guid = derive_guid(salt.as_slice(), name);
        let node = Node::assemble(guid, peers);
        assert(guid@ == derived_number(salt@, name));
        node
    }

    /// The identifier of the node.
    pub fn guid(&self) -> (guid: GUID)
        ensures
            guid == self.id(),
    {
        self.guid
    }

    /// The peers that the node knows, in the order in which they were first
    /// put in.
    pub fn peers(&self) -> (peers: Vec<&Node>)
        ensures
            peers@.len() == self.known_peers().len(),
            forall|i: int| 0 <= i < peers@.len() ==> *peers@[i] == self.known_peers()[i].1,
    {
        self.peers.values()
    }
}

impl Clone for Node {
    /// A node with the same identifier, peers and data.
    fn clone(&self) -> (copy: Node)
        ensures
            copy == *self,
    {
        Node {
            guid: self.guid,
            peers: self.peers.duplicate(),
            storage: duplicate_store(&self.storage),
        }
    }
}

} // verus!
