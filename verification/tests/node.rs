use blake2::digest::consts::U20;
use blake2::{Blake2b, Digest};
use guid::hash::derive_guid;
use guid::{Node, GUID};

fn expected_guid(salt: &[u8], name: &str) -> GUID {
    let mut hasher = Blake2b::<U20>::new();
    hasher.update(salt);
    hasher.update(name.as_bytes());
    let digest: [u8; 20] = hasher.finalize().into();
    GUID::from_bytes_be(&digest)
}

#[test]
fn derive_guid_hashes_salt_then_name() {
    let salt = [7u8; 20];
    assert_eq!(derive_guid(&salt, "alice"), expected_guid(&salt, "alice"));
    assert_eq!(derive_guid(&[], ""), expected_guid(&[], ""));
    assert_eq!(derive_guid(&[1, 2, 3], "é"), expected_guid(&[1, 2, 3], "é"));
}

#[test]
fn derive_guid_depends_on_salt_and_name() {
    let salt = [7u8; 20];
    let other = [8u8; 20];
    assert_ne!(derive_guid(&salt, "alice"), derive_guid(&salt, "bob"));
    assert_ne!(derive_guid(&salt, "alice"), derive_guid(&other, "alice"));
    assert_eq!(derive_guid(&salt, "alice"), derive_guid(&salt, "alice"));
}

#[test]
fn derive_guid_is_not_its_input() {
    let salt = [0u8; 20];
    assert_ne!(derive_guid(&salt, ""), GUID::from_bytes_be(&salt));
}

#[test]
fn new_node_knows_no_peer() {
    let node = Node::new("alice");
    assert!(node.peers().is_empty());
}

#[test]
fn new_nodes_of_one_name_differ() {
    let a = Node::new("alice");
    let b = Node::new("alice");
    assert_ne!(a.guid(), b.guid());
}

#[test]
fn new_with_peers_keeps_the_peers_in_order() {
    let a = Node::new("a");
    let b = Node::new("b");
    let c = Node::new("c");
    let node = Node::new_with_peers("hub", &[b.clone(), a.clone(), c.clone()]);
    let guids: Vec<GUID> = node.peers().iter().map(|peer| peer.guid()).collect();
    assert_eq!(guids, vec![b.guid(), a.guid(), c.guid()]);
}

#[test]
fn new_with_peers_keeps_one_entry_for_each_identifier() {
    let a = Node::new("a");
    let b = Node::new("b");
    let a_with_peer = Node::new_with_peers("a", &[b.clone()]);
    let first = Node::new_with_peers("hub", &[a.clone(), b.clone(), a.clone()]);
    let guids: Vec<GUID> = first.peers().iter().map(|peer| peer.guid()).collect();
    assert_eq!(guids, vec![a.guid(), b.guid()]);
    assert_ne!(a_with_peer.guid(), a.guid());
}

#[test]
fn clone_of_a_node_has_its_identifier_and_peers() {
    let a = Node::new("a");
    let hub = Node::new_with_peers("hub", &[a.clone()]);
    let copy = hub.clone();
    assert_eq!(copy.guid(), hub.guid());
    assert_eq!(copy.peers().len(), 1);
    assert_eq!(copy.peers()[0].guid(), a.guid());
}
