use nexus_link::message::Message;
use nexus_link::network::{DiscoveryEvent, Network, NetworkError, Peer};

fn names(peers: &[Peer]) -> Vec<String> {
    peers.iter().map(|p| p.name.clone()).collect()
}

#[test]
fn new_node_knows_no_peers() {
    let n = Network::new("alice".to_string(), 9876);
    assert_eq!(n.peer_name, "alice");
    assert_eq!(n.port, 9876);
    assert!(n.list_peers().is_empty());
}

#[test]
fn resolved_peer_is_listed() {
    let mut n = Network::with_id(7, "alice".to_string(), 9876);
    n.peer_resolved(1, "bob._nexustransfer._tcp.local.".to_string(), "10.0.0.2:9876".to_string());
    let peers = n.list_peers();
    assert_eq!(peers.len(), 1);
    assert_eq!(peers[0].id, 1);
    assert_eq!(peers[0].name, "bob._nexustransfer._tcp.local.");
    assert_eq!(peers[0].addr, "10.0.0.2:9876");
}

#[test]
fn own_identity_is_never_stored() {
    let mut n = Network::with_id(7, "alice".to_string(), 9876);
    n.peer_resolved(7, "alice".to_string(), "10.0.0.1:9876".to_string());
    assert!(n.list_peers().is_empty());
}

#[test]
fn resolving_a_known_id_replaces_it() {
    let mut n = Network::with_id(7, "alice".to_string(), 9876);
    n.peer_resolved(1, "bob".to_string(), "10.0.0.2:9876".to_string());
    n.peer_resolved(2, "carol".to_string(), "10.0.0.3:9876".to_string());
    n.peer_resolved(1, "bob".to_string(), "10.0.0.9:9876".to_string());
    let peers = n.list_peers();
    assert_eq!(peers.len(), 2);
    assert_eq!(peers[0].addr, "10.0.0.9:9876");
    assert_eq!(peers[1].name, "carol");
}

#[test]
fn removal_drops_every_peer_with_that_name() {
    let mut n = Network::with_id(7, "alice".to_string(), 9876);
    n.peer_resolved(1, "bob".to_string(), "10.0.0.2:9876".to_string());
    n.peer_resolved(2, "carol".to_string(), "10.0.0.3:9876".to_string());
    n.peer_resolved(3, "bob".to_string(), "10.0.0.4:9876".to_string());
    n.peer_removed(&"bob".to_string());
    assert_eq!(names(&n.list_peers()), vec!["carol".to_string()]);
    n.peer_removed(&"nobody".to_string());
    assert_eq!(names(&n.list_peers()), vec!["carol".to_string()]);
}

#[test]
fn discovery_events_update_registry() {
    let mut n = Network::with_id(7, "alice".to_string(), 9876);
    n.on_discovery_event(DiscoveryEvent::Resolved { name: "bob".to_string(), addr: None });
    assert!(n.list_peers().is_empty());
    n.on_discovery_event(DiscoveryEvent::Resolved {
        name: "bob".to_string(),
        addr: Some("10.0.0.2:9876".to_string()),
    });
    let peers = n.list_peers();
    assert_eq!(peers.len(), 1);
    assert_ne!(peers[0].id, 7);
    assert_eq!(peers[0].addr, "10.0.0.2:9876");
    n.on_discovery_event(DiscoveryEvent::Other);
    assert_eq!(n.list_peers().len(), 1);
    n.on_discovery_event(DiscoveryEvent::Removed { name: "bob".to_string() });
    assert!(n.list_peers().is_empty());
}

#[test]
fn send_to_unknown_peer_is_peer_not_found() {
    let n = Network::with_id(7, "alice".to_string(), 9876);
    let r = n.send_message(5, Message::Text { content: "hi".to_string() });
    assert!(matches!(r, Err(NetworkError::PeerNotFound)));
}

#[test]
fn send_to_known_peer_gives_address_and_frame() {
    let mut n = Network::with_id(7, "alice".to_string(), 9876);
    n.peer_resolved(5, "bob".to_string(), "10.0.0.2:9876".to_string());
    let out = n.send_message(5, Message::FileAccept { id: 1 }).ok().unwrap();
    assert_eq!(out.addr, "10.0.0.2:9876");
    let mut expected = vec![0, 0, 0, 20, 2, 0, 0, 0, 1];
    expected.extend(vec![0u8; 15]);
    assert_eq!(out.frame, expected);
}

#[test]
fn host_name_is_name_under_local() {
    let n = Network::with_id(7, "alice".to_string(), 9876);
    assert_eq!(n.host_name(), "alice.local.");
}

#[test]
fn new_nodes_get_distinct_ids() {
    let a = Network::new("a".to_string(), 1);
    let b = Network::new("b".to_string(), 1);
    assert_ne!(a.peer_id, b.peer_id);
    assert_eq!((a.peer_id >> 76) & 0xf, 4);
}
