use webrtc_session::session::Offer;
use webrtc_session::session::Peer;
use webrtc_session::session::SessionError;
use webrtc_session::store::prepare_join;
use webrtc_session::store::MemorySessionStore;
use webrtc_session::store::SessionRepo;

fn peer(id: &str, ty: &str, sdp: &str) -> Peer {
    Peer::new(id.to_string(), Offer::new(ty.to_string(), sdp.to_string()))
}

#[test]
fn get_unknown_session_is_not_found() {
    let store = MemorySessionStore::new();
    assert!(matches!(
        store.get_session("never-joined"),
        Err(SessionError::NotFound)
    ));
}

#[test]
fn join_then_get_returns_exactly_that_peer() {
    let mut store = MemorySessionStore::new();
    let joined = store.join_session("room", peer("p1", "offer", "sdp1")).unwrap();
    assert_eq!(joined.len(), 1);
    let got = store.get_session("room").unwrap();
    assert_eq!(got.len(), 1);
    assert_eq!(got[0].peer_id().as_str(), "p1");
    assert_eq!(got[0].offer().offer_type().as_str(), "offer");
    assert_eq!(got[0].offer().sdp().as_str(), "sdp1");
}

#[test]
fn sequential_joins_keep_all_peers_in_order() {
    let mut store = MemorySessionStore::new();
    let ids = ["p1", "p2", "p3", "p4"];
    for id in ids.iter() {
        store.join_session("room", peer(id, "offer", "sdp")).unwrap();
    }
    let got = store.get_session("room").unwrap();
    assert_eq!(got.len(), 4);
    for (k, id) in ids.iter().enumerate() {
        assert_eq!(got[k].peer_id().as_str(), *id);
        assert_eq!(got.iter().filter(|p| p.peer_id().as_str() == *id).count(), 1);
    }
}

#[test]
fn interleaved_joins_lose_no_update() {
    // Both landing orders of two racing joins to a fresh id.
    for order in [["p1", "p2"], ["p2", "p1"]].iter() {
        let mut store = MemorySessionStore::new();
        for id in order.iter() {
            store.join_session("fresh", peer(id, "offer", "sdp")).unwrap();
        }
        let got = store.get_session("fresh").unwrap();
        assert_eq!(got.len(), 2);
        for id in ["p1", "p2"].iter() {
            assert_eq!(got.iter().filter(|p| p.peer_id().as_str() == *id).count(), 1);
        }
    }
}

#[test]
fn delete_removes_session_and_is_idempotent() {
    let mut store = MemorySessionStore::new();
    store.join_session("room", peer("p1", "offer", "sdp")).unwrap();
    assert!(store.delete_session("room"));
    assert!(matches!(
        store.get_session("room"),
        Err(SessionError::NotFound)
    ));
    assert!(!store.delete_session("room"));
    assert!(!store.delete_session("never-existed"));
}

#[test]
fn list_after_join_and_delete() {
    let mut store = MemorySessionStore::new();
    store.join_session("a", peer("p1", "offer", "sdp")).unwrap();
    store.join_session("b", peer("p2", "offer", "sdp")).unwrap();
    store.delete_session("a");
    let ids = store.list_session_ids();
    assert_eq!(ids.len(), 1);
    assert_eq!(ids[0].as_str(), "b");
}

#[test]
fn list_on_empty_store_is_empty() {
    let store = MemorySessionStore::new();
    assert!(store.list_session_ids().is_empty());
}

#[test]
fn empty_peer_id_is_invalid_input() {
    let mut store = MemorySessionStore::new();
    assert!(matches!(
        store.join_session("room", peer("", "offer", "sdp")),
        Err(SessionError::InvalidInput)
    ));
    assert!(matches!(
        store.get_session("room"),
        Err(SessionError::NotFound)
    ));
}

#[test]
fn duplicate_peer_id_is_invalid_input() {
    let mut store = MemorySessionStore::new();
    store.join_session("room", peer("p1", "offer", "sdp")).unwrap();
    assert!(matches!(
        store.join_session("room", peer("p1", "offer", "other sdp")),
        Err(SessionError::InvalidInput)
    ));
    let got = store.get_session("room").unwrap();
    assert_eq!(got.len(), 1);
    assert_eq!(got[0].offer().sdp().as_str(), "sdp");
}

#[test]
fn corrupted_stored_value_reads_as_decode_error() {
    let mut store = MemorySessionStore::new();
    store.join_session("room", peer("p1", "offer", "sdp")).unwrap();
    store.put_raw_value("room", "{broken".to_string());
    assert!(matches!(
        store.get_session("room"),
        Err(SessionError::DecodeError)
    ));
    assert!(matches!(
        store.join_session("room", peer("p2", "offer", "sdp")),
        Err(SessionError::DecodeError)
    ));
}

#[test]
fn sessions_under_different_ids_are_independent() {
    let mut store = MemorySessionStore::new();
    store.join_session("a", peer("p1", "offer", "sdp-a")).unwrap();
    store.join_session("b", peer("p1", "offer", "sdp-b")).unwrap();
    let got_a = store.get_session("a").unwrap();
    let got_b = store.get_session("b").unwrap();
    assert_eq!(got_a.len(), 1);
    assert_eq!(got_b.len(), 1);
    assert_eq!(got_a[0].offer().sdp().as_str(), "sdp-a");
    assert_eq!(got_b[0].offer().sdp().as_str(), "sdp-b");
}

#[test]
fn prepare_join_builds_the_value_a_backend_would_write() {
    let (value, session) = prepare_join(None, &peer("p1", "offer", "sdp")).unwrap();
    assert_eq!(session.len(), 1);
    assert_eq!(
        value,
        r#"[{"peer_id":"p1","offer":{"type":"offer","sdp":"sdp"}}]"#
    );
    let (value2, session2) = prepare_join(Some(&value), &peer("p2", "answer", "sdp2")).unwrap();
    assert_eq!(session2.len(), 2);
    assert_eq!(
        value2,
        r#"[{"peer_id":"p1","offer":{"type":"offer","sdp":"sdp"}},{"peer_id":"p2","offer":{"type":"answer","sdp":"sdp2"}}]"#
    );
    assert!(matches!(
        prepare_join(Some(&value2), &peer("p2", "x", "y")),
        Err(SessionError::InvalidInput)
    ));
}
