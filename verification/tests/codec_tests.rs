use webrtc_session::codec::decode_peer;
use webrtc_session::codec::decode_session;
use webrtc_session::codec::encode_session;
use webrtc_session::session::Offer;
use webrtc_session::session::Peer;
use webrtc_session::session::SessionError;

fn peer(id: &str, ty: &str, sdp: &str) -> Peer {
    Peer::new(id.to_string(), Offer::new(ty.to_string(), sdp.to_string()))
}

#[test]
fn test_struct_deserialise() {
    let data = r#"{"peer_id":"myid","offer":{"type":"type1","sdp":"sdp_example"}}"#;
    let _v: Peer = decode_peer(data).unwrap();
}

#[test]
fn encode_single_peer_exact() {
    let session = vec![peer("myid", "type1", "sdp_example")];
    let encoded = encode_session(&session);
    assert_eq!(
        encoded,
        r#"[{"peer_id":"myid","offer":{"type":"type1","sdp":"sdp_example"}}]"#
    );
}

#[test]
fn encode_empty_session_exact() {
    let session: Vec<Peer> = Vec::new();
    assert_eq!(encode_session(&session), "[]");
}

#[test]
fn round_trip_preserves_order_and_fields() {
    let session = vec![
        peer("alice", "offer", "v=0 a"),
        peer("bob", "answer", "v=0 b"),
        peer("carol", "offer", "v=0 c"),
    ];
    let encoded = encode_session(&session);
    let decoded = decode_session(&encoded).unwrap();
    assert_eq!(decoded.len(), 3);
    let ids = ["alice", "bob", "carol"];
    let tys = ["offer", "answer", "offer"];
    let sdps = ["v=0 a", "v=0 b", "v=0 c"];
    for k in 0..3 {
        assert_eq!(decoded[k].peer_id().as_str(), ids[k]);
        assert_eq!(decoded[k].offer().offer_type().as_str(), tys[k]);
        assert_eq!(decoded[k].offer().sdp().as_str(), sdps[k]);
    }
}

#[test]
fn round_trip_escapes_quotes_and_backslashes() {
    let session = vec![peer("a\"b\\c", "ty\"pe", "sdp with \\ and \" inside")];
    let encoded = encode_session(&session);
    let decoded = decode_session(&encoded).unwrap();
    assert_eq!(decoded.len(), 1);
    assert_eq!(decoded[0].peer_id().as_str(), "a\"b\\c");
    assert_eq!(decoded[0].offer().offer_type().as_str(), "ty\"pe");
    assert_eq!(decoded[0].offer().sdp().as_str(), "sdp with \\ and \" inside");
}

#[test]
fn round_trip_empty_session() {
    let session: Vec<Peer> = Vec::new();
    let decoded = decode_session(&encode_session(&session)).unwrap();
    assert!(decoded.is_empty());
}

#[test]
fn decode_corrupted_values_fail_with_decode_error() {
    let bad = [
        "",
        "[",
        "]",
        "{}",
        "not json at all",
        "[{\"peer_id\":\"x\"}]",
        r#"[{"peer_id":"myid","offer":{"type":"t","sdp":"s"}}"#,
        r#"[{"peer_id":"myid","offer":{"type":"t","sdp":"s"}},]"#,
        r#"[{"peer_id":"myid","offer":{"type":"t","sdp":"s"}}]extra"#,
        r#"[{"peer_id":"myid","offer":{"type":"t","sdp":"s"#,
        r#"[{"peer_id":"a\qb","offer":{"type":"t","sdp":"s"}}]"#,
        r#"[ {"peer_id":"myid","offer":{"type":"t","sdp":"s"}}]"#,
    ];
    for input in bad.iter() {
        assert!(matches!(
            decode_session(input),
            Err(SessionError::DecodeError)
        ));
    }
}

#[test]
fn decode_peer_rejects_trailing_text() {
    let data = r#"{"peer_id":"myid","offer":{"type":"t","sdp":"s"}}x"#;
    assert!(matches!(decode_peer(data), Err(SessionError::DecodeError)));
}
