use torrent_codec::tracker::{
    encode_peers,
    decode_response, encode_request, TrackerError, TrackerRequest, TrackerSchemaError,
};

#[test]
fn encode_request_builds_the_query_string() {
    let req = TrackerRequest {
        info_hash: [0xAB; 20],
        peer_id: b"-TC0001-123456789012".to_vec(),
        port: 6881,
        uploaded: 0,
        downloaded: 0,
        left: 1000,
        compact: 1,
    };
    let q = encode_request(&req);
    let mut expected = Vec::new();
    expected.extend_from_slice(b"info_hash=");
    for _ in 0..20 {
        expected.extend_from_slice(b"%AB");
    }
    expected.extend_from_slice(
        b"&peer_id=-TC0001-123456789012&port=6881&uploaded=0&downloaded=0&left=1000&compact=1",
    );
    assert_eq!(q, expected);
}

#[test]
fn encode_request_escapes_reserved_bytes() {
    // A peer id with bytes outside the unreserved set: each becomes
    // a percent escape with uppercase hex digits.
    let req = TrackerRequest {
        info_hash: [0x00; 20],
        peer_id: vec![b' ', b'/', 0xFF, b'a'],
        port: 1,
        uploaded: 2,
        downloaded: 3,
        left: 4,
        compact: 0,
    };
    let q = encode_request(&req);
    let s = String::from_utf8(q).unwrap();
    assert!(s.starts_with("info_hash=%00%00"));
    assert!(s.contains("&peer_id=%20%2F%FFa&"));
    assert!(s.ends_with("&port=1&uploaded=2&downloaded=3&left=4&compact=0"));
}

#[test]
fn decode_response_reads_interval_and_peers() {
    let mut body = Vec::new();
    body.extend_from_slice(b"d8:intervali1800e5:peers12:");
    body.extend_from_slice(&[10, 0, 0, 1, 0x1F, 0x90, 192, 168, 1, 2, 0x00, 0x50]);
    body.extend_from_slice(b"e");
    let r = decode_response(&body).unwrap();
    assert_eq!(r.interval, 1800);
    assert_eq!(r.peers.0.len(), 2);
    assert_eq!(r.peers.0[0].ip, [10, 0, 0, 1]);
    assert_eq!(r.peers.0[0].port, 8080);
    assert_eq!(r.peers.0[1].ip, [192, 168, 1, 2]);
    assert_eq!(r.peers.0[1].port, 80);
}

#[test]
fn decode_response_empty_peer_list() {
    let r = decode_response(b"d8:intervali900e5:peers0:e").unwrap();
    assert_eq!(r.interval, 900);
    assert_eq!(r.peers.0.len(), 0);
}

#[test]
fn decode_response_peers_not_a_multiple_of_six() {
    let mut body = Vec::new();
    body.extend_from_slice(b"d8:intervali900e5:peers7:");
    body.extend_from_slice(&[1, 2, 3, 4, 5, 6, 7]);
    body.extend_from_slice(b"e");
    match decode_response(&body).unwrap_err() {
        TrackerError::Length(e) => {
            assert_eq!(e.len, 7);
            assert_eq!(e.chunk, 6);
        }
        other => panic!("expected a length error, got {:?}", other),
    }
}

#[test]
fn decode_response_missing_interval() {
    assert_eq!(
        decode_response(b"d5:peers0:e").unwrap_err(),
        TrackerError::Schema(TrackerSchemaError::Interval)
    );
}

#[test]
fn decode_response_missing_peers() {
    assert_eq!(
        decode_response(b"d8:intervali900ee").unwrap_err(),
        TrackerError::Schema(TrackerSchemaError::Peers)
    );
}

#[test]
fn decode_response_not_a_dictionary() {
    assert_eq!(
        decode_response(b"le").unwrap_err(),
        TrackerError::Schema(TrackerSchemaError::NotADict)
    );
}

#[test]
fn decode_response_malformed_bencode() {
    assert!(matches!(
        decode_response(b"d8:interval").unwrap_err(),
        TrackerError::Decode(_)
    ));
}

#[test]
fn peers_round_trip_to_the_record_string() {
    let records = [10, 0, 0, 1, 0x1F, 0x90, 192, 168, 1, 2, 0x00, 0x50];
    let mut body = Vec::new();
    body.extend_from_slice(b"d8:intervali1800e5:peers12:");
    body.extend_from_slice(&records);
    body.extend_from_slice(b"e");
    let r = decode_response(&body).unwrap();
    assert_eq!(encode_peers(&r.peers), records);
}
