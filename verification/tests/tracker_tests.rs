use bittorrent_core::metainfo::parse_torrent;
use bittorrent_core::tracker::{
    parse_response, percent_encode_bytes, try_build_tracker_url, TrackerError, TrackerEvent,
};

const PEER_ID: &str = "ALDPHEAIBNLMLDBTDXIR";

fn descriptor() -> Vec<u8> {
    b"d8:announce27:http://example.com/announce4:infod6:lengthi20e4:name4:test12:piece lengthi16384e6:pieces20:AAAAAAAAAAAAAAAAAAAAee".to_vec()
}

#[test]
fn percent_encoding_literal() {
    let encoded = percent_encode_bytes(&vec![0x00, 0x41, 0x2D, 0xFF]);
    assert_eq!(encoded, "%00A-%FF");
}

#[test]
fn percent_encoding_passes_unreserved_bytes() {
    let encoded = percent_encode_bytes(&b"aZ9-_~.".to_vec());
    assert_eq!(encoded, "aZ9-_~.");
    let escaped = percent_encode_bytes(&vec![b' ', b'/', b'%']);
    assert_eq!(escaped, "%20%2F%25");
}

#[test]
fn event_names() {
    assert_eq!(TrackerEvent::Started.as_str(), "started");
    assert_eq!(TrackerEvent::Stopped.as_str(), "stopped");
}

#[test]
fn builds_the_announce_request_target() {
    let t = parse_torrent(&descriptor(), PEER_ID.to_string(), 80).unwrap();
    let url = try_build_tracker_url(&t, &TrackerEvent::Started).unwrap();
    assert_eq!(
        url,
        "http://example.com/announce?peer_id=ALDPHEAIBNLMLDBTDXIR&uploaded=0&downloaded=0&event=started&compact=1&left=20&info_hash=k%0E%5Da%92%90%9F%02%09%E6%B4zqu%91%99%D2%84%26P"
    );
}

#[test]
fn build_request_is_pure() {
    let t = parse_torrent(&descriptor(), PEER_ID.to_string(), 80).unwrap();
    let first = try_build_tracker_url(&t, &TrackerEvent::Stopped).unwrap();
    let second = try_build_tracker_url(&t, &TrackerEvent::Stopped).unwrap();
    assert_eq!(first, second);
    assert!(first.contains("&event=stopped&"));
}

#[test]
fn form_encodes_the_peer_identifier() {
    let mut t = parse_torrent(&descriptor(), PEER_ID.to_string(), 80).unwrap();
    t.tracker_info.peer_id = "p id/+".to_string();
    let url = try_build_tracker_url(&t, &TrackerEvent::Started).unwrap();
    assert!(url.contains("peer_id=p+id%2F%2B&uploaded="));
}

#[test]
fn refuses_an_unparseable_announce() {
    let mut t = parse_torrent(&descriptor(), PEER_ID.to_string(), 80).unwrap();
    t.announce = "notaurl".to_string();
    assert!(try_build_tracker_url(&t, &TrackerEvent::Started).is_none());
}

#[test]
fn surfaces_a_failure_reason() {
    let r = parse_response(&b"d14:failure_reason5:oops!e".to_vec());
    match r {
        Err(TrackerError::TrackerFailure(m)) => assert_eq!(m, "oops!"),
        other => panic!("expected a tracker failure, got {:?}", other),
    }
}

#[test]
fn decodes_a_successful_response() {
    let r = parse_response(&b"d8:completei10e10:incompletei2e8:intervali1800ee".to_vec()).unwrap();
    assert_eq!(r.complete, Some(10));
    assert_eq!(r.incomplete, Some(2));
    assert_eq!(r.interval, Some(1800));
    assert_eq!(r.min_interval, None);
    assert_eq!(r.tracker_id, None);
    assert_eq!(r.warning_message, None);
}

#[test]
fn decodes_text_response_fields() {
    let r = parse_response(&b"d10:tracker_id3:tid15:warning_message4:slowe".to_vec()).unwrap();
    assert_eq!(r.tracker_id.as_deref(), Some("tid"));
    assert_eq!(r.warning_message.as_deref(), Some("slow"));
}

#[test]
fn rejects_mistyped_response_fields() {
    assert!(matches!(
        parse_response(&b"d8:interval3:abce".to_vec()),
        Err(TrackerError::TypeMismatch)
    ));
    assert!(matches!(
        parse_response(&b"d8:intervali-5ee".to_vec()),
        Err(TrackerError::TypeMismatch)
    ));
}

#[test]
fn rejects_malformed_response_bodies() {
    assert!(matches!(parse_response(&b"le".to_vec()), Err(TrackerError::NotADictionary)));
    assert!(matches!(parse_response(&b"".to_vec()), Err(TrackerError::Decode(_))));
}
