use bittorrent_core::bencode::DecodeError;
use bittorrent_core::metainfo::{parse_torrent, Field, MetainfoError, TorrentInfo};

const PEER_ID: &str = "ALDPHEAIBNLMLDBTDXIR";

fn parse(bytes: &[u8]) -> Result<TorrentInfo, MetainfoError> {
    parse_torrent(&bytes.to_vec(), PEER_ID.to_string(), 80)
}

fn descriptor() -> Vec<u8> {
    b"d8:announce27:http://example.com/announce4:infod6:lengthi20e4:name4:test12:piece lengthi16384e6:pieces20:AAAAAAAAAAAAAAAAAAAAee".to_vec()
}

#[test]
fn gets_torrent_from_file() {
    // the descriptor bytes stand in for the file's contents
    parse(&descriptor()).unwrap();
    let result: i32 = 2 + 2;
    assert_eq!(result, 4);
}

#[test]
fn parses_descriptor_fields() {
    let t = parse(&descriptor()).unwrap();
    assert_eq!(t.announce, "http://example.com/announce");
    assert_eq!(t.name, "test");
    assert_eq!(t.piece_length, 16384);
    assert_eq!(t.length, 20);
    assert_eq!(t.pieces.len(), 1);
    assert_eq!(t.pieces[0].as_slice(), b"AAAAAAAAAAAAAAAAAAAA");
    assert_eq!(t.tracker_info.peer_id, PEER_ID);
    assert_eq!(t.tracker_info.port, 80);
    assert_eq!(t.tracker_info.uploaded, 0);
    assert_eq!(t.tracker_info.downloaded, 0);
    assert_eq!(t.tracker_info.left, 20);
}

#[test]
fn content_hash_matches_reference_digest() {
    // digest of the info dictionary bytes, computed by an independent tool
    let t = parse(&descriptor()).unwrap();
    assert_eq!(hex::encode(&t.info_hash), "6b0e5d6192909f0209e6b47a71759199d2842650");
}

#[test]
fn content_hash_ignores_bytes_outside_the_info_span() {
    let with_comment = b"d8:announce27:http://example.com/announce7:comment4:blah4:infod6:lengthi20e4:name4:test12:piece lengthi16384e6:pieces20:AAAAAAAAAAAAAAAAAAAAee".to_vec();
    let t1 = parse(&descriptor()).unwrap();
    let t2 = parse(&with_comment).unwrap();
    assert_eq!(t1.info_hash, t2.info_hash);
}

#[test]
fn content_hash_tracks_bytes_inside_the_info_span() {
    let other_name = b"d8:announce27:http://example.com/announce4:infod6:lengthi20e4:name4:tes212:piece lengthi16384e6:pieces20:AAAAAAAAAAAAAAAAAAAAee".to_vec();
    let t = parse(&other_name).unwrap();
    assert_eq!(hex::encode(&t.info_hash), "8f3d40b6cdf94c9e0dde47c09b5c576c2bc0dce8");
    let base = parse(&descriptor()).unwrap();
    assert_ne!(base.info_hash, t.info_hash);
}

#[test]
fn splits_pieces_in_order() {
    let two = b"d8:announce27:http://example.com/announce4:infod6:lengthi20e4:name4:test12:piece lengthi16384e6:pieces40:AAAAAAAAAAAAAAAAAAAABBBBBBBBBBBBBBBBBBBBee".to_vec();
    let t = parse(&two).unwrap();
    assert_eq!(t.pieces.len() * 20, 40);
    assert_eq!(t.pieces[0].as_slice(), b"AAAAAAAAAAAAAAAAAAAA");
    assert_eq!(t.pieces[1].as_slice(), b"BBBBBBBBBBBBBBBBBBBB");
}

#[test]
fn rejects_pieces_of_41_bytes() {
    let bad = b"d8:announce27:http://example.com/announce4:infod6:lengthi20e4:name4:test12:piece lengthi16384e6:pieces41:AAAAAAAAAAAAAAAAAAAAAAAAAAAAAAAAAAAAAAAAAee".to_vec();
    assert_eq!(parse(&bad).unwrap_err(), MetainfoError::MalformedPieces);
}

#[test]
fn reports_missing_fields() {
    let no_name = b"d8:announce27:http://example.com/announce4:infod6:lengthi20e12:piece lengthi16384e6:pieces20:AAAAAAAAAAAAAAAAAAAAee".to_vec();
    assert_eq!(parse(&no_name).unwrap_err(), MetainfoError::MissingField(Field::Name));
    let no_announce = b"d4:infod6:lengthi20e4:name4:test12:piece lengthi16384e6:pieces20:AAAAAAAAAAAAAAAAAAAAee".to_vec();
    assert_eq!(parse(&no_announce).unwrap_err(), MetainfoError::MissingField(Field::Announce));
    let no_info = b"d8:announce27:http://example.com/announcee".to_vec();
    assert_eq!(parse(&no_info).unwrap_err(), MetainfoError::MissingField(Field::Info));
}

#[test]
fn reports_mistyped_fields() {
    let int_announce = b"d8:announcei3e4:infod6:lengthi20e4:name4:test12:piece lengthi16384e6:pieces20:AAAAAAAAAAAAAAAAAAAAee".to_vec();
    assert_eq!(parse(&int_announce).unwrap_err(), MetainfoError::TypeMismatch(Field::Announce));
    let zero_piece_length = b"d8:announce27:http://example.com/announce4:infod6:lengthi20e4:name4:test12:piece lengthi0e6:pieces20:AAAAAAAAAAAAAAAAAAAAee".to_vec();
    assert_eq!(parse(&zero_piece_length).unwrap_err(), MetainfoError::TypeMismatch(Field::PieceLength));
    let negative_length = b"d8:announce27:http://example.com/announce4:infod6:lengthi-1e4:name4:test12:piece lengthi16384e6:pieces20:AAAAAAAAAAAAAAAAAAAAee".to_vec();
    assert_eq!(parse(&negative_length).unwrap_err(), MetainfoError::TypeMismatch(Field::Length));
}

#[test]
fn rejects_noncanonical_integers_inside_the_descriptor() {
    let leading_zero = b"d8:announce27:http://example.com/announce4:infod6:lengthi03e4:name4:test12:piece lengthi16384e6:pieces20:AAAAAAAAAAAAAAAAAAAAee".to_vec();
    assert_eq!(parse(&leading_zero).unwrap_err(), MetainfoError::Decode(DecodeError::BadInteger));
    let minus_zero = b"d8:announce27:http://example.com/announce4:infod6:lengthi-0e4:name4:test12:piece lengthi16384e6:pieces20:AAAAAAAAAAAAAAAAAAAAee".to_vec();
    assert_eq!(parse(&minus_zero).unwrap_err(), MetainfoError::Decode(DecodeError::BadInteger));
}

#[test]
fn rejects_unsorted_info_keys() {
    // "name" before "length" is not byte-lexicographically ascending
    let unsorted = b"d8:announce27:http://example.com/announce4:infod4:name4:test6:lengthi20e12:piece lengthi16384e6:pieces20:AAAAAAAAAAAAAAAAAAAAee".to_vec();
    assert_eq!(parse(&unsorted).unwrap_err(), MetainfoError::Decode(DecodeError::UnsortedKeys));
}

#[test]
fn rejects_unparseable_announce_url() {
    let bad_url = b"d8:announce7:notaurl4:infod6:lengthi20e4:name4:test12:piece lengthi16384e6:pieces20:AAAAAAAAAAAAAAAAAAAAee".to_vec();
    assert_eq!(parse(&bad_url).unwrap_err(), MetainfoError::UrlError);
}

#[test]
fn rejects_non_dictionary_and_bad_encodings() {
    assert_eq!(parse(b"i3e").unwrap_err(), MetainfoError::NotADictionary);
    assert!(matches!(parse(b"xx"), Err(MetainfoError::Decode(_))));
}

#[test]
fn decodes_name_as_text() {
    let accented = b"d8:announce27:http://example.com/announce4:infod6:lengthi20e4:name5:caf\xc3\xa912:piece lengthi16384e6:pieces20:AAAAAAAAAAAAAAAAAAAAee".to_vec();
    let t = parse(&accented).unwrap();
    assert_eq!(t.name, "caf\u{e9}");
}
