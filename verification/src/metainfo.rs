//! Interpreting a decoded top-level value as a torrent descriptor:
//! announce URL, content-description fields, and the byte span of the
//! content-description sub-structure that the content identifier is
//! computed from.

use vstd::prelude::*;

use crate::bencode;
use crate::bencode::{
    dict_get, encoded, equiv, get_bytes, get_int, lemma_dict_get_equiv, lemma_dict_get_member,
    lemma_encoded_injective, lemma_get_bytes_equiv, lemma_get_int_equiv, lookup, spans_ok, wf,
    DecodeError, Kind, Value,
};
use crate::hashing;
use crate::hashing::sha1_of;
use crate::text::string_from_utf8;
use crate::urls::{parse_absolute_url, url_normal_form};

verus! {

/// Session counters reported to the tracker.  The core only reads them;
/// they are updated by an external transfer collaborator.
#[derive(Debug)]
pub struct TrackerInfo {
    pub peer_id: String,
    pub port: u16,
    pub uploaded: u64,
    pub downloaded: u64,
    pub left: u64,
}

/// A decoded torrent descriptor.  `info_hash` is the 20-byte content
/// identifier, computed once from the exact original bytes of the
/// content-description dictionary.
#[derive(Debug)]
pub struct TorrentInfo {
    pub announce: String,
    pub info_hash: Vec<u8>,
    pub name: String,
    pub pieces: Vec<Vec<u8>>,
    pub piece_length: u64,
    pub length: u64,
    pub tracker_info: TrackerInfo,
}

impl TorrentInfo {
    /// Well-formedness: the announce text parses as a URL, the content
    /// identifier is 20 bytes, every piece identifier is 20 bytes, and the
    /// piece length is positive.
    pub open spec fn wf(self) -> bool {
        &&& url_normal_form(self.announce@) is Some
        &&& self.info_hash@.len() == 20
        &&& forall|i: int| 0 <= i < self.pieces@.len() ==> (#[trigger] self.pieces@[i])@.len() == 20
        &&& self.piece_length >= 1
    }
}

/// Which required descriptor field an error is about.
#[derive(Clone, Copy, Debug, PartialEq, Eq, Structural)]
pub enum Field {
    Announce,
    Info,
    Name,
    PieceLength,
    Length,
    Pieces,
}

/// Why a byte buffer was rejected as a torrent descriptor.
#[derive(Clone, Copy, Debug, PartialEq, Eq, Structural)]
pub enum MetainfoError {
    /// The buffer is not a canonical encoding.
    Decode(DecodeError),
    /// The top-level value is not a dictionary.
    NotADictionary,
    /// A required field is absent.
    MissingField(Field),
    /// A required field has the wrong type, is not valid text where text
    /// is required, or is out of its allowed range.
    TypeMismatch(Field),
    /// The announce field does not parse as a URL.
    UrlError,
    /// The pieces byte string is not a multiple of 20 bytes.
    MalformedPieces,
}

/// The dictionary key for the announce URL.
pub open spec fn key_announce() -> Seq<u8> {
    vstd::utf8::encode_utf8("announce"@)
}

/// The dictionary key for the content-description dictionary.
pub open spec fn key_info() -> Seq<u8> {
    vstd::utf8::encode_utf8("info"@)
}

/// The content-description key for the name.
pub open spec fn key_name() -> Seq<u8> {
    vstd::utf8::encode_utf8("name"@)
}

/// The content-description key for the piece length.
pub open spec fn key_piece_length() -> Seq<u8> {
    vstd::utf8::encode_utf8("piece length"@)
}

/// The content-description key for the total length.
pub open spec fn key_length() -> Seq<u8> {
    vstd::utf8::encode_utf8("length"@)
}

/// The content-description key for the piece identifiers.
pub open spec fn key_pieces() -> Seq<u8> {
    vstd::utf8::encode_utf8("pieces"@)
}

/// When a decoded top-level value yields a descriptor: it is a dictionary
/// whose `announce` is a byte string holding UTF-8 text that parses as a
/// URL, and whose `info` is a dictionary with a UTF-8 `name`, a positive
/// `piece length`, a non-negative `length`, and `pieces` a byte string of
/// whole 20-byte identifiers.
pub open spec fn extract_ok(top: Value) -> bool {
    match top.kind {
        Kind::Dictionary(es) => {
            &&& get_bytes(es@, key_announce()) matches Some(ab)
            &&& vstd::utf8::valid_utf8(ab)
            &&& url_normal_form(vstd::utf8::decode_utf8(ab)) is Some
            &&& dict_get(es@, key_info()) matches Some(iv)
            &&& iv.kind matches Kind::Dictionary(ies)
            &&& get_bytes(ies@, key_name()) matches Some(nb)
            &&& vstd::utf8::valid_utf8(nb)
            &&& get_int(ies@, key_piece_length()) matches Some(pl)
            &&& pl >= 1
            &&& get_int(ies@, key_length()) matches Some(ln)
            &&& ln >= 0
            &&& get_bytes(ies@, key_pieces()) matches Some(pb)
            &&& pb.len() % 20 == 0
        },
        _ => false,
    }
}

/// How a returned descriptor relates to the decoded top-level value it was
/// extracted from.  The content identifier is the digest of `encoded(iv)`
/// for the `info` value `iv` — by `spans_ok` these are exactly the
/// original bytes of that sub-structure in the input buffer.
pub open spec fn extracted(top: Value, t: TorrentInfo) -> bool {
    match top.kind {
        Kind::Dictionary(es) => {
            &&& get_bytes(es@, key_announce()) matches Some(ab)
            &&& t.announce@ == vstd::utf8::decode_utf8(ab)
            &&& dict_get(es@, key_info()) matches Some(iv)
            &&& t.info_hash@ == sha1_of(encoded(iv))
            &&& iv.kind matches Kind::Dictionary(ies)
            &&& get_bytes(ies@, key_name()) matches Some(nb)
            &&& t.name@ == vstd::utf8::decode_utf8(nb)
            &&& get_int(ies@, key_piece_length()) == Some(t.piece_length as int)
            &&& get_int(ies@, key_length()) == Some(t.length as int)
            &&& get_bytes(ies@, key_pieces()) matches Some(pb)
            &&& t.pieces@.len() * 20 == pb.len()
            &&& forall|i: int|
                0 <= i < t.pieces@.len() ==> (#[trigger] t.pieces@[i])@ == pb.subrange(
                    20 * i,
                    20 * i + 20,
                )
        },
        _ => false,
    }
}

/// The error the announce field earns, checked first: missing, not a byte
/// string, not UTF-8 text, or not a parseable URL.
pub open spec fn announce_check(es: Seq<(Vec<u8>, Value)>) -> Option<MetainfoError> {
    match dict_get(es, key_announce()) {
        None => Some(MetainfoError::MissingField(Field::Announce)),
        Some(av) => match av.kind {
            Kind::ByteString(ab) => if !vstd::utf8::valid_utf8(ab@) {
                Some(MetainfoError::TypeMismatch(Field::Announce))
            } else if url_normal_form(vstd::utf8::decode_utf8(ab@)) is None {
                Some(MetainfoError::UrlError)
            } else {
                None
            },
            _ => Some(MetainfoError::TypeMismatch(Field::Announce)),
        },
    }
}

/// The error the content-description fields earn, in the order they are
/// read: name, piece length, length, pieces.
pub open spec fn info_fields_check(ies: Seq<(Vec<u8>, Value)>) -> Option<MetainfoError> {
    match dict_get(ies, key_name()) {
        None => Some(MetainfoError::MissingField(Field::Name)),
        Some(nv) => match nv.kind {
            Kind::ByteString(nb) => if !vstd::utf8::valid_utf8(nb@) {
                Some(MetainfoError::TypeMismatch(Field::Name))
            } else {
                match dict_get(ies, key_piece_length()) {
                    None => Some(MetainfoError::MissingField(Field::PieceLength)),
                    Some(plv) => match plv.kind {
                        Kind::Integer(pl) => if pl < 1 {
                            Some(MetainfoError::TypeMismatch(Field::PieceLength))
                        } else {
                            match dict_get(ies, key_length()) {
                                None => Some(MetainfoError::MissingField(Field::Length)),
                                Some(lv) => match lv.kind {
                                    Kind::Integer(ln) => if ln < 0 {
                                        Some(MetainfoError::TypeMismatch(Field::Length))
                                    } else {
                                        match dict_get(ies, key_pieces()) {
                                            None => Some(
                                                MetainfoError::MissingField(Field::Pieces),
                                            ),
                                            Some(pv) => match pv.kind {
                                                Kind::ByteString(pb) => if pb@.len() % 20 != 0 {
                                                    Some(MetainfoError::MalformedPieces)
                                                } else {
                                                    None
                                                },
                                                _ => Some(
                                                    MetainfoError::TypeMismatch(Field::Pieces),
                                                ),
                                            },
                                        }
                                    },
                                    _ => Some(MetainfoError::TypeMismatch(Field::Length)),
                                },
                            }
                        },
                        _ => Some(MetainfoError::TypeMismatch(Field::PieceLength)),
                    },
                }
            },
            _ => Some(MetainfoError::TypeMismatch(Field::Name)),
        },
    }
}

/// The typed error a decoded top-level value earns, or `None` where it
/// yields a descriptor: the checks run in the order the fields are read,
/// and each error names the field it is about.
pub open spec fn extract_err_of(top: Value) -> Option<MetainfoError> {
    match top.kind {
        Kind::Dictionary(es) => match announce_check(es@) {
            Some(e) => Some(e),
            None => match dict_get(es@, key_info()) {
                None => Some(MetainfoError::MissingField(Field::Info)),
                Some(iv) => match iv.kind {
                    Kind::Dictionary(ies) => info_fields_check(ies@),
                    _ => Some(MetainfoError::TypeMismatch(Field::Info)),
                },
            },
        },
        _ => Some(MetainfoError::NotADictionary),
    }
}

/// How the session part of a fresh descriptor is initialised.
pub open spec fn session_init(t: TorrentInfo, peer_id: String, port: u16) -> bool {
    &&& t.tracker_info.peer_id == peer_id
    &&& t.tracker_info.port == port
    &&& t.tracker_info.uploaded == 0
    &&& t.tracker_info.downloaded == 0
    &&& t.tracker_info.left == t.length
}

/// Whether extraction succeeds depends only on the structure of the
/// decoded value, never on its spans.
proof fn lemma_extract_ok_equiv(a: Value, b: Value)
    requires
        equiv(a, b),
    ensures
        extract_ok(a) <==> extract_ok(b),
{
    match a.kind {
        Kind::Dictionary(es) => {
            assert(b.kind is Dictionary);
            let fs = b.kind->Dictionary_0;
            lemma_get_bytes_equiv(es@, fs@, key_announce());
            lemma_dict_get_equiv(es@, fs@, key_info());
            if dict_get(es@, key_info()) is Some {
                let iv = dict_get(es@, key_info())->Some_0;
                let iv2 = dict_get(fs@, key_info())->Some_0;
                assert(equiv(iv, iv2));
                match iv.kind {
                    Kind::Dictionary(ies) => {
                        assert(iv2.kind is Dictionary);
                        let ies2 = iv2.kind->Dictionary_0;
                        lemma_get_bytes_equiv(ies@, ies2@, key_name());
                        lemma_get_int_equiv(ies@, ies2@, key_piece_length());
                        lemma_get_int_equiv(ies@, ies2@, key_length());
                        lemma_get_bytes_equiv(ies@, ies2@, key_pieces());
                    },
                    Kind::Integer(_) => {
                        assert(iv2.kind is Integer);
                    },
                    Kind::ByteString(_) => {
                        assert(iv2.kind is ByteString);
                    },
                    Kind::List(_) => {
                        assert(iv2.kind is List);
                    },
                }
            }
        },
        Kind::Integer(_) => {
            assert(b.kind is Integer);
        },
        Kind::ByteString(_) => {
            assert(b.kind is ByteString);
        },
        Kind::List(_) => {
            assert(b.kind is List);
        },
    }
}

/// Extracts a descriptor from an already decoded top-level value whose
/// spans index `bytes`.  Succeeds exactly where `extract_ok` holds.
pub fn extract_torrent(bytes: &Vec<u8>, top: &Value, peer_id: String, port: u16) -> (r: Result<
    TorrentInfo,
    MetainfoError,
>)
    requires
        wf(*top),
        spans_ok(*top, bytes@),
    ensures
        r is Ok <==> extract_ok(*top),
        r matches Ok(t) ==> extracted(*top, t) && t.wf() && session_init(t, peer_id, port),
        r matches Err(e) ==> extract_err_of(*top) == Some(e) && !(e is Decode),
{
    let es = match &top.kind {
        Kind::Dictionary(es) => es,
        _ => {
            return Err(MetainfoError::NotADictionary);
        },
    };
    // announce: a byte string holding the URL of the tracker
    let ab = match lookup(es, "announce".as_bytes()) {
        Some(av) => match &av.kind {
            Kind::ByteString(ab) => ab,
            _ => {
                return Err(MetainfoError::TypeMismatch(Field::Announce));
            },
        },
        None => {
            return Err(MetainfoError::MissingField(Field::Announce));
        },
    };
    let announce = match string_from_utf8(ab) {
        Some(s) => s,
        None => {
            return Err(MetainfoError::TypeMismatch(Field::Announce));
        },
    };
    match parse_absolute_url(announce.as_str()) {
        Some(_) => (),
        None => {
            return Err(MetainfoError::UrlError);
        },
    };
    // info: the content-description dictionary, hashed over its own bytes
    let iv = match lookup(es, "info".as_bytes()) {
        Some(iv) => iv,
        None => {
            return Err(MetainfoError::MissingField(Field::Info));
        },
    };
    let ies = match &iv.kind {
        Kind::Dictionary(ies) => ies,
        _ => {
            return Err(MetainfoError::TypeMismatch(Field::Info));
        },
    };
    proof {
        assert(dict_get(es@, key_info()) == Some(*iv));
        lemma_dict_get_member(es@, key_info());
        let i = choose|i: int|
            0 <= i < es@.len() && (#[trigger] es@[i]).1 == dict_get(es@, key_info())->Some_0;
        assert(spans_ok(es@[i].1, bytes@));
        assert(spans_ok(*iv, bytes@));
    }
    let info_hash = hashing::compute(bytes, iv.start, iv.end);
    assert(info_hash@ == sha1_of(encoded(*iv)));
    // name
    let nb = match lookup(ies, "name".as_bytes()) {
        Some(nv) => match &nv.kind {
            Kind::ByteString(nb) => nb,
            _ => {
                return Err(MetainfoError::TypeMismatch(Field::Name));
            },
        },
        None => {
            return Err(MetainfoError::MissingField(Field::Name));
        },
    };
    let name = match string_from_utf8(nb) {
        Some(s) => s,
        None => {
            return Err(MetainfoError::TypeMismatch(Field::Name));
        },
    };
    // piece length: positive
    let piece_length: u64 = match lookup(ies, "piece length".as_bytes()) {
        Some(plv) => match &plv.kind {
            Kind::Integer(pl) => {
                if *pl < 1 {
                    return Err(MetainfoError::TypeMismatch(Field::PieceLength));
                }
                *pl as u64
            },
            _ => {
                return Err(MetainfoError::TypeMismatch(Field::PieceLength));
            },
        },
        None => {
            return Err(MetainfoError::MissingField(Field::PieceLength));
        },
    };
    // length: non-negative
    let length: u64 = match lookup(ies, "length".as_bytes()) {
        Some(lv) => match &lv.kind {
            Kind::Integer(ln) => {
                if *ln < 0 {
                    return Err(MetainfoError::TypeMismatch(Field::Length));
                }
                *ln as u64
            },
            _ => {
                return Err(MetainfoError::TypeMismatch(Field::Length));
            },
        },
        None => {
            return Err(MetainfoError::MissingField(Field::Length));
        },
    };
    // pieces: whole 20-byte identifiers, in original order
    let pb = match lookup(ies, "pieces".as_bytes()) {
        Some(pv) => match &pv.kind {
            Kind::ByteString(pb) => pb,
            _ => {
                return Err(MetainfoError::TypeMismatch(Field::Pieces));
            },
        },
        None => {
            return Err(MetainfoError::MissingField(Field::Pieces));
        },
    };
    if pb.len() % 20 != 0 {
        return Err(MetainfoError::MalformedPieces);
    }
    let np: usize = pb.len() / 20;
    let pblen: usize = pb.len();
    proof {
        vstd::arithmetic::div_mod::lemma_fundamental_div_mod(pb@.len() as int, 20);
        assert(np * 20 == pblen);
    }
    let mut pieces: Vec<Vec<u8>> = Vec::new();
    let mut c: usize = 0;
    while c < np
        invariant
            0 <= c <= np,
            np * 20 == pblen,
            pblen == pb@.len(),
            pieces@.len() == c,
            forall|i: int|
                0 <= i < c ==> (#[trigger] pieces@[i])@ == pb@.subrange(20 * i, 20 * i + 20),
        decreases np - c,
    {
        assert(c * 20 + 20 <= pblen) by (nonlinear_arith)
            requires
                c < np,
                np * 20 == pblen,
        ;
        let base: usize = c * 20;
        let mut piece: Vec<u8> = Vec::new();
        let mut k: usize = 0;
        assert(piece@ =~= pb@.subrange(base as int, base as int));
        while k < 20
            invariant
                0 <= k <= 20,
                base + 20 <= pblen,
                pblen == pb@.len(),
                piece@ == pb@.subrange(base as int, base + k as int),
            decreases 20 - k,
        {
            piece.push(pb[base + k]);
            assert(piece@ =~= pb@.subrange(base as int, base + (k + 1) as int));
            k = k + 1;
        }
        pieces.push(piece);
        c = c + 1;
    }
    Ok(
        TorrentInfo {
            announce,
            info_hash,
            name,
            pieces,
            piece_length,
            length,
            tracker_info: TrackerInfo { peer_id, port, uploaded: 0, downloaded: 0, left: length },
        },
    )
}

/// Decodes a torrent descriptor file and extracts its typed fields; the
/// peer identifier and listening port are passed in as configuration.  On
/// success there is a decoded top-level value, spanning the whole buffer,
/// from which every field of the result including the content identifier
/// is read as `extracted` states.
pub fn parse_torrent(bytes: &Vec<u8>, peer_id: String, port: u16) -> (r: Result<
    TorrentInfo,
    MetainfoError,
>)
    ensures
        r matches Ok(t) ==> {
            &&& t.wf()
            &&& session_init(t, peer_id, port)
            &&& exists|top: Value|
                {
                    &&& wf(top)
                    &&& spans_ok(top, bytes@)
                    &&& encoded(top) == bytes@
                    &&& extract_ok(top)
                    &&& #[trigger] extracted(top, t)
                }
        },
        r is Err ==> forall|top: Value|
            wf(top) && encoded(top) == bytes@ ==> !(#[trigger] extract_ok(top)),
        r matches Err(e) ==> match e {
            MetainfoError::Decode(_) => forall|v: Value| wf(v) ==> #[trigger] encoded(v) != bytes@,
            _ => exists|top: Value|
                {
                    &&& wf(top)
                    &&& spans_ok(top, bytes@)
                    &&& encoded(top) == bytes@
                    &&& #[trigger] extract_err_of(top) == Some(e)
                },
        },
{
    let top = match bencode::decode(bytes) {
        Ok(v) => v,
        Err(e) => {
            return Err(MetainfoError::Decode(e));
        },
    };
    let r = extract_torrent(bytes, &top, peer_id, port);
    proof {
        if r is Err {
            assert forall|t2: Value| wf(t2) && encoded(t2) == bytes@ implies !(
            #[trigger] extract_ok(t2)) by {
                lemma_encoded_injective(top, t2);
                lemma_extract_ok_equiv(top, t2);
            }
        }
    }
    r
}

} // verus!
