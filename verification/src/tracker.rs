//! Building the announce request target and decoding the tracker's
//! response.  The 20 raw bytes of the content identifier are
//! percent-encoded byte-wise and appended as their own `info_hash`
//! parameter after the form-encoded query, so they never pass through a
//! text-form encoder.

use vstd::prelude::*;

use crate::bencode;
use crate::bencode::{
    dict_get, encoded, equiv, get_bytes, lemma_dict_get_equiv, lemma_encoded_injective, lookup,
    spans_ok, wf, DecodeError, Kind, Value,
};
use crate::text::{push_char, string_from_utf8};
use crate::urls::{parse_absolute_url, url_normal_form, url_set_query, url_with_query_of};
use crate::metainfo::TorrentInfo;
use vstd::string::StrSliceExecFns;
use vstd::string::StringExecFns;

verus! {

/// The event reported to the tracker with an announce.
#[derive(Clone, Copy, Debug, PartialEq, Eq, Structural)]
pub enum TrackerEvent {
    Started,
    Stopped,
}

impl TrackerEvent {
    /// The protocol name of the event, lower case.
    pub open spec fn chars(self) -> Seq<char> {
        match self {
            TrackerEvent::Started => "started"@,
            TrackerEvent::Stopped => "stopped"@,
        }
    }

    /// The protocol name of the event, lower case.
    pub fn as_str(&self) -> (r: &'static str)
        ensures
            r@ == self.chars(),
    {
        match self {
            TrackerEvent::Started => "started",
            TrackerEvent::Stopped => "stopped",
        }
    }
}

/// The uppercase hexadecimal digit for `d` (0 to 15).
pub open spec fn hex_upper(d: int) -> char {
    if d < 10 {
        ((48 + d) as u8) as char
    } else {
        ((55 + d) as u8) as char
    }
}

/// Bytes that pass through the identifier percent-encoding unescaped:
/// ASCII alphanumerics and `-`, `_`, `~`, `.`.
pub open spec fn is_unreserved(b: u8) -> bool {
    ||| 48 <= b <= 57
    ||| 65 <= b <= 90
    ||| 97 <= b <= 122
    ||| b == 45
    ||| b == 95
    ||| b == 126
    ||| b == 46
}

/// One byte of the identifier encoding: itself where unreserved, else
/// `%XX` with uppercase hexadecimal.
pub open spec fn pct_byte(b: u8) -> Seq<char> {
    if is_unreserved(b) {
        seq![b as char]
    } else {
        seq!['%', hex_upper(b as int / 16), hex_upper(b as int % 16)]
    }
}

/// Byte-wise percent-encoding of a whole byte string.
pub open spec fn pct_encoded(bs: Seq<u8>) -> Seq<char>
    decreases bs.len(),
{
    if bs.len() == 0 {
        Seq::empty()
    } else {
        pct_byte(bs[0]) + pct_encoded(bs.drop_first())
    }
}

/// Bytes the form encoding leaves unchanged: ASCII alphanumerics and `*`,
/// `-`, `.`, `_`.
pub open spec fn is_form_safe(b: u8) -> bool {
    ||| 48 <= b <= 57
    ||| 65 <= b <= 90
    ||| 97 <= b <= 122
    ||| b == 42
    ||| b == 45
    ||| b == 46
    ||| b == 95
}

/// One byte of the text form encoding: itself where safe, `+` for a
/// space, else `%XX` with uppercase hexadecimal.
pub open spec fn form_byte(b: u8) -> Seq<char> {
    if is_form_safe(b) {
        seq![b as char]
    } else if b == 32 {
        seq!['+']
    } else {
        seq!['%', hex_upper(b as int / 16), hex_upper(b as int % 16)]
    }
}

/// Form encoding of a whole byte string.
pub open spec fn form_encoded(bs: Seq<u8>) -> Seq<char>
    decreases bs.len(),
{
    if bs.len() == 0 {
        Seq::empty()
    } else {
        form_byte(bs[0]) + form_encoded(bs.drop_first())
    }
}

/// Decimal digits of a non-negative integer, as text.
pub open spec fn digits_chars(n: nat) -> Seq<char>
    decreases n,
{
    if n < 10 {
        seq![((48 + n) as u8) as char]
    } else {
        digits_chars(n / 10) + seq![((48 + n % 10) as u8) as char]
    }
}

proof fn lemma_pct_snoc(bs: Seq<u8>, b: u8)
    ensures
        pct_encoded(bs.push(b)) == pct_encoded(bs) + pct_byte(b),
    decreases bs.len(),
{
    if bs.len() == 0 {
        assert(bs.push(b)[0] == b);
        assert(bs.push(b).drop_first() =~= Seq::<u8>::empty());
        assert(pct_encoded(Seq::<u8>::empty()) == Seq::<char>::empty());
        assert(pct_encoded(bs.push(b)) =~= pct_encoded(bs) + pct_byte(b));
    } else {
        assert(bs.push(b)[0] == bs[0]);
        assert(bs.push(b).drop_first() =~= bs.drop_first().push(b));
        lemma_pct_snoc(bs.drop_first(), b);
        assert(pct_encoded(bs.push(b)) =~= pct_encoded(bs) + pct_byte(b));
    }
}

proof fn lemma_form_snoc(bs: Seq<u8>, b: u8)
    ensures
        form_encoded(bs.push(b)) == form_encoded(bs) + form_byte(b),
    decreases bs.len(),
{
    if bs.len() == 0 {
        assert(bs.push(b)[0] == b);
        assert(bs.push(b).drop_first() =~= Seq::<u8>::empty());
        assert(form_encoded(Seq::<u8>::empty()) == Seq::<char>::empty());
        assert(form_encoded(bs.push(b)) =~= form_encoded(bs) + form_byte(b));
    } else {
        assert(bs.push(b)[0] == bs[0]);
        assert(bs.push(b).drop_first() =~= bs.drop_first().push(b));
        lemma_form_snoc(bs.drop_first(), b);
        assert(form_encoded(bs.push(b)) =~= form_encoded(bs) + form_byte(b));
    }
}

/// Appends one `%XX` escape, uppercase.
fn push_escaped(b: u8, s: &mut String)
    ensures
        final(s)@ == old(s)@ + seq!['%', hex_upper(b as int / 16), hex_upper(b as int % 16)],
{
    push_char(s, '%');
    let hi: u8 = b / 16;
    let lo: u8 = b % 16;
    let hc: u8 = if hi < 10 {
        48 + hi
    } else {
        55 + hi
    };
    let lc: u8 = if lo < 10 {
        48 + lo
    } else {
        55 + lo
    };
    push_char(s, hc as char);
    push_char(s, lc as char);
    assert(hc as char == hex_upper(b as int / 16));
    assert(lc as char == hex_upper(b as int % 16));
    assert(final(s)@ =~= old(s)@ + seq!['%', hex_upper(b as int / 16), hex_upper(b as int % 16)]);
}

/// Percent-encodes raw bytes byte-wise for use inside a URL query:
/// alphanumerics and `-`, `_`, `~`, `.` pass through, every other byte
/// becomes `%XX` uppercase.  Safe for arbitrary binary input.
pub fn percent_encode_bytes(bytes: &Vec<u8>) -> (r: String)
    ensures
        r@ == pct_encoded(bytes@),
{
    let mut s = String::new();
    let mut i: usize = 0;
    assert(bytes@.subrange(0, 0) =~= Seq::<u8>::empty());
    while i < bytes.len()
        invariant
            0 <= i <= bytes@.len(),
            s@ == pct_encoded(bytes@.subrange(0, i as int)),
        decreases bytes@.len() - i,
    {
        let b = bytes[i];
        if (48 <= b && b <= 57) || (65 <= b && b <= 90) || (97 <= b && b <= 122) || b == 45 || b
            == 95 || b == 126 || b == 46 {
            push_char(&mut s, b as char);
            assert(seq![b as char] == pct_byte(b));
        } else {
            push_escaped(b, &mut s);
            assert(seq!['%', hex_upper(b as int / 16), hex_upper(b as int % 16)] == pct_byte(b));
        }
        proof {
            lemma_pct_snoc(bytes@.subrange(0, i as int), bytes@[i as int]);
            assert(bytes@.subrange(0, i + 1 as int) =~= bytes@.subrange(0, i as int).push(
                bytes@[i as int],
            ));
        }
        i = i + 1;
    }
    assert(bytes@.subrange(0, bytes@.len() as int) =~= bytes@);
    s
}

/// Form-encodes text bytes: alphanumerics and `*`, `-`, `.`, `_` pass
/// through, a space becomes `+`, every other byte becomes `%XX` uppercase.
pub fn form_encode_bytes(bytes: &Vec<u8>) -> (r: String)
    ensures
        r@ == form_encoded(bytes@),
{
    let mut s = String::new();
    let mut i: usize = 0;
    assert(bytes@.subrange(0, 0) =~= Seq::<u8>::empty());
    while i < bytes.len()
        invariant
            0 <= i <= bytes@.len(),
            s@ == form_encoded(bytes@.subrange(0, i as int)),
        decreases bytes@.len() - i,
    {
        let b = bytes[i];
        if (48 <= b && b <= 57) || (65 <= b && b <= 90) || (97 <= b && b <= 122) || b == 42 || b
            == 45 || b == 46 || b == 95 {
            push_char(&mut s, b as char);
            assert(seq![b as char] == form_byte(b));
        } else if b == 32 {
            push_char(&mut s, '+');
            assert(seq!['+'] == form_byte(b));
        } else {
            push_escaped(b, &mut s);
            assert(seq!['%', hex_upper(b as int / 16), hex_upper(b as int % 16)] == form_byte(b));
        }
        proof {
            lemma_form_snoc(bytes@.subrange(0, i as int), bytes@[i as int]);
            assert(bytes@.subrange(0, i + 1 as int) =~= bytes@.subrange(0, i as int).push(
                bytes@[i as int],
            ));
        }
        i = i + 1;
    }
    assert(bytes@.subrange(0, bytes@.len() as int) =~= bytes@);
    s
}

/// Appends the decimal digits of `n`.
fn push_dec_chars(n: u64, s: &mut String)
    ensures
        final(s)@ == old(s)@ + digits_chars(n as nat),
    decreases n,
{
    if n < 10 {
        let c: u8 = 48 + (n as u8);
        push_char(s, c as char);
    } else {
        push_dec_chars(n / 10, s);
        let c: u8 = 48 + ((n % 10) as u8);
        push_char(s, c as char);
    }
}

/// The form-encoded query attached to the announce URL: session counters,
/// the event's lowercase name, and `compact=1`, in this fixed order.
pub open spec fn query_of(t: TorrentInfo, e: TrackerEvent) -> Seq<char> {
    "peer_id="@ + form_encoded(vstd::utf8::encode_utf8(t.tracker_info.peer_id@)) + "&uploaded="@
        + digits_chars(t.tracker_info.uploaded as nat) + "&downloaded="@ + digits_chars(
        t.tracker_info.downloaded as nat,
    ) + "&event="@ + e.chars() + "&compact=1"@ + "&left="@ + digits_chars(
        t.tracker_info.left as nat,
    )
}

/// The full announce request target: the announce URL carrying the
/// form-encoded query, then the percent-encoded 20 raw identifier bytes
/// appended as their own `info_hash` parameter, past the form encoder.
pub open spec fn request_target(t: TorrentInfo, e: TrackerEvent) -> Seq<char> {
    url_with_query_of(t.announce@, query_of(t, e)) + "&info_hash="@ + pct_encoded(t.info_hash@)
}

/// Builds the form-encoded query for one announce.
fn build_query(t: &TorrentInfo, e: &TrackerEvent) -> (q: String)
    ensures
        q@ == query_of(*t, *e),
{
    let mut q = String::new();
    q.append("peer_id=");
    let pid_bytes = t.tracker_info.peer_id.as_str().as_bytes_vec();
    let pid_enc = form_encode_bytes(&pid_bytes);
    q.append(pid_enc.as_str());
    q.append("&uploaded=");
    push_dec_chars(t.tracker_info.uploaded, &mut q);
    q.append("&downloaded=");
    push_dec_chars(t.tracker_info.downloaded, &mut q);
    q.append("&event=");
    q.append(e.as_str());
    q.append("&compact=1");
    q.append("&left=");
    push_dec_chars(t.tracker_info.left, &mut q);
    q
}

proof fn lemma_utf8_at_least_one_byte(chars: Seq<char>)
    ensures
        chars.len() <= vstd::utf8::encode_utf8(chars).len(),
    decreases chars.len(),
{
    if chars.len() > 0 {
        lemma_utf8_at_least_one_byte(chars.drop_first());
        assert(vstd::utf8::encode_scalar(chars[0] as u32).len() >= 1);
    }
}

/// Builds the announce request target for one GET: a pure function of the
/// descriptor, the session counters and the event — identical inputs give
/// the identical string.  The size bound keeps the URL library's 32-bit
/// byte positions in range.
pub fn build_tracker_url(t: &TorrentInfo, e: &TrackerEvent) -> (r: String)
    requires
        url_normal_form(t.announce@) is Some,
        4 * url_normal_form(t.announce@)->Some_0.len() + 12 * query_of(*t, *e).len() + 8
            < 0x100000000,
    ensures
        r@ == request_target(*t, *e),
{
    let q = build_query(t, e);
    let mut out = url_set_query(t.announce.as_str(), q.as_str());
    out.append("&info_hash=");
    let ih = percent_encode_bytes(&t.info_hash);
    out.append(ih.as_str());
    out
}

/// Builds the announce request target after checking that the announce
/// text parses as a URL and that the URL and query are of ordinary size;
/// `None` exactly where one of those checks fails.
pub fn try_build_tracker_url(t: &TorrentInfo, e: &TrackerEvent) -> (r: Option<String>)
    ensures
        r matches Some(s) ==> s@ == request_target(*t, *e),
        r is Some <==> (url_normal_form(t.announce@) matches Some(n) && vstd::utf8::encode_utf8(
            n,
        ).len() <= 0x8000000 && vstd::utf8::encode_utf8(query_of(*t, *e)).len() <= 0x8000000),
{
    let q = build_query(t, e);
    match parse_absolute_url(t.announce.as_str()) {
        Some(n) => {
            if n.as_str().as_bytes().len() <= 0x8000000 && q.as_str().as_bytes().len()
                <= 0x8000000 {
                proof {
                    lemma_utf8_at_least_one_byte(n@);
                    lemma_utf8_at_least_one_byte(q@);
                }
                Some(build_tracker_url(t, e))
            } else {
                None
            }
        },
        None => None,
    }
}

/// A successfully decoded announce response.  Fields the tracker did not
/// send are `None`.
#[derive(Debug)]
pub struct TrackerResponse {
    pub warning_message: Option<String>,
    pub interval: Option<u64>,
    pub min_interval: Option<u64>,
    pub tracker_id: Option<String>,
    pub complete: Option<u64>,
    pub incomplete: Option<u64>,
}

/// Why a response buffer did not yield a successful response.
#[derive(Debug)]
pub enum TrackerError {
    /// The body is not a canonical encoding.
    Decode(DecodeError),
    /// The top-level value is not a dictionary.
    NotADictionary,
    /// A known field has the wrong type, invalid text, or a negative count.
    TypeMismatch,
    /// The tracker reported failure; the payload is its reason.
    TrackerFailure(String),
}

/// The wire key of the failure reason.
pub open spec fn key_failure_reason() -> Seq<u8> {
    vstd::utf8::encode_utf8("failure_reason"@)
}

/// The failure reason bytes of a decoded response, if present.
pub open spec fn failure_reason_of(top: Value) -> Option<Seq<u8>> {
    match top.kind {
        Kind::Dictionary(es) => get_bytes(es@, key_failure_reason()),
        _ => None,
    }
}

/// An optional counter field: absent, or a non-negative integer.
pub open spec fn int_field_ok(es: Seq<(Vec<u8>, Value)>, k: Seq<u8>) -> bool {
    match dict_get(es, k) {
        None => true,
        Some(v) => v.kind matches Kind::Integer(i) && i >= 0,
    }
}

/// An optional text field: absent, or a byte string of valid UTF-8.
pub open spec fn text_field_ok(es: Seq<(Vec<u8>, Value)>, k: Seq<u8>) -> bool {
    match dict_get(es, k) {
        None => true,
        Some(v) => v.kind matches Kind::ByteString(b) && vstd::utf8::valid_utf8(b@),
    }
}

/// How an optional counter field of the result relates to the dictionary.
pub open spec fn u64_field_is(es: Seq<(Vec<u8>, Value)>, k: Seq<u8>, f: Option<u64>) -> bool {
    match dict_get(es, k) {
        None => f is None,
        Some(v) => match v.kind {
            Kind::Integer(i) => i >= 0 && f == Some(i as u64),
            _ => false,
        },
    }
}

/// How an optional text field of the result relates to the dictionary.
pub open spec fn text_field_is(es: Seq<(Vec<u8>, Value)>, k: Seq<u8>, f: Option<String>) -> bool {
    match dict_get(es, k) {
        None => f is None,
        Some(v) => match v.kind {
            Kind::ByteString(b) => {
                &&& vstd::utf8::valid_utf8(b@)
                &&& f matches Some(s)
                &&& s@ == vstd::utf8::decode_utf8(b@)
            },
            _ => false,
        },
    }
}

/// A decoded response value yields a success: a dictionary with no
/// failure reason and well-typed known fields.
pub open spec fn response_ok(top: Value) -> bool {
    match top.kind {
        Kind::Dictionary(es) => {
            &&& dict_get(es@, key_failure_reason()) is None
            &&& text_field_ok(es@, vstd::utf8::encode_utf8("warning_message"@))
            &&& int_field_ok(es@, vstd::utf8::encode_utf8("interval"@))
            &&& int_field_ok(es@, vstd::utf8::encode_utf8("min_interval"@))
            &&& text_field_ok(es@, vstd::utf8::encode_utf8("tracker_id"@))
            &&& int_field_ok(es@, vstd::utf8::encode_utf8("complete"@))
            &&& int_field_ok(es@, vstd::utf8::encode_utf8("incomplete"@))
        },
        _ => false,
    }
}

/// How a success result's fields relate to the decoded response value.
pub open spec fn response_extracted(top: Value, resp: TrackerResponse) -> bool {
    match top.kind {
        Kind::Dictionary(es) => {
            &&& dict_get(es@, key_failure_reason()) is None
            &&& text_field_is(es@, vstd::utf8::encode_utf8("warning_message"@), resp.warning_message)
            &&& u64_field_is(es@, vstd::utf8::encode_utf8("interval"@), resp.interval)
            &&& u64_field_is(es@, vstd::utf8::encode_utf8("min_interval"@), resp.min_interval)
            &&& text_field_is(es@, vstd::utf8::encode_utf8("tracker_id"@), resp.tracker_id)
            &&& u64_field_is(es@, vstd::utf8::encode_utf8("complete"@), resp.complete)
            &&& u64_field_is(es@, vstd::utf8::encode_utf8("incomplete"@), resp.incomplete)
        },
        _ => false,
    }
}

proof fn lemma_field_ok_equiv(es: Seq<(Vec<u8>, Value)>, fs: Seq<(Vec<u8>, Value)>, k: Seq<u8>)
    requires
        es.len() == fs.len(),
        forall|i: int|
            0 <= i < es.len() ==> ((#[trigger] es[i]).0@ == fs[i].0@ && equiv(es[i].1, fs[i].1)),
    ensures
        int_field_ok(es, k) == int_field_ok(fs, k),
        text_field_ok(es, k) == text_field_ok(fs, k),
{
    lemma_dict_get_equiv(es, fs, k);
    if dict_get(es, k) is Some {
        let v = dict_get(es, k)->Some_0;
        let v2 = dict_get(fs, k)->Some_0;
        assert(equiv(v, v2));
        match v.kind {
            Kind::ByteString(_) => {
                assert(v2.kind is ByteString);
            },
            Kind::Integer(_) => {
                assert(v2.kind is Integer);
            },
            Kind::List(_) => {
                assert(v2.kind is List);
            },
            Kind::Dictionary(_) => {
                assert(v2.kind is Dictionary);
            },
        }
    }
}

/// Whether a response decode succeeds depends only on the structure of the
/// decoded value, never on its spans.
proof fn lemma_response_ok_equiv(a: Value, b: Value)
    requires
        equiv(a, b),
    ensures
        response_ok(a) <==> response_ok(b),
        failure_reason_of(a) == failure_reason_of(b),
        a.kind is Dictionary <==> b.kind is Dictionary,
{
    match a.kind {
        Kind::Dictionary(es) => {
            assert(b.kind is Dictionary);
            let fs = b.kind->Dictionary_0;
            lemma_dict_get_equiv(es@, fs@, key_failure_reason());
            crate::bencode::lemma_get_bytes_equiv(es@, fs@, key_failure_reason());
            lemma_field_ok_equiv(es@, fs@, vstd::utf8::encode_utf8("warning_message"@));
            lemma_field_ok_equiv(es@, fs@, vstd::utf8::encode_utf8("interval"@));
            lemma_field_ok_equiv(es@, fs@, vstd::utf8::encode_utf8("min_interval"@));
            lemma_field_ok_equiv(es@, fs@, vstd::utf8::encode_utf8("tracker_id"@));
            lemma_field_ok_equiv(es@, fs@, vstd::utf8::encode_utf8("complete"@));
            lemma_field_ok_equiv(es@, fs@, vstd::utf8::encode_utf8("incomplete"@));
        },
        Kind::Integer(_) => {
            assert(b.kind is Integer);
        },
        Kind::ByteString(_) => {
            assert(b.kind is ByteString);
        },
        Kind::List(_) => {
            assert(b.kind is List);
        },
    }
}

/// Reads an optional counter field.
fn read_u64_field(es: &Vec<(Vec<u8>, Value)>, key: &[u8]) -> (r: Result<Option<u64>, TrackerError>)
    ensures
        r is Ok <==> int_field_ok(es@, key@),
        r matches Ok(f) ==> u64_field_is(es@, key@, f),
        r matches Err(e) ==> e is TypeMismatch,
{
    match lookup(es, key) {
        None => Ok(None),
        Some(v) => match &v.kind {
            Kind::Integer(i) => {
                if *i >= 0 {
                    Ok(Some(*i as u64))
                } else {
                    Err(TrackerError::TypeMismatch)
                }
            },
            _ => Err(TrackerError::TypeMismatch),
        },
    }
}

/// Reads an optional text field.
fn read_text_field(es: &Vec<(Vec<u8>, Value)>, key: &[u8]) -> (r: Result<
    Option<String>,
    TrackerError,
>)
    ensures
        r is Ok <==> text_field_ok(es@, key@),
        r matches Ok(f) ==> text_field_is(es@, key@, f),
        r matches Err(e) ==> e is TypeMismatch,
{
    match lookup(es, key) {
        None => Ok(None),
        Some(v) => match &v.kind {
            Kind::ByteString(b) => match string_from_utf8(b) {
                Some(s) => Ok(Some(s)),
                None => Err(TrackerError::TypeMismatch),
            },
            _ => Err(TrackerError::TypeMismatch),
        },
    }
}

/// Extracts a response from an already decoded value.  A present, readable
/// failure reason is surfaced as `TrackerFailure`, never as a success;
/// success comes exactly where `response_ok` holds.
pub fn extract_response(top: &Value) -> (r: Result<TrackerResponse, TrackerError>)
    ensures
        r is Ok <==> response_ok(*top),
        r matches Ok(resp) ==> response_extracted(*top, resp),
        (failure_reason_of(*top) is Some && vstd::utf8::valid_utf8(failure_reason_of(*top)->Some_0))
            ==> (r matches Err(e) && e matches TrackerError::TrackerFailure(m) && m@
            == vstd::utf8::decode_utf8(failure_reason_of(*top)->Some_0)),
        (r is Err && r->Err_0 is TrackerFailure) ==> (failure_reason_of(*top) is Some
            && vstd::utf8::valid_utf8(failure_reason_of(*top)->Some_0)
            && (r->Err_0)->TrackerFailure_0@ == vstd::utf8::decode_utf8(
            failure_reason_of(*top)->Some_0,
        )),
        r matches Err(e) ==> !(e is Decode),
        !((*top).kind is Dictionary) ==> r == Err::<TrackerResponse, TrackerError>(
            TrackerError::NotADictionary,
        ),
        (r matches Err(e) && e is NotADictionary) ==> !((*top).kind is Dictionary),
{
    let es = match &top.kind {
        Kind::Dictionary(es) => es,
        _ => {
            return Err(TrackerError::NotADictionary);
        },
    };
    match lookup(es, "failure_reason".as_bytes()) {
        Some(fv) => match &fv.kind {
            Kind::ByteString(fb) => match string_from_utf8(fb) {
                Some(m) => {
                    return Err(TrackerError::TrackerFailure(m));
                },
                None => {
                    return Err(TrackerError::TypeMismatch);
                },
            },
            _ => {
                return Err(TrackerError::TypeMismatch);
            },
        },
        None => (),
    };
    let warning_message = match read_text_field(es, "warning_message".as_bytes()) {
        Ok(f) => f,
        Err(e) => {
            return Err(e);
        },
    };
    let interval = match read_u64_field(es, "interval".as_bytes()) {
        Ok(f) => f,
        Err(e) => {
            return Err(e);
        },
    };
    let min_interval = match read_u64_field(es, "min_interval".as_bytes()) {
        Ok(f) => f,
        Err(e) => {
            return Err(e);
        },
    };
    let tracker_id = match read_text_field(es, "tracker_id".as_bytes()) {
        Ok(f) => f,
        Err(e) => {
            return Err(e);
        },
    };
    let complete = match read_u64_field(es, "complete".as_bytes()) {
        Ok(f) => f,
        Err(e) => {
            return Err(e);
        },
    };
    let incomplete = match read_u64_field(es, "incomplete".as_bytes()) {
        Ok(f) => f,
        Err(e) => {
            return Err(e);
        },
    };
    Ok(
        TrackerResponse {
            warning_message,
            interval,
            min_interval,
            tracker_id,
            complete,
            incomplete,
        },
    )
}

/// Decodes a tracker response body.  On success there is a decoded
/// dictionary, spanning the whole buffer, with no failure reason and with
/// the result's fields read from it; a readable failure reason always
/// surfaces as `TrackerFailure`.
pub fn parse_response(bytes: &Vec<u8>) -> (r: Result<TrackerResponse, TrackerError>)
    ensures
        r matches Ok(resp) ==> exists|top: Value|
            {
                &&& wf(top)
                &&& spans_ok(top, bytes@)
                &&& encoded(top) == bytes@
                &&& response_ok(top)
                &&& #[trigger] response_extracted(top, resp)
            },
        (r is Err && r->Err_0 is TrackerFailure) ==> exists|top: Value|
            {
                &&& wf(top)
                &&& encoded(top) == bytes@
                &&& (#[trigger] failure_reason_of(top)) is Some
                &&& vstd::utf8::valid_utf8(failure_reason_of(top)->Some_0)
                &&& (r->Err_0)->TrackerFailure_0@ == vstd::utf8::decode_utf8(
                    failure_reason_of(top)->Some_0,
                )
            },
        r is Err ==> forall|top: Value|
            wf(top) && encoded(top) == bytes@ ==> !(#[trigger] response_ok(top)),
        (r matches Err(e) && e is Decode) ==> forall|v: Value|
            wf(v) ==> #[trigger] encoded(v) != bytes@,
        forall|top: Value|
            (wf(top) && #[trigger] encoded(top) == bytes@ && failure_reason_of(top) is Some
                && vstd::utf8::valid_utf8(failure_reason_of(top)->Some_0)) ==> (r is Err
                && r->Err_0 is TrackerFailure && (r->Err_0)->TrackerFailure_0@
                == vstd::utf8::decode_utf8(failure_reason_of(top)->Some_0)),
        forall|top: Value|
            (wf(top) && #[trigger] encoded(top) == bytes@ && !(top.kind is Dictionary)) ==> (
            r matches Err(e) && e is NotADictionary),
{
    let top = match bencode::decode(bytes) {
        Ok(v) => v,
        Err(e) => {
            proof {
                assert forall|t2: Value|
                    wf(t2) && #[trigger] encoded(t2) == bytes@ implies false by {
                    assert(encoded(t2) != bytes@);
                }
            }
            return Err(TrackerError::Decode(e));
        },
    };
    let r = extract_response(&top);
    proof {
        if r is Err {
            assert forall|t2: Value| wf(t2) && encoded(t2) == bytes@ implies !(
            #[trigger] response_ok(t2)) by {
                lemma_encoded_injective(top, t2);
                lemma_response_ok_equiv(top, t2);
            }
        }
        assert forall|t2: Value|
            (wf(t2) && #[trigger] encoded(t2) == bytes@ && failure_reason_of(t2) is Some
                && vstd::utf8::valid_utf8(failure_reason_of(t2)->Some_0)) implies (r is Err
            && r->Err_0 is TrackerFailure && (r->Err_0)->TrackerFailure_0@
            == vstd::utf8::decode_utf8(failure_reason_of(t2)->Some_0)) by {
            lemma_encoded_injective(top, t2);
            lemma_response_ok_equiv(top, t2);
            assert(failure_reason_of(top) == failure_reason_of(t2));
        }
        assert forall|t2: Value|
            (wf(t2) && #[trigger] encoded(t2) == bytes@ && !(t2.kind is Dictionary)) implies (
        r matches Err(e) && e is NotADictionary) by {
            lemma_encoded_injective(top, t2);
            lemma_response_ok_equiv(top, t2);
        }
        if r is Err && r->Err_0 is TrackerFailure {
            assert(wf(top));
            assert(encoded(top) == bytes@);
            assert(failure_reason_of(top) is Some);
            assert(vstd::utf8::valid_utf8(failure_reason_of(top)->Some_0));
            assert((r->Err_0)->TrackerFailure_0@ == vstd::utf8::decode_utf8(
                failure_reason_of(top)->Some_0,
            ));
        }
    }
    r
}

} // verus!
