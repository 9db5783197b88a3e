use bittorrent_core::bencode::{decode, encode, DecodeError, Kind, Value};

fn decode_ok(b: &[u8]) -> Value {
    match decode(&b.to_vec()) {
        Ok(v) => v,
        Err(e) => panic!("expected a value for {:?}, got {:?}", b, e),
    }
}

fn decode_err(b: &[u8]) -> DecodeError {
    match decode(&b.to_vec()) {
        Ok(_) => panic!("expected an error for {:?}", b),
        Err(e) => e,
    }
}

#[test]
fn decodes_byte_string() {
    let v = decode_ok(b"4:spam");
    assert_eq!(v.start, 0);
    assert_eq!(v.end, 6);
    match &v.kind {
        Kind::ByteString(s) => assert_eq!(s.as_slice(), b"spam"),
        _ => panic!("not a byte string"),
    }
}

#[test]
fn decodes_integers() {
    match decode_ok(b"i3e").kind {
        Kind::Integer(i) => assert_eq!(i, 3),
        _ => panic!("not an integer"),
    }
    match decode_ok(b"i-3e").kind {
        Kind::Integer(i) => assert_eq!(i, -3),
        _ => panic!("not an integer"),
    }
    match decode_ok(b"i0e").kind {
        Kind::Integer(i) => assert_eq!(i, 0),
        _ => panic!("not an integer"),
    }
}

#[test]
fn decodes_list() {
    let v = decode_ok(b"l4:spam4:eggse");
    match &v.kind {
        Kind::List(items) => {
            assert_eq!(items.len(), 2);
            match &items[0].kind {
                Kind::ByteString(s) => assert_eq!(s.as_slice(), b"spam"),
                _ => panic!("not a byte string"),
            }
            match &items[1].kind {
                Kind::ByteString(s) => assert_eq!(s.as_slice(), b"eggs"),
                _ => panic!("not a byte string"),
            }
        },
        _ => panic!("not a list"),
    }
}

#[test]
fn decodes_dictionary() {
    let v = decode_ok(b"d3:cow3:moo4:spam4:eggse");
    match &v.kind {
        Kind::Dictionary(entries) => {
            assert_eq!(entries.len(), 2);
            assert_eq!(entries[0].0.as_slice(), b"cow");
            match &entries[0].1.kind {
                Kind::ByteString(s) => assert_eq!(s.as_slice(), b"moo"),
                _ => panic!("not a byte string"),
            }
            assert_eq!(entries[1].0.as_slice(), b"spam");
            match &entries[1].1.kind {
                Kind::ByteString(s) => assert_eq!(s.as_slice(), b"eggs"),
                _ => panic!("not a byte string"),
            }
        },
        _ => panic!("not a dictionary"),
    }
}

#[test]
fn keeps_nested_spans() {
    let bytes = b"d4:infod6:lengthi20eee".to_vec();
    let v = decode_ok(&bytes);
    match &v.kind {
        Kind::Dictionary(entries) => {
            let inner = &entries[0].1;
            assert_eq!(&bytes[inner.start..inner.end], b"d6:lengthi20ee");
        },
        _ => panic!("not a dictionary"),
    }
}

#[test]
fn rejects_noncanonical_integers() {
    assert_eq!(decode_err(b"i03e"), DecodeError::BadInteger);
    assert_eq!(decode_err(b"i-0e"), DecodeError::BadInteger);
    assert_eq!(decode_err(b"i--1e"), DecodeError::BadInteger);
    assert_eq!(decode_err(b"ie"), DecodeError::BadInteger);
    assert_eq!(decode_err(b"i2x3e"), DecodeError::BadInteger);
}

#[test]
fn rejects_unsorted_dictionary_keys() {
    assert_eq!(decode_err(b"d4:spam4:eggs3:cow3:mooe"), DecodeError::UnsortedKeys);
    // equal keys are not strictly ascending either
    assert_eq!(decode_err(b"d3:cow3:moo3:cow3:mooe"), DecodeError::UnsortedKeys);
}

#[test]
fn rejects_malformed_buffers() {
    assert_eq!(decode_err(b""), DecodeError::Truncated);
    assert_eq!(decode_err(b"4:sp"), DecodeError::Truncated);
    assert_eq!(decode_err(b"l4:spam"), DecodeError::Truncated);
    assert_eq!(decode_err(b"d3:cow3:moo"), DecodeError::Truncated);
    assert_eq!(decode_err(b"x"), DecodeError::BadTag);
    assert_eq!(decode_err(b"04:spam"), DecodeError::BadLength);
    assert_eq!(decode_err(b"4x:spam"), DecodeError::BadLength);
    assert_eq!(decode_err(b"i3ei4e"), DecodeError::TrailingBytes);
}

#[test]
fn integer_bounds() {
    match decode_ok(b"i9223372036854775807e").kind {
        Kind::Integer(i) => assert_eq!(i, i64::MAX),
        _ => panic!("not an integer"),
    }
    match decode_ok(b"i-9223372036854775808e").kind {
        Kind::Integer(i) => assert_eq!(i, i64::MIN),
        _ => panic!("not an integer"),
    }
    assert_eq!(decode_err(b"i9223372036854775808e"), DecodeError::BadInteger);
    assert_eq!(decode_err(b"i-9223372036854775809e"), DecodeError::BadInteger);
}

#[test]
fn reencoding_a_decoded_value_reproduces_the_input() {
    let inputs: Vec<&[u8]> = vec![
        b"4:spam",
        b"0:",
        b"i0e",
        b"i-3e",
        b"le",
        b"de",
        b"l4:spam4:eggse",
        b"d3:cow3:moo4:spam4:eggse",
        b"d1:ali1ee2:abi2e1:bi-7ee",
    ];
    for input in inputs {
        let v = decode_ok(input);
        assert_eq!(encode(&v).as_slice(), input);
    }
}

#[test]
fn decoding_an_encoded_value_gives_it_back() {
    let v = Value {
        start: 0,
        end: 0,
        kind: Kind::List(vec![
            Value { start: 0, end: 0, kind: Kind::Integer(-42) },
            Value { start: 0, end: 0, kind: Kind::ByteString(b"ham".to_vec()) },
        ]),
    };
    let bytes = encode(&v);
    assert_eq!(bytes.as_slice(), b"li-42e3:hame");
    let back = decode_ok(&bytes);
    match &back.kind {
        Kind::List(items) => {
            assert_eq!(items.len(), 2);
            match &items[0].kind {
                Kind::Integer(i) => assert_eq!(*i, -42),
                _ => panic!("not an integer"),
            }
            match &items[1].kind {
                Kind::ByteString(s) => assert_eq!(s.as_slice(), b"ham"),
                _ => panic!("not a byte string"),
            }
        },
        _ => panic!("not a list"),
    }
}
