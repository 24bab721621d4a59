use torrent_codec::decode::{decode_bencoded_value, DecodeError};
use torrent_codec::encode::encode_bencoded_value;
use torrent_codec::value::Value;

fn bytes(v: &Value) -> &Vec<u8> {
    match v {
        Value::Bytes(b) => b,
        _ => panic!("expected a byte string"),
    }
}

#[test]
fn decode_byte_string() {
    let (v, end) = decode_bencoded_value(b"4:spam").unwrap();
    assert_eq!(bytes(&v).as_slice(), b"spam");
    assert_eq!(end, 6);
}

#[test]
fn decode_integer() {
    let (v, end) = decode_bencoded_value(b"i52e").unwrap();
    assert!(matches!(v, Value::Int(52)));
    assert_eq!(end, 4);
}

#[test]
fn decode_negative_integer() {
    let (v, _) = decode_bencoded_value(b"i-52e").unwrap();
    assert!(matches!(v, Value::Int(-52)));
}

#[test]
fn decode_list() {
    let (v, end) = decode_bencoded_value(b"l4:spam4:eggse").unwrap();
    match &v {
        Value::List(items) => {
            assert_eq!(items.len(), 2);
            assert_eq!(bytes(&items[0]).as_slice(), b"spam");
            assert_eq!(bytes(&items[1]).as_slice(), b"eggs");
        }
        _ => panic!("expected a list"),
    }
    assert_eq!(end, 14);
}

#[test]
fn decode_empty_list() {
    let (v, end) = decode_bencoded_value(b"le").unwrap();
    match &v {
        Value::List(items) => assert_eq!(items.len(), 0),
        _ => panic!("expected a list"),
    }
    assert_eq!(end, 2);
}

#[test]
fn decode_dictionary() {
    let (v, end) = decode_bencoded_value(b"d3:cow3:moo4:spam4:eggse").unwrap();
    match &v {
        Value::Dict(es) => {
            assert_eq!(es.len(), 2);
            assert_eq!(es[0].0.as_slice(), b"cow");
            assert_eq!(bytes(&es[0].1).as_slice(), b"moo");
            assert_eq!(es[1].0.as_slice(), b"spam");
            assert_eq!(bytes(&es[1].1).as_slice(), b"eggs");
        }
        _ => panic!("expected a dictionary"),
    }
    assert_eq!(end, 24);
}

#[test]
fn decode_leaves_remainder() {
    let (v, end) = decode_bencoded_value(b"i7etrailing").unwrap();
    assert!(matches!(v, Value::Int(7)));
    assert_eq!(end, 3);
}

#[test]
fn decode_empty_input_is_truncated() {
    assert_eq!(decode_bencoded_value(b"").unwrap_err(), DecodeError::Truncated);
}

#[test]
fn decode_unknown_tag() {
    assert_eq!(decode_bencoded_value(b"x").unwrap_err(), DecodeError::UnknownTag);
}

#[test]
fn decode_integer_without_digits() {
    assert_eq!(decode_bencoded_value(b"ie").unwrap_err(), DecodeError::BadInteger);
}

#[test]
fn decode_integer_without_end_marker() {
    assert_eq!(decode_bencoded_value(b"i42").unwrap_err(), DecodeError::BadInteger);
}

#[test]
fn decode_integer_out_of_range() {
    // One more than the largest signed 64-bit integer.
    assert_eq!(
        decode_bencoded_value(b"i9223372036854775808e").unwrap_err(),
        DecodeError::BadInteger
    );
    // The most negative signed 64-bit integer still decodes.
    let (v, _) = decode_bencoded_value(b"i-9223372036854775808e").unwrap();
    assert!(matches!(v, Value::Int(i64::MIN)));
}

#[test]
fn decode_length_without_colon() {
    assert_eq!(decode_bencoded_value(b"4spam").unwrap_err(), DecodeError::BadLength);
}

#[test]
fn decode_string_longer_than_input() {
    assert_eq!(decode_bencoded_value(b"5:spam").unwrap_err(), DecodeError::Truncated);
}

#[test]
fn decode_unterminated_list() {
    assert_eq!(decode_bencoded_value(b"li1e").unwrap_err(), DecodeError::Truncated);
}

#[test]
fn decode_dict_key_not_a_string() {
    assert!(decode_bencoded_value(b"di1ei2ee").is_err());
}

#[test]
fn encode_integer() {
    let v = Value::Int(52);
    assert_eq!(encode_bencoded_value(&v), b"i52e");
    assert_eq!(encode_bencoded_value(&Value::Int(-7)), b"i-7e");
    assert_eq!(encode_bencoded_value(&Value::Int(0)), b"i0e");
    assert_eq!(
        encode_bencoded_value(&Value::Int(i64::MIN)),
        b"i-9223372036854775808e"
    );
}

#[test]
fn encode_byte_string() {
    let v = Value::Bytes(b"spam".to_vec());
    assert_eq!(encode_bencoded_value(&v), b"4:spam");
    assert_eq!(encode_bencoded_value(&Value::Bytes(Vec::new())), b"0:");
}

#[test]
fn encode_list() {
    let v = Value::List(vec![
        Value::Bytes(b"spam".to_vec()),
        Value::Bytes(b"eggs".to_vec()),
    ]);
    assert_eq!(encode_bencoded_value(&v), b"l4:spam4:eggse");
}

#[test]
fn encode_sorts_dictionary_keys() {
    // Entries arrive in the wrong order; the canonical encoder must
    // emit them sorted by key.
    let v = Value::Dict(vec![
        (b"spam".to_vec(), Value::Bytes(b"eggs".to_vec())),
        (b"cow".to_vec(), Value::Bytes(b"moo".to_vec())),
    ]);
    assert_eq!(encode_bencoded_value(&v), b"d3:cow3:moo4:spam4:eggse");
}

#[test]
fn encode_sorts_nested_dictionaries() {
    let inner = Value::Dict(vec![
        (b"b".to_vec(), Value::Int(1)),
        (b"a".to_vec(), Value::Int(2)),
    ]);
    let v = Value::Dict(vec![(b"x".to_vec(), inner)]);
    assert_eq!(encode_bencoded_value(&v), b"d1:xd1:ai2e1:bi1eee");
}

#[test]
fn round_trip_mixed_value() {
    // An unsorted dictionary round-trips to its sorted normal form and
    // consumes the whole encoding.
    let v = Value::Dict(vec![
        (b"zz".to_vec(), Value::List(vec![Value::Int(1), Value::Bytes(b"x".to_vec())])),
        (b"aa".to_vec(), Value::Int(-5)),
    ]);
    let enc = encode_bencoded_value(&v);
    let (back, end) = decode_bencoded_value(&enc).unwrap();
    assert_eq!(end, enc.len());
    match &back {
        Value::Dict(es) => {
            assert_eq!(es.len(), 2);
            assert_eq!(es[0].0.as_slice(), b"aa");
            assert!(matches!(es[0].1, Value::Int(-5)));
            assert_eq!(es[1].0.as_slice(), b"zz");
        }
        _ => panic!("expected a dictionary"),
    }
    // Encoding the normal form again reproduces the same bytes.
    assert_eq!(encode_bencoded_value(&back), enc);
}

#[test]
fn round_trip_already_sorted_is_identity() {
    let raw = b"d3:cow3:moo4:spam4:eggse";
    let (v, end) = decode_bencoded_value(raw).unwrap();
    assert_eq!(end, raw.len());
    assert_eq!(encode_bencoded_value(&v).as_slice(), raw.as_slice());
}
